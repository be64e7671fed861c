use snooty_oxide::damerau_levenshtein_distance;

#[test]
fn empty_both() {
    assert_eq!(damerau_levenshtein_distance("", ""), 0);
}

#[test]
fn empty_left_costs_right_length() {
    assert_eq!(damerau_levenshtein_distance("", "abc"), 3);
    assert_eq!(damerau_levenshtein_distance("", "q"), 1);
}

#[test]
fn empty_right_costs_left_length() {
    assert_eq!(damerau_levenshtein_distance("abc", ""), 3);
    assert_eq!(damerau_levenshtein_distance("w", ""), 1);
}

#[test]
fn identity_on_equal_strings() {
    assert_eq!(damerau_levenshtein_distance("kitten", "kitten"), 0);
    assert_eq!(damerau_levenshtein_distance("a", "a"), 0);
    assert_eq!(damerau_levenshtein_distance("caf\u{e9}", "caf\u{e9}"), 0);
}

#[test]
fn symmetry_on_sample_pairs() {
    let pairs = [("kitten", "sitting"), ("ca", "abc"), ("ab", "ba"), ("", "xyz")];
    for (a, b) in pairs {
        assert_eq!(
            damerau_levenshtein_distance(a, b),
            damerau_levenshtein_distance(b, a)
        );
    }
}

#[test]
fn single_substitution() {
    assert_eq!(damerau_levenshtein_distance("abc", "abd"), 1);
}

#[test]
fn single_adjacent_transposition() {
    assert_eq!(damerau_levenshtein_distance("ab", "ba"), 1);
}

#[test]
fn single_insertion_and_deletion() {
    assert_eq!(damerau_levenshtein_distance("abc", "abcd"), 1);
    assert_eq!(damerau_levenshtein_distance("abcd", "abc"), 1);
}

#[test]
fn non_adjacent_swap_costs_two() {
    assert_eq!(damerau_levenshtein_distance("abcdef", "adcbef"), 2);
}

#[test]
fn classic_damerau_example() {
    assert_eq!(damerau_levenshtein_distance("ca", "abc"), 2);
}

#[test]
fn kitten_sitting() {
    assert_eq!(damerau_levenshtein_distance("kitten", "sitting"), 3);
}

#[test]
fn bounded_by_longer_length() {
    let pairs = [("kitten", "sitting"), ("ca", "abc"), ("abcdef", "xyz"), ("a", "bcdefg")];
    for (a, b) in pairs {
        let d = damerau_levenshtein_distance(a, b);
        let max_len = a.chars().count().max(b.chars().count()) as i32;
        let diff = (a.chars().count() as i32 - b.chars().count() as i32).abs();
        assert!(d <= max_len);
        assert!(d >= diff);
    }
}

#[test]
fn compares_code_points_not_bytes() {
    // e-acute is two bytes in UTF-8 but one code point
    assert_eq!(damerau_levenshtein_distance("caf\u{e9}", "cafe"), 1);
    assert_eq!(damerau_levenshtein_distance("\u{e9}\u{e8}", "\u{e8}\u{e9}"), 1);
}

#[test]
fn repeated_characters() {
    assert_eq!(damerau_levenshtein_distance("aaa", "aa"), 1);
    assert_eq!(damerau_levenshtein_distance("banana", "banan"), 1);
}
