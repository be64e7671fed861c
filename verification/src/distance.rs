//! The Damerau-Levenshtein distance engine.
//!
//! [`distance`] is the mathematical statement of the distance: the classic
//! recurrence over a bordered table, in which insertions, deletions,
//! substitutions and adjacent transpositions each cost one edit, with a
//! sentinel border that rules the transposition candidate out where no prior
//! match exists. [`damerau_levenshtein_distance`] computes it by filling the
//! table row by row, keeping a last-occurrence map for the transposition
//! candidate, and is proved to return exactly [`distance`].

use crate::matrix::Matrix;
use std::collections::HashMap;
use vstd::prelude::*;
use vstd::string::*;

verus! {

broadcast use vstd::std_specs::hash::group_hash_axioms;

/// The smaller of two integers.
pub open spec fn min2(x: int, y: int) -> int {
    if x <= y {
        x
    } else {
        y
    }
}

/// The smallest of four integers.
pub open spec fn min4(x: int, y: int, z: int, w: int) -> int {
    min2(min2(min2(x, y), z), w)
}

/// The larger of two integers.
pub open spec fn max2(x: int, y: int) -> int {
    if x >= y {
        x
    } else {
        y
    }
}

/// The absolute difference of two integers.
pub open spec fn abs_diff(x: int, y: int) -> int {
    if x >= y {
        x - y
    } else {
        y - x
    }
}

/// Sentinel stored on the outer table border: one more than any cost the
/// recurrence can select, so a transposition candidate that reaches the
/// border never wins the minimum.
pub open spec fn sentinel(a: Seq<char>, b: Seq<char>) -> int {
    a.len() + b.len() as int
}

/// The latest 1-based position `p <= hi` with `s[p - 1] == c`, or 0 if no
/// such position exists.
pub open spec fn last_pos(s: Seq<char>, c: char, hi: int) -> int
    decreases hi,
{
    if hi <= 0 {
        0
    } else if s[hi - 1] == c {
        hi
    } else {
        last_pos(s, c, hi - 1)
    }
}

/// `last_pos` stays within `[0, hi]`.
pub proof fn lemma_last_pos_bounds(s: Seq<char>, c: char, hi: int)
    ensures
        0 <= last_pos(s, c, hi),
        hi >= 0 ==> last_pos(s, c, hi) <= hi,
        hi < 0 ==> last_pos(s, c, hi) == 0,
    decreases hi,
{
    if hi > 0 {
        lemma_last_pos_bounds(s, c, hi - 1);
    }
}

/// The Damerau-Levenshtein recurrence over the bordered table. Logical
/// coordinates `x` and `y` range over `[-1, |a|]` and `[-1, |b|]`: the `-1`
/// border holds the sentinel, row `y == 0` holds `x` (delete a length-`x`
/// prefix), column `x == 0` holds `y` (insert a length-`y` prefix), and an
/// inner cell is the cheapest of substitution, insertion, deletion, and
/// transposition of the block between the latest prior matching positions.
pub open spec fn table_value(a: Seq<char>, b: Seq<char>, x: int, y: int) -> int
    decreases x + y + 2,
    via table_value_decreases
{
    if x < 0 || y < 0 {
        sentinel(a, b)
    } else if y == 0 {
        x
    } else if x == 0 {
        y
    } else {
        let cost: int = if a[x - 1] == b[y - 1] {
            0
        } else {
            1
        };
        let k = last_pos(a, b[y - 1], x - 1);
        let l = last_pos(b, a[x - 1], y - 1);
        min4(
            table_value(a, b, x - 1, y - 1) + cost,
            table_value(a, b, x, y - 1) + 1,
            table_value(a, b, x - 1, y) + 1,
            table_value(a, b, k - 1, l - 1) + (x - k - 1) + 1 + (y - l - 1),
        )
    }
}

#[via_fn]
proof fn table_value_decreases(a: Seq<char>, b: Seq<char>, x: int, y: int) {
    if 0 < x && 0 < y {
        lemma_last_pos_bounds(a, b[y - 1], x - 1);
        lemma_last_pos_bounds(b, a[x - 1], y - 1);
    }
}

/// The Damerau-Levenshtein distance between two character sequences: the
/// minimum number of single-character insertions, deletions, substitutions
/// and adjacent transpositions, read off as the final cell of the recurrence.
pub open spec fn distance(a: Seq<char>, b: Seq<char>) -> int {
    table_value(a, b, a.len() as int, b.len() as int)
}

/// Every table cell is non-negative.
pub proof fn lemma_table_value_nonneg(a: Seq<char>, b: Seq<char>, x: int, y: int)
    ensures
        0 <= table_value(a, b, x, y),
    decreases x + y + 2,
{
    if 0 < x && 0 < y {
        let k = last_pos(a, b[y - 1], x - 1);
        let l = last_pos(b, a[x - 1], y - 1);
        lemma_last_pos_bounds(a, b[y - 1], x - 1);
        lemma_last_pos_bounds(b, a[x - 1], y - 1);
        lemma_table_value_nonneg(a, b, x - 1, y - 1);
        lemma_table_value_nonneg(a, b, x, y - 1);
        lemma_table_value_nonneg(a, b, x - 1, y);
        lemma_table_value_nonneg(a, b, k - 1, l - 1);
    }
}

/// An ordinary (non-border) cell never exceeds `x + y`: one can always
/// delete the whole prefix of `a` and insert the whole prefix of `b`.
pub proof fn lemma_table_value_le_sum(a: Seq<char>, b: Seq<char>, x: int, y: int)
    requires
        0 <= x,
        0 <= y,
    ensures
        table_value(a, b, x, y) <= x + y,
    decreases x + y,
{
    if 0 < x && 0 < y {
        lemma_table_value_le_sum(a, b, x, y - 1);
    }
}

/// An ordinary cell never exceeds `max2(x, y)`: substitute along the
/// diagonal, then insert or delete the leftover.
pub proof fn lemma_table_value_le_max(a: Seq<char>, b: Seq<char>, x: int, y: int)
    requires
        0 <= x,
        0 <= y,
    ensures
        table_value(a, b, x, y) <= max2(x, y),
    decreases x + y,
{
    if 0 < x && 0 < y {
        lemma_table_value_le_max(a, b, x - 1, y - 1);
    }
}

/// An ordinary cell is at least `abs_diff(x, y)`: every edit changes the
/// length difference by at most one.
pub proof fn lemma_table_value_ge_diff(a: Seq<char>, b: Seq<char>, x: int, y: int)
    requires
        0 <= x <= a.len(),
        0 <= y <= b.len(),
    ensures
        table_value(a, b, x, y) >= abs_diff(x, y),
    decreases x + y,
{
    if 0 < x && 0 < y {
        let k = last_pos(a, b[y - 1], x - 1);
        let l = last_pos(b, a[x - 1], y - 1);
        lemma_last_pos_bounds(a, b[y - 1], x - 1);
        lemma_last_pos_bounds(b, a[x - 1], y - 1);
        lemma_table_value_ge_diff(a, b, x - 1, y - 1);
        lemma_table_value_ge_diff(a, b, x, y - 1);
        lemma_table_value_ge_diff(a, b, x - 1, y);
        if 1 <= k && 1 <= l {
            lemma_table_value_ge_diff(a, b, k - 1, l - 1);
            assert(table_value(a, b, k - 1, l - 1) + (x - k - 1) + 1 + (y - l - 1) >= abs_diff(
                x,
                y,
            ));
        } else {
            assert(table_value(a, b, k - 1, l - 1) == sentinel(a, b));
            assert(sentinel(a, b) >= abs_diff(x, y));
        }
    }
}

/// Along the diagonal of identical sequences every cell is zero: matching
/// characters make the substitution candidate free.
proof fn lemma_table_value_diag(a: Seq<char>, i: int)
    requires
        0 <= i <= a.len(),
    ensures
        table_value(a, a, i, i) == 0,
    decreases i,
{
    if 0 < i {
        let k = last_pos(a, a[i - 1], i - 1);
        lemma_last_pos_bounds(a, a[i - 1], i - 1);
        lemma_table_value_diag(a, i - 1);
        lemma_table_value_nonneg(a, a, i, i - 1);
        lemma_table_value_nonneg(a, a, i - 1, i);
        lemma_table_value_nonneg(a, a, k - 1, k - 1);
        assert(table_value(a, a, i, i) <= table_value(a, a, i - 1, i - 1));
    }
}

/// Exchanging the sequences transposes the table: the recurrence treats `a`
/// and `b` alike, with insertion and deletion trading places.
proof fn lemma_table_value_sym(a: Seq<char>, b: Seq<char>, x: int, y: int)
    requires
        -1 <= x <= a.len(),
        -1 <= y <= b.len(),
    ensures
        table_value(a, b, x, y) == table_value(b, a, y, x),
    decreases x + y + 2,
{
    if 0 < x && 0 < y {
        let k = last_pos(a, b[y - 1], x - 1);
        let l = last_pos(b, a[x - 1], y - 1);
        lemma_last_pos_bounds(a, b[y - 1], x - 1);
        lemma_last_pos_bounds(b, a[x - 1], y - 1);
        lemma_table_value_sym(a, b, x - 1, y - 1);
        lemma_table_value_sym(a, b, x, y - 1);
        lemma_table_value_sym(a, b, x - 1, y);
        lemma_table_value_sym(a, b, k - 1, l - 1);
    }
}

/// The distance from any sequence to itself is zero.
pub proof fn lemma_distance_identity(a: Seq<char>)
    ensures
        distance(a, a) == 0,
{
    lemma_table_value_diag(a, a.len() as int);
}

/// The distance is symmetric in its two arguments.
pub proof fn lemma_distance_symmetry(a: Seq<char>, b: Seq<char>)
    ensures
        distance(a, b) == distance(b, a),
{
    lemma_table_value_sym(a, b, a.len() as int, b.len() as int);
}

/// Against the empty sequence, the distance is the other sequence's length.
pub proof fn lemma_distance_empty(a: Seq<char>, b: Seq<char>)
    ensures
        distance(Seq::<char>::empty(), b) == b.len(),
        distance(a, Seq::<char>::empty()) == a.len(),
{
}

/// The distance lies between the length difference and the longer length.
pub proof fn lemma_distance_bounds(a: Seq<char>, b: Seq<char>)
    ensures
        abs_diff(a.len() as int, b.len() as int) <= distance(a, b),
        distance(a, b) <= max2(a.len() as int, b.len() as int),
{
    lemma_table_value_ge_diff(a, b, a.len() as int, b.len() as int);
    lemma_table_value_le_max(a, b, a.len() as int, b.len() as int);
}

/// Distinct characters have distinct code points, so a map keyed by code
/// point loses nothing.
proof fn char_cast_injective(c1: char, c2: char)
    requires
        c1 as u32 == c2 as u32,
    ensures
        c1 == c2,
{
}

/// The borders of the table hold the recurrence's border values.
spec fn borders_ok(t: Matrix, a: Seq<char>, b: Seq<char>) -> bool {
    &&& t.cell(-1, -1) == table_value(a, b, -1, -1)
    &&& forall|x: int| 0 <= x <= a.len() ==> #[trigger] t.cell(x, -1) == table_value(a, b, x, -1)
    &&& forall|x: int| 0 <= x <= a.len() ==> #[trigger] t.cell(x, 0) == table_value(a, b, x, 0)
    &&& forall|y: int| 0 <= y <= b.len() ==> #[trigger] t.cell(-1, y) == table_value(a, b, -1, y)
    &&& forall|y: int| 0 <= y <= b.len() ==> #[trigger] t.cell(0, y) == table_value(a, b, 0, y)
}

/// Columns `1..x_done` agree with the recurrence everywhere, and column
/// `x_done` agrees up to row `y_done`.
spec fn filled_ok(t: Matrix, a: Seq<char>, b: Seq<char>, x_done: int, y_done: int) -> bool {
    &&& forall|x: int, y: int|
        1 <= x < x_done && 1 <= y <= b.len() ==> #[trigger] t.cell(x, y) == table_value(a, b, x, y)
    &&& forall|y: int|
        1 <= y <= y_done ==> #[trigger] t.cell(x_done, y) == table_value(a, b, x_done, y)
}

/// The last-occurrence map covers every character of either sequence and
/// records its latest 1-based position in `a` at or before `hi` (0 if none).
spec fn occ_map_ok(da: Map<u32, i32>, a: Seq<char>, b: Seq<char>, hi: int) -> bool {
    forall|c: char| #![trigger a.contains(c)] #![trigger b.contains(c)]
        a.contains(c) || b.contains(c) ==> da.contains_key(c as u32) && da[c as u32] == last_pos(
            a,
            c,
            hi,
        )
}

/// The characters of `s`, one per Unicode code point.
fn chars_of(s: &str) -> (v: Vec<char>)
    ensures
        v@ == s@,
{
    let total: usize = s.unicode_len();
    let mut v: Vec<char> = Vec::new();
    let mut i: usize = 0;
    while i < total
        invariant
            i <= total,
            total == s@.len(),
            v@ =~= s@.subrange(0, i as int),
        decreases total - i,
    {
        v.push(s.get_char(i));
        i = i + 1;
    }
    proof {
        assert(v@ =~= s@);
    }
    v
}

/// The Damerau-Levenshtein distance between `a` and `b`, compared code point
/// by code point. The precondition keeps every physical index of the
/// `(|a| + 2) * (|b| + 2)` table within `i32`, as the table's address
/// arithmetic needs.
#[verifier::loop_isolation(false)]
#[verifier::rlimit(100)]
pub fn damerau_levenshtein_distance(a: &str, b: &str) -> (r: i32)
    requires
        (a@.len() + 2) * (b@.len() + 2) <= i32::MAX,
    ensures
        r == distance(a@, b@),
        abs_diff(a@.len() as int, b@.len() as int) <= r,
        r <= max2(a@.len() as int, b@.len() as int),
{
    let ghost sa = a@;
    let ghost sb = b@;
    let ghost m = sa.len() as int;
    let ghost n = sb.len() as int;
    proof {
        assert((m + 2) * (n + 2) == m * n + 2 * m + 2 * n + 4) by (nonlinear_arith);
        assert(m * n >= 0) by (nonlinear_arith)
            requires
                0 <= m && 0 <= n,
        ;
        assert(m + n <= 0x3FFF_FFFD);
    }
    let a_chars: Vec<char> = chars_of(a);
    let b_chars: Vec<char> = chars_of(b);
    let a_len: i32 = a_chars.len() as i32;
    let b_len: i32 = b_chars.len() as i32;

    let mut da: HashMap<u32, i32> = HashMap::new();
    let mut ci: usize = 0;
    while ci < a_chars.len()
        invariant
            ci <= m,
            forall|q: int| 0 <= q < ci ==> da@.contains_key((#[trigger] sa[q]) as u32),
            forall|kk: u32| #[trigger] da@.contains_key(kk) ==> da@[kk] == 0,
        decreases m - ci,
    {
        da.insert(a_chars[ci] as u32, 0);
        ci = ci + 1;
    }
    let mut cj: usize = 0;
    while cj < b_chars.len()
        invariant
            cj <= n,
            forall|q: int| 0 <= q < m ==> da@.contains_key((#[trigger] sa[q]) as u32),
            forall|q: int| 0 <= q < cj ==> da@.contains_key((#[trigger] sb[q]) as u32),
            forall|kk: u32| #[trigger] da@.contains_key(kk) ==> da@[kk] == 0,
        decreases n - cj,
    {
        da.insert(b_chars[cj] as u32, 0);
        cj = cj + 1;
    }
    proof {
        assert forall|c: char| sa.contains(c) || sb.contains(c) implies da@.contains_key(c as u32)
            && da@[c as u32] == last_pos(sa, c, 0) by {
            if sa.contains(c) {
                let q = choose|q: int| 0 <= q < sa.len() && sa[q] == c;
                assert(sa[q] == c);
            } else {
                let q = choose|q: int| 0 <= q < sb.len() && sb[q] == c;
                assert(sb[q] == c);
            }
        }
        assert(occ_map_ok(da@, sa, sb, 0));
    }

    let mut t = Matrix::new(a_len + 2, b_len + 2);
    let maxdist: i32 = a_len + b_len;
    proof {
        assert(a_len == m);
        assert(b_len == n);
        assert(maxdist == sentinel(sa, sb));
    }
    t.set(-1, -1, maxdist);

    let mut i: i32 = 0;
    while i <= a_len
        invariant
            t.wf(),
            t.width() == m + 2,
            t.height() == n + 2,
            0 <= i <= a_len + 1,
            t.cell(-1, -1) == sentinel(sa, sb),
            forall|x: int| 0 <= x < i ==> #[trigger] t.cell(x, -1) == sentinel(sa, sb),
            forall|x: int| 0 <= x < i ==> #[trigger] t.cell(x, 0) == x,
        decreases a_len - i + 1,
    {
        t.set(i, -1, maxdist);
        t.set(i, 0, i);
        proof {
            assert(t.cell(i as int, -1) == sentinel(sa, sb));
            assert(t.cell(i as int, 0) == i);
        }
        i = i + 1;
    }
    let mut j: i32 = 0;
    while j <= b_len
        invariant
            t.wf(),
            t.width() == m + 2,
            t.height() == n + 2,
            0 <= j <= b_len + 1,
            t.cell(-1, -1) == sentinel(sa, sb),
            forall|x: int| 0 <= x <= m ==> #[trigger] t.cell(x, -1) == sentinel(sa, sb),
            forall|x: int| 0 <= x <= m ==> #[trigger] t.cell(x, 0) == x,
            forall|y: int| 0 <= y < j ==> #[trigger] t.cell(-1, y) == sentinel(sa, sb),
            forall|y: int| 0 <= y < j ==> #[trigger] t.cell(0, y) == y,
        decreases b_len - j + 1,
    {
        t.set(-1, j, maxdist);
        t.set(0, j, j);
        proof {
            assert(t.cell(-1, j as int) == sentinel(sa, sb));
            assert(t.cell(0, j as int) == j);
        }
        j = j + 1;
    }
    proof {
        assert(borders_ok(t, sa, sb));
        assert(filled_ok(t, sa, sb, 1, 0));
    }

    let mut i: i32 = 1;
    while i <= a_len
        invariant
            t.wf(),
            t.width() == m + 2,
            t.height() == n + 2,
            1 <= i <= a_len + 1,
            borders_ok(t, sa, sb),
            filled_ok(t, sa, sb, i as int, 0),
            occ_map_ok(da@, sa, sb, i - 1),
        decreases a_len - i + 1,
    {
        let mut db: i32 = 0;
        let ac: char = a_chars[(i - 1) as usize];
        proof {
            assert(sa[i - 1] == ac);
            assert(sa.contains(ac));
        }
        let mut j: i32 = 1;
        while j <= b_len
            invariant
                t.wf(),
                t.width() == m + 2,
                t.height() == n + 2,
                1 <= j <= b_len + 1,
                borders_ok(t, sa, sb),
                filled_ok(t, sa, sb, i as int, j - 1),
                occ_map_ok(da@, sa, sb, i - 1),
                db == last_pos(sb, ac, j - 1),
                0 <= db <= j - 1,
            decreases b_len - j + 1,
        {
            let bc: char = b_chars[(j - 1) as usize];
            proof {
                assert(sb[j - 1] == bc);
                assert(sb.contains(bc));
            }
            let k: i32 = match da.get(&(bc as u32)) {
                Some(v) => *v,
                None => {
                    proof {
                        assert(false);
                    }
                    0
                },
            };
            let l: i32 = db;
            let cost: i32 = if ac == bc {
                db = j;
                0
            } else {
                1
            };
            proof {
                assert(k == last_pos(sa, bc, i - 1));
                lemma_last_pos_bounds(sa, bc, i - 1);
                assert(0 <= k <= i - 1);
                // the four operand cells hold the recurrence's values
                assert(t.cell(i - 1, j - 1) == table_value(sa, sb, i - 1, j - 1)) by {
                    if i - 1 == 0 {
                        assert(t.cell(0, j - 1) == table_value(sa, sb, 0, j - 1));
                    } else if j - 1 == 0 {
                        assert(t.cell(i - 1, 0) == table_value(sa, sb, i - 1, 0));
                    }
                }
                assert(t.cell(i as int, j - 1) == table_value(sa, sb, i as int, j - 1)) by {
                    if j - 1 == 0 {
                        assert(t.cell(i as int, 0) == table_value(sa, sb, i as int, 0));
                    }
                }
                assert(t.cell(i - 1, j as int) == table_value(sa, sb, i - 1, j as int)) by {
                    if i - 1 == 0 {
                        assert(t.cell(0, j as int) == table_value(sa, sb, 0, j as int));
                    }
                }
                assert(t.cell(k - 1, l - 1) == table_value(sa, sb, k - 1, l - 1)) by {
                    if k - 1 < 0 {
                        if l - 1 < 0 {
                            assert(t.cell(-1, -1) == table_value(sa, sb, -1, -1));
                        } else {
                            assert(t.cell(-1, l - 1) == table_value(sa, sb, -1, l - 1));
                        }
                    } else if l - 1 < 0 {
                        assert(t.cell(k - 1, -1) == table_value(sa, sb, k - 1, -1));
                    } else if k - 1 == 0 {
                        assert(t.cell(0, l - 1) == table_value(sa, sb, 0, l - 1));
                    } else if l - 1 == 0 {
                        assert(t.cell(k - 1, 0) == table_value(sa, sb, k - 1, 0));
                    }
                }
                // and those values fit comfortably in `i32`
                lemma_table_value_nonneg(sa, sb, i - 1, j - 1);
                lemma_table_value_le_sum(sa, sb, i - 1, j - 1);
                lemma_table_value_nonneg(sa, sb, i as int, j - 1);
                lemma_table_value_le_sum(sa, sb, i as int, j - 1);
                lemma_table_value_nonneg(sa, sb, i - 1, j as int);
                lemma_table_value_le_sum(sa, sb, i - 1, j as int);
                lemma_table_value_nonneg(sa, sb, k - 1, l - 1);
                if 1 <= k && 1 <= l {
                    lemma_table_value_le_sum(sa, sb, k - 1, l - 1);
                } else {
                    assert(table_value(sa, sb, k - 1, l - 1) == sentinel(sa, sb));
                }
            }
            let sub: i32 = t.get(i - 1, j - 1) + cost;
            let ins: i32 = t.get(i, j - 1) + 1;
            let del: i32 = t.get(i - 1, j) + 1;
            let tr: i32 = t.get(k - 1, l - 1) + (i - k - 1) + 1 + (j - l - 1);
            let mut best: i32 = sub;
            if ins < best {
                best = ins;
            }
            if del < best {
                best = del;
            }
            if tr < best {
                best = tr;
            }
            proof {
                assert(best == min4(sub as int, ins as int, del as int, tr as int));
                assert(table_value(sa, sb, i as int, j as int) == min4(
                    table_value(sa, sb, i - 1, j - 1) + cost,
                    table_value(sa, sb, i as int, j - 1) + 1,
                    table_value(sa, sb, i - 1, j as int) + 1,
                    table_value(sa, sb, k - 1, l - 1) + (i - k - 1) + 1 + (j - l - 1),
                ));
                assert(best == table_value(sa, sb, i as int, j as int));
            }
            t.set(i, j, best);
            proof {
                // the new cell extends the filled region; everything else is framed
                assert(borders_ok(t, sa, sb));
                assert(filled_ok(t, sa, sb, i as int, j as int));
                if ac == bc {
                    assert(db == last_pos(sb, ac, j as int));
                } else {
                    assert(last_pos(sb, ac, j as int) == last_pos(sb, ac, j - 1));
                }
            }
            j = j + 1;
        }
        da.insert(ac as u32, i);
        proof {
            assert forall|c: char| sa.contains(c) || sb.contains(c) implies da@.contains_key(
                c as u32,
            ) && da@[c as u32] == last_pos(sa, c, i as int) by {
                if c == ac {
                    assert(da@[ac as u32] == i);
                    assert(last_pos(sa, ac, i as int) == i);
                } else {
                    assert(c as u32 != ac as u32) by {
                        if c as u32 == ac as u32 {
                            char_cast_injective(c, ac);
                        }
                    }
                    assert(last_pos(sa, c, i as int) == last_pos(sa, c, i - 1));
                }
            }
            assert(occ_map_ok(da@, sa, sb, i as int));
            assert(filled_ok(t, sa, sb, i + 1, 0)) by {
                assert forall|x: int, y: int| 1 <= x < i + 1 && 1 <= y <= n implies #[trigger] t.cell(
                    x,
                    y,
                ) == table_value(sa, sb, x, y) by {
                    if x < i {
                    } else {
                        assert(t.cell(i as int, y) == table_value(sa, sb, i as int, y));
                    }
                }
            }
        }
        i = i + 1;
    }
    let result: i32 = t.get(a_len, b_len);
    proof {
        if m == 0 {
            assert(t.cell(0, n) == table_value(sa, sb, 0, n));
        } else if n == 0 {
            assert(t.cell(m, 0) == table_value(sa, sb, m, 0));
        } else {
            assert(t.cell(m, n) == table_value(sa, sb, m, n));
        }
        lemma_table_value_ge_diff(sa, sb, m, n);
        lemma_table_value_le_max(sa, sb, m, n);
    }
    result
}

} // verus!
