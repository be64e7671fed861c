use snooty_oxide::matrix::Matrix;

#[test]
fn new_grid_is_zero_filled() {
    let g = Matrix::new(4, 3);
    assert_eq!(g.get(-1, -1), 0);
    assert_eq!(g.get(2, 1), 0);
    assert_eq!(g.get(0, 0), 0);
}

#[test]
fn set_then_get_round_trip() {
    let mut g = Matrix::new(5, 5);
    g.set(-1, -1, 7);
    g.set(2, 3, 42);
    assert_eq!(g.get(-1, -1), 7);
    assert_eq!(g.get(2, 3), 42);
}

#[test]
fn set_leaves_other_cells_alone() {
    let mut g = Matrix::new(3, 3);
    g.set(0, 0, 9);
    assert_eq!(g.get(-1, -1), 0);
    assert_eq!(g.get(1, 0), 0);
    assert_eq!(g.get(0, 1), 0);
    assert_eq!(g.get(0, 0), 9);
}
