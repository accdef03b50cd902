use sokoban::matrix::CollisionMatrix;

#[test]
fn new_matrix_is_all_free() {
    let m = CollisionMatrix::new(10, 15);
    for r in 0..10 {
        for c in 0..15 {
            assert!(!m.get(r, c));
        }
    }
}

#[test]
fn set_then_get_reads_back() {
    let mut m = CollisionMatrix::new(10, 15);
    m.set(3, 7, true);
    assert!(m.get(3, 7));
    assert!(!m.get(3, 6));
    assert!(!m.get(2, 7));
    m.set(3, 7, false);
    assert!(!m.get(3, 7));
}

#[test]
fn next_reads_neighbours_and_bounds() {
    let mut m = CollisionMatrix::new(10, 15);
    m.set(5, 5, true);
    // from (4, 4): one to the right (x) and one down (y) is (5, 5)
    assert!(m.next((4, 4), 1, 1));
    assert!(!m.next((4, 4), 0, 0));
    // walking off the grid reads as unoccupied
    assert!(!m.next((0, 0), -1, -1));
    assert!(!m.next((9, 14), 1, 1));
}

#[test]
fn check_surroundings_radius() {
    let mut m = CollisionMatrix::new(10, 15);
    m.set(5, 5, true);
    // (4, 4) is at Chebyshev distance 1 from (5, 5)
    assert!(m.check_surroundings((4, 4), 1));
    assert!(m.check_surroundings((4, 4), 3));
    // radius 0 looks only at the cell itself
    assert!(!m.check_surroundings((4, 4), 0));
    assert!(m.check_surroundings((5, 5), 0));
    // (2, 2) is at distance 3
    assert!(!m.check_surroundings((2, 2), 2));
    assert!(m.check_surroundings((2, 2), 3));
}

#[test]
fn check_surroundings_negative_radius_sees_nothing() {
    let mut m = CollisionMatrix::new(10, 15);
    m.set(5, 5, true);
    assert!(!m.check_surroundings((5, 5), -1));
}
