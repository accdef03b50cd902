use sokoban::score::{display_score, Score};

#[test]
fn new_score_is_zeroed() {
    let s = Score::new();
    assert_eq!(s.moves, 0);
    assert_eq!(s.scored, 0);
}

#[test]
fn display_score_exact_value() {
    // 100*3 - 20 - 30 = 250
    assert_eq!(display_score(3, 20, 30), 250);
    // 100*1 - 0 - 0 = 100
    assert_eq!(display_score(1, 0, 0), 100);
}

#[test]
fn display_score_clamps_at_zero() {
    assert_eq!(display_score(0, 5, 10), 0);
    assert_eq!(display_score(1, 99, 2), 0);
    assert_eq!(display_score(0, 0, 0), 0);
}

#[test]
fn display_score_large_inputs() {
    // computed without overflow even at the extremes of i32
    assert_eq!(
        display_score(i32::MAX, 0, 0),
        100i64 * (i32::MAX as i64)
    );
    assert_eq!(display_score(i32::MIN, i32::MAX, i32::MAX), 0);
}
