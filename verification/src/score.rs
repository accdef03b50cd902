use vstd::prelude::*;

verus! {

/// Move and placement counters. Both are non-decreasing while a level is
/// played; a rejected intent touches neither.
#[derive(Debug, PartialEq, Eq, Structural, Clone, Copy)]
pub struct Score {
    pub moves: i32,
    pub scored: i32,
}

impl Score {
    pub fn new() -> (s: Score)
        ensures
            s.moves == 0,
            s.scored == 0,
    {
        Score { moves: 0, scored: 0 }
    }
}

/// The display score formula: `max(0, 100*scored - moves - elapsed)`.
pub open spec fn spec_display_score(scored: int, moves: int, elapsed: int) -> int {
    if 100 * scored - moves - elapsed < 0 {
        0
    } else {
        100 * scored - moves - elapsed
    }
}

/// Display-only derived value, recomputed on each render pull; it never
/// drives game logic. The caller supplies the elapsed seconds.
pub fn display_score(scored: i32, moves: i32, elapsed_secs: i32) -> (r: i64)
    ensures
        r == spec_display_score(scored as int, moves as int, elapsed_secs as int),
{
    let aux: i64 = 100 * (scored as i64) - (moves as i64) - (elapsed_secs as i64);
    if aux < 0 {
        0
    } else {
        aux
    }
}

} // verus!
