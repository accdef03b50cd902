use vstd::prelude::*;

verus! {

/// A 2-D integer coordinate on the play grid. Coordinates are meaningful only
/// within the grid extent plus a one-cell margin; `new` rejects anything
/// outside that range and callers discard the attempted placement or move.
#[derive(Debug, PartialEq, Eq, Structural, Clone, Copy)]
pub struct Position {
    pub x: i32,
    pub y: i32,
}

impl Position {
    /// The bounded range a coordinate pair may lie in.
    pub open spec fn in_range(x: int, y: int) -> bool {
        -1 <= x <= 49 && -1 <= y <= 49
    }

    /// Validated construction: a position outside the permitted range is
    /// rejected, so no other state can be corrupted by it.
    pub fn new(x: i32, y: i32) -> (r: Option<Position>)
        ensures
            Self::in_range(x as int, y as int) ==> r == Some(Position { x, y }),
            !Self::in_range(x as int, y as int) ==> r is None,
    {
        if x > -2 && y > -2 && x < 50 && y < 50 {
            Some(Position { x, y })
        } else {
            None
        }
    }

    pub fn get_x(&self) -> (r: i32)
        ensures
            r == self.x,
    {
        self.x
    }

    pub fn get_y(&self) -> (r: i32)
        ensures
            r == self.y,
    {
        self.y
    }

    pub fn add_x(&mut self, x: i32)
        requires
            i32::MIN <= old(self).x + x <= i32::MAX,
        ensures
            final(self).x == old(self).x + x,
            final(self).y == old(self).y,
    {
        self.x = self.x + x;
    }

    pub fn add_y(&mut self, y: i32)
        requires
            i32::MIN <= old(self).y + y <= i32::MAX,
        ensures
            final(self).x == old(self).x,
            final(self).y == old(self).y + y,
    {
        self.y = self.y + y;
    }

    /// Componentwise sum of two positions.
    pub fn add(self, other: Position) -> (r: Position)
        requires
            i32::MIN <= self.x + other.x <= i32::MAX,
            i32::MIN <= self.y + other.y <= i32::MAX,
        ensures
            r.x == self.x + other.x,
            r.y == self.y + other.y,
    {
        Position { x: self.x + other.x, y: self.y + other.y }
    }
}

} // verus!
