use vstd::prelude::*;

verus! {

/// A cell of the 6-by-6 board, addressed by (column, row).
///
/// The fields are signed because a tentative move target is computed by
/// adding a unit vector to a coordinate before the bounds check, so a value
/// one step outside the board must be representable.
#[derive(Clone, Copy, PartialEq, Eq, Structural, Debug)]
pub struct Coord {
    pub x: i32,
    pub y: i32,
}

/// Whether a coordinate lies on the board.
pub open spec fn in_grid(c: Coord) -> bool {
    0 <= c.x < 6 && 0 <= c.y < 6
}

/// Whether two cells are grid-adjacent (Manhattan distance exactly 1).
pub open spec fn adjacent(a: Coord, b: Coord) -> bool {
    (a.x == b.x && (a.y - b.y == 1 || b.y - a.y == 1)) || (a.y == b.y && (a.x - b.x == 1
        || b.x - a.x == 1))
}

/// The fixed start cell for a player index: the four board corners,
/// `((index / 2) * 5, (index % 2) * 5)`.
pub open spec fn spec_start_coords(player_number: int) -> Coord {
    Coord { x: (player_number / 2 * 5) as i32, y: (player_number % 2 * 5) as i32 }
}

pub fn start_coords(player_number: usize) -> (c: Coord)
    requires
        player_number < 4,
    ensures
        c == spec_start_coords(player_number as int),
        in_grid(c),
{
    Coord { x: (player_number / 2 * 5) as i32, y: (player_number % 2 * 5) as i32 }
}

/// A directional move intent: one of the four axis-aligned unit vectors.
#[derive(Clone, Copy, PartialEq, Eq, Structural, Debug)]
pub enum MoveRequest {
    Up,
    Down,
    Left,
    Right,
}

/// The unit vector for a direction, as (dx, dy).
pub open spec fn spec_delta(req: MoveRequest) -> (int, int) {
    match req {
        MoveRequest::Up => (0, 1),
        MoveRequest::Down => (0, -1),
        MoveRequest::Left => (-1, 0),
        MoveRequest::Right => (1, 0),
    }
}

impl MoveRequest {
    pub fn delta(&self) -> (d: (i32, i32))
        ensures
            (d.0 as int, d.1 as int) == spec_delta(*self),
    {
        match self {
            MoveRequest::Up => (0, 1),
            MoveRequest::Down => (0, -1),
            MoveRequest::Left => (-1, 0),
            MoveRequest::Right => (1, 0),
        }
    }
}

/// The cell one step from `c` in direction `req`, which may lie off the board.
pub open spec fn spec_step(c: Coord, req: MoveRequest) -> Coord {
    Coord { x: (c.x + spec_delta(req).0) as i32, y: (c.y + spec_delta(req).1) as i32 }
}

impl Coord {
    /// Apply a direction to an on-board coordinate.
    pub fn step(&self, req: MoveRequest) -> (c: Coord)
        requires
            in_grid(*self),
        ensures
            c == spec_step(*self, req),
    {
        let d = req.delta();
        Coord { x: self.x + d.0, y: self.y + d.1 }
    }
}

} // verus!
