use vstd::prelude::*;

verus! {

/// A direction of movement on the board.
#[derive(Default, Clone, Copy, PartialEq, Eq, Structural, Debug)]
pub enum Direction {
    Up,
    Right,
    Down,
    Left,
    #[default]
    Unknown,
}

impl Direction {
    /// The direction that points the other way; `Unknown` stays `Unknown`.
    pub fn opposite(&self) -> (r: Direction)
        ensures
            r == opposite_of(*self),
            opposite_of(r) == *self,
    {
        match self {
            Direction::Up => Direction::Down,
            Direction::Down => Direction::Up,
            Direction::Left => Direction::Right,
            Direction::Right => Direction::Left,
            Direction::Unknown => Direction::Unknown,
        }
    }
}

pub open spec fn opposite_of(d: Direction) -> Direction {
    match d {
        Direction::Up => Direction::Down,
        Direction::Down => Direction::Up,
        Direction::Left => Direction::Right,
        Direction::Right => Direction::Left,
        Direction::Unknown => Direction::Unknown,
    }
}

} // verus!
