use vstd::prelude::*;

verus! {

/// One of the four ways a move can push the tiles.
#[derive(PartialEq, Eq, Structural, Debug, Clone, Copy)]
pub enum Direction {
    Up,
    Right,
    Down,
    Left,
}

impl Direction {
    /// The unit step `(dx, dy)` that a tile takes when it is pushed this way.
    pub open spec fn vector(self) -> (int, int) {
        match self {
            Direction::Up => (0, -1),
            Direction::Right => (1, 0),
            Direction::Down => (0, 1),
            Direction::Left => (-1, 0),
        }
    }

    /// Whether tiles pushed this way travel along the `y` axis.
    pub open spec fn is_vertical(self) -> bool {
        self == Direction::Up || self == Direction::Down
    }

    /// The unit step `(dx, dy)` of the direction.
    pub fn to_vector(self) -> (v: (isize, isize))
        ensures
            (v.0 as int, v.1 as int) == self.vector(),
    {
        match self {
            Direction::Up => (0, -1),
            Direction::Right => (1, 0),
            Direction::Down => (0, 1),
            Direction::Left => (-1, 0),
        }
    }

    /// The four directions, clockwise from `Up`.
    pub fn all_directions() -> (dirs: Vec<Direction>)
        ensures
            dirs@ == seq![Direction::Up, Direction::Right, Direction::Down, Direction::Left],
    {
        vec![Direction::Up, Direction::Right, Direction::Down, Direction::Left]
    }
}

/// Whether `(dx, dy)` is the step of one of the four directions.
pub open spec fn is_unit_step(dx: int, dy: int) -> bool {
    exists|d: Direction| d.vector() == (dx, dy)
}

} // verus!
