//! Geometry primitives: grid coordinates and the four unit directions.

use vstd::prelude::*;

verus! {

/// One of the four unit grid directions. `y` grows downward, so `Up` is the
/// negative `y` step.
#[derive(Copy, Clone, Debug, PartialEq, Eq, Structural, Hash)]
pub enum Direction {
    Up,
    Down,
    Left,
    Right,
}

/// A signed 2-D grid position.
#[derive(Copy, Clone, Debug, PartialEq, Eq, Structural, Hash)]
pub struct Coord {
    pub x: isize,
    pub y: isize,
}

impl Direction {
    /// The horizontal component of this direction's unit step.
    pub open spec fn dx(self) -> int {
        match self {
            Direction::Left => -1,
            Direction::Right => 1,
            _ => 0,
        }
    }

    /// The vertical component of this direction's unit step.
    pub open spec fn dy(self) -> int {
        match self {
            Direction::Up => -1,
            Direction::Down => 1,
            _ => 0,
        }
    }

    /// The reversing direction.
    pub open spec fn spec_opposite(self) -> Direction {
        match self {
            Direction::Up => Direction::Down,
            Direction::Down => Direction::Up,
            Direction::Left => Direction::Right,
            Direction::Right => Direction::Left,
        }
    }

    /// The reversing direction: a worm may never turn onto it in one tick.
    #[verifier::when_used_as_spec(spec_opposite)]
    pub fn opposite(self) -> (r: Direction)
        ensures
            r == self.spec_opposite(),
    {
        match self {
            Direction::Up => Direction::Down,
            Direction::Down => Direction::Up,
            Direction::Left => Direction::Right,
            Direction::Right => Direction::Left,
        }
    }

    /// The unit coordinate delta of one step in this direction.
    pub fn delta_coord(self) -> (r: Coord)
        ensures
            r.x == self.dx(),
            r.y == self.dy(),
    {
        match self {
            Direction::Up => Coord { x: 0, y: -1 },
            Direction::Down => Coord { x: 0, y: 1 },
            Direction::Left => Coord { x: -1, y: 0 },
            Direction::Right => Coord { x: 1, y: 0 },
        }
    }

    /// The direction a word of randomness selects.
    pub open spec fn spec_from_u32(x: u32) -> Direction {
        if x % 4 == 0 {
            Direction::Up
        } else if x % 4 == 1 {
            Direction::Down
        } else if x % 4 == 2 {
            Direction::Left
        } else {
            Direction::Right
        }
    }

    /// Maps a word of randomness onto a direction, uniformly over the four.
    pub fn from_u32(x: u32) -> (r: Direction)
        ensures
            r == Direction::spec_from_u32(x),
    {
        match x % 4 {
            0 => Direction::Up,
            1 => Direction::Down,
            2 => Direction::Left,
            _ => Direction::Right,
        }
    }
}

/// Builds a coordinate from unsigned grid indices.
pub fn coord(x: usize, y: usize) -> (r: Coord)
    requires
        x <= isize::MAX,
        y <= isize::MAX,
    ensures
        r.x == x,
        r.y == y,
{
    Coord { x: x as isize, y: y as isize }
}

/// Builds a coordinate from signed components.
pub fn signed_coord(x: isize, y: isize) -> (r: Coord)
    ensures
        r.x == x,
        r.y == y,
{
    Coord { x, y }
}

impl Coord {
    /// The coordinate one unit step away in the given direction.
    pub fn offset(self, dir: Direction) -> (r: Coord)
        requires
            isize::MIN <= self.x + dir.dx() <= isize::MAX,
            isize::MIN <= self.y + dir.dy() <= isize::MAX,
        ensures
            r.x == self.x + dir.dx(),
            r.y == self.y + dir.dy(),
    {
        match dir {
            Direction::Up => Coord { x: self.x, y: self.y - 1 },
            Direction::Down => Coord { x: self.x, y: self.y + 1 },
            Direction::Left => Coord { x: self.x - 1, y: self.y },
            Direction::Right => Coord { x: self.x + 1, y: self.y },
        }
    }
}

} // verus!
