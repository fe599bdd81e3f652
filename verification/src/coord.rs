//! Grid coordinates and the four directions of movement.

use vstd::prelude::*;

verus! {

/// Number of columns of the room grid.
pub const ROOM_WIDTH: u8 = 16;

/// Number of rows of the room grid.
pub const ROOM_HEIGHT: u8 = 8;

/// One of the four moves the player can attempt.
#[derive(Debug, Clone, Copy, PartialEq, Eq, Structural, Hash)]
pub enum Direction {
    Up,
    Down,
    Left,
    Right,
}

impl Direction {
    /// The four directions in the order in which the searches try them.
    pub open spec fn all() -> Seq<Direction> {
        seq![Direction::Up, Direction::Down, Direction::Left, Direction::Right]
    }

    /// The place of the direction in [`Direction::all`].
    pub open spec fn rank(self) -> nat {
        match self {
            Direction::Up => 0,
            Direction::Down => 1,
            Direction::Left => 2,
            Direction::Right => 3,
        }
    }

    /// Every direction occurs in [`Direction::all`], at its rank.
    pub proof fn lemma_all_ranked()
        ensures
            forall|k: int| 0 <= k < 4 ==> (#[trigger] Direction::all()[k]).rank() == k,
            forall|d: Direction| #[trigger] Direction::all()[d.rank() as int] == d,
            forall|d: Direction| #[trigger] d.rank() < 4,
    {
    }

    /// Every direction occurs in [`Direction::all`].
    pub proof fn lemma_all_covers(d: Direction)
        ensures
            exists|k: int| 0 <= k < 4 && #[trigger] Direction::all()[k] == d,
    {
        match d {
            Direction::Up => assert(Direction::all()[0] == d),
            Direction::Down => assert(Direction::all()[1] == d),
            Direction::Left => assert(Direction::all()[2] == d),
            Direction::Right => assert(Direction::all()[3] == d),
        }
    }

    pub fn all_directions() -> (r: [Direction; 4])
        ensures
            r@ == Direction::all(),
    {
        let r = [Direction::Up, Direction::Down, Direction::Left, Direction::Right];
        assert(r@ =~= Direction::all());
        r
    }
}

/// A cell position. Column `x` grows to the right, row `y` grows downwards.
#[derive(Debug, Clone, Copy, PartialEq, Eq, Structural, Hash)]
pub struct Coord {
    pub x: u8,
    pub y: u8,
}

impl Coord {
    /// Whether the position lies on the grid.
    pub open spec fn in_bounds(self) -> bool {
        self.x < ROOM_WIDTH && self.y < ROOM_HEIGHT
    }

    /// The neighbouring cell in direction `d`, if it lies on the grid.
    pub open spec fn stepped(self, d: Direction) -> Option<Coord> {
        match d {
            Direction::Left => if self.x == 0 {
                None
            } else {
                Some(Coord { x: (self.x - 1) as u8, y: self.y })
            },
            Direction::Right => if self.x == ROOM_WIDTH - 1 {
                None
            } else {
                Some(Coord { x: (self.x + 1) as u8, y: self.y })
            },
            Direction::Up => if self.y == 0 {
                None
            } else {
                Some(Coord { x: self.x, y: (self.y - 1) as u8 })
            },
            Direction::Down => if self.y == ROOM_HEIGHT - 1 {
                None
            } else {
                Some(Coord { x: self.x, y: (self.y + 1) as u8 })
            },
        }
    }

    /// Builds a coordinate, rejecting positions off the grid.
    pub fn new(x: u8, y: u8) -> (r: Option<Coord>)
        ensures
            r == (if x < ROOM_WIDTH && y < ROOM_HEIGHT {
                Some(Coord { x, y })
            } else {
                None::<Coord>
            }),
    {
        if x < ROOM_WIDTH && y < ROOM_HEIGHT {
            Some(Coord { x, y })
        } else {
            None
        }
    }

    pub fn is_within_bounds(self) -> (b: bool)
        ensures
            b == self.in_bounds(),
    {
        self.x < ROOM_WIDTH && self.y < ROOM_HEIGHT
    }

    /// Moves one cell in `direction`; `None` when that would leave the grid.
    pub fn take_step(self, direction: Direction) -> (r: Option<Coord>)
        requires
            self.in_bounds(),
        ensures
            r == self.stepped(direction),
            r matches Some(c) ==> c.in_bounds(),
    {
        match direction {
            Direction::Left => if self.x == 0 {
                None
            } else {
                Some(Coord { x: self.x - 1, y: self.y })
            },
            Direction::Right => if self.x == ROOM_WIDTH - 1 {
                None
            } else {
                Some(Coord { x: self.x + 1, y: self.y })
            },
            Direction::Up => if self.y == 0 {
                None
            } else {
                Some(Coord { x: self.x, y: self.y - 1 })
            },
            Direction::Down => if self.y == ROOM_HEIGHT - 1 {
                None
            } else {
                Some(Coord { x: self.x, y: self.y + 1 })
            },
        }
    }
}

} // verus!
