//! The state of one cell while a layout is synthesised, the four directions
//! and the symmetries a layout can have.

use vstd::prelude::*;

verus! {

/// A cell during synthesis. A white cell is open; `reserved` marks one that
/// must stay open, and each of the four flags is `true` while no block stands
/// next to the cell on that side. A black cell is blocked for good.
#[derive(Clone, Copy, Debug)]
pub enum Cell {
    White { reserved: bool, left: bool, right: bool, up: bool, down: bool },
    Black,
}

impl Default for Cell {
    /// A fresh cell.
    fn default() -> (cell: Cell)
        ensures
            cell == Cell::fresh(),
    {
        Cell::White { left: true, right: true, up: true, down: true, reserved: false }
    }
}

impl Cell {
    /// An open cell that is not reserved and has no block next to it.
    pub open spec fn fresh() -> Cell {
        Cell::White { reserved: false, left: true, right: true, up: true, down: true }
    }

    /// A block may be placed here: the cell is white, not reserved, and no
    /// block stands next to it.
    pub open spec fn placeable(self) -> bool {
        self matches Cell::White { reserved, left, right, up, down } && !reserved && left && right
            && up && down
    }

    /// The cell with the flag of one side set; a black cell stays as it is.
    pub open spec fn with_flag(self, dir: Direction, val: bool) -> Cell {
        match self {
            Cell::White { reserved, left, right, up, down } => match dir {
                Direction::Left => Cell::White { reserved, left: val, right, up, down },
                Direction::Right => Cell::White { reserved, left, right: val, up, down },
                Direction::Down => Cell::White { reserved, left, right, up, down: val },
                Direction::Up => Cell::White { reserved, left, right, up: val, down },
            },
            Cell::Black => Cell::Black,
        }
    }

    /// The cell marked as one that must stay open; a black cell stays as it is.
    pub open spec fn as_reserved(self) -> Cell {
        match self {
            Cell::White { reserved, left, right, up, down } => Cell::White {
                reserved: true,
                left,
                right,
                up,
                down,
            },
            Cell::Black => Cell::Black,
        }
    }

    /// Whether a block may be placed on the cell.
    pub fn can_place(&self) -> (can: bool)
        ensures
            can == self.placeable(),
    {
        match self {
            Cell::White { left, right, up, down, reserved } => !*reserved && *left && *right && *up
                && *down,
            Cell::Black => false,
        }
    }

    /// Sets the flag of one side; a black cell stays as it is.
    pub fn set(&mut self, dir: Direction, val: bool)
        ensures
            *final(self) == old(self).with_flag(dir, val),
    {
        let next = match *self {
            Cell::White { reserved, left, right, up, down } => match dir {
                Direction::Left => Cell::White { reserved, left: val, right, up, down },
                Direction::Right => Cell::White { reserved, left, right: val, up, down },
                Direction::Down => Cell::White { reserved, left, right, up, down: val },
                Direction::Up => Cell::White { reserved, left, right, up: val, down },
            },
            Cell::Black => Cell::Black,
        };
        *self = next;
    }

    /// Turns the cell black.
    pub fn place(&mut self)
        ensures
            *final(self) == Cell::Black,
    {
        *self = Cell::Black;
    }
}

/// The four sides of a cell.
#[derive(Clone, Copy, Debug)]
pub enum Direction {
    Left,
    Right,
    Down,
    Up,
}

impl Direction {
    /// The step that the direction takes, as `(dx, dy)`; rows grow downwards.
    pub open spec fn delta(self) -> (int, int) {
        match self {
            Direction::Left => (-1, 0),
            Direction::Right => (1, 0),
            Direction::Down => (0, 1),
            Direction::Up => (0, -1),
        }
    }

    /// The direction that faces back.
    pub open spec fn spec_opposite(self) -> Direction {
        match self {
            Direction::Left => Direction::Right,
            Direction::Right => Direction::Left,
            Direction::Down => Direction::Up,
            Direction::Up => Direction::Down,
        }
    }

    /// The direction that faces back.
    pub fn opposite(self) -> (back: Direction)
        ensures
            back == self.spec_opposite(),
    {
        match self {
            Direction::Left => Direction::Right,
            Direction::Right => Direction::Left,
            Direction::Down => Direction::Up,
            Direction::Up => Direction::Down,
        }
    }

    /// The four directions in the order left, right, down, up.
    pub fn iter() -> (it: DirectionIter)
        ensures
            it.0 is None,
            it.remaining() == 4,
    {
        DirectionIter(None)
    }
}

/// Walks through the four directions; it holds the direction handed out last.
#[derive(Clone, Copy, Debug)]
pub struct DirectionIter(pub Option<Direction>);

impl DirectionIter {
    /// The direction that follows the one handed out last.
    pub open spec fn successor(self) -> Option<Direction> {
        match self.0 {
            None => Some(Direction::Left),
            Some(Direction::Left) => Some(Direction::Right),
            Some(Direction::Right) => Some(Direction::Down),
            Some(Direction::Down) => Some(Direction::Up),
            Some(Direction::Up) => None,
        }
    }

    /// How many directions are still to come.
    pub open spec fn remaining(self) -> nat {
        match self.0 {
            None => 4,
            Some(Direction::Left) => 3,
            Some(Direction::Right) => 2,
            Some(Direction::Down) => 1,
            Some(Direction::Up) => 0,
        }
    }

    /// Hands out the next direction, `None` after the last.
    pub fn next(&mut self) -> (dir: Option<Direction>)
        ensures
            dir == old(self).successor(),
            final(self).0 == dir,
            dir is Some ==> final(self).remaining() + 1 == old(self).remaining(),
            dir is None <==> old(self).remaining() == 0,
    {
        self.0 = match self.0 {
            None => Some(Direction::Left),
            Some(Direction::Left) => Some(Direction::Right),
            Some(Direction::Right) => Some(Direction::Down),
            Some(Direction::Down) => Some(Direction::Up),
            Some(Direction::Up) => None,
        };
        self.0
    }
}

/// The symmetry that a layout keeps.
#[derive(Clone, Copy, Debug)]
pub enum Symmetry {
    /// A half turn about the centre of the board.
    Point,
    /// The half turn and the reflections in both midlines.
    Quarter,
    /// No symmetry.
    NoSymmetry,
}

impl Symmetry {
    /// The image of a coordinate under the half turn about the centre of a
    /// board of the given size.
    pub open spec fn half_turn(x: int, y: int, width: int, height: int) -> (int, int) {
        (width - x - 1, height - y - 1)
    }

    /// The image of a coordinate under the half turn, for a symmetry that has
    /// one.
    pub fn rotate(&self, coord: (isize, isize), width: usize, height: isize) -> (image: Option<
        (isize, isize),
    >)
        requires
            !(self is NoSymmetry) ==> {
                &&& isize::MIN <= width - coord.0 - 1 <= isize::MAX
                &&& isize::MIN <= height - coord.1 - 1 <= isize::MAX
            },
        ensures
            self is NoSymmetry ==> image is None,
            !(self is NoSymmetry) ==> (image matches Some(c) && (c.0 as int, c.1 as int)
                == Symmetry::half_turn(
                coord.0 as int,
                coord.1 as int,
                width as int,
                height as int,
            )),
    {
        match self {
            Symmetry::Point => Some(Self::turned(coord, width, height)),
            Symmetry::Quarter => Some(Self::turned(coord, width, height)),
            Symmetry::NoSymmetry => None,
        }
    }

    /// The image of a coordinate under the half turn.
    fn turned(coord: (isize, isize), width: usize, height: isize) -> (c: (isize, isize))
        requires
            isize::MIN <= width - coord.0 - 1 <= isize::MAX,
            isize::MIN <= height - coord.1 - 1 <= isize::MAX,
        ensures
            (c.0 as int, c.1 as int) == Symmetry::half_turn(
                coord.0 as int,
                coord.1 as int,
                width as int,
                height as int,
            ),
    {
        let x: i128 = width as i128 - coord.0 as i128 - 1;
        let y: i128 = height as i128 - coord.1 as i128 - 1;
        (x as isize, y as isize)
    }
}

} // verus!
