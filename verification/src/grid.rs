//! Grid coordinates, the four directions of movement, and the choice of
//! one direction from the keys that went down in a tick.

use vstd::prelude::*;

verus! {

/// A cell of the unbounded integer plane: the mathematical model of a
/// [`GridLocation`].
pub struct Cell {
    pub x: int,
    pub y: int,
}

/// A direction of movement.
#[derive(Clone, Copy, PartialEq, Eq, Structural, Debug, Hash)]
pub enum Direction {
    Left,
    Right,
    Up,
    Down,
}

/// An integer coordinate identifying a cell of the grid.
#[derive(Clone, Copy, PartialEq, Eq, Structural, Debug, Hash)]
pub struct GridLocation(pub i32, pub i32);

/// The directional keys that went down during one tick.
#[derive(Clone, Copy, PartialEq, Eq, Structural, Debug, Hash)]
pub struct Pressed {
    pub left: bool,
    pub right: bool,
    pub down: bool,
    pub up: bool,
}

impl Cell {
    /// Whether the cell lies on the grid, that is, can be written as a
    /// [`GridLocation`].
    pub open spec fn on_grid(self) -> bool {
        &&& i32::MIN <= self.x <= i32::MAX
        &&& i32::MIN <= self.y <= i32::MAX
    }

    /// Component-wise sum.
    pub open spec fn plus(self, other: Cell) -> Cell {
        Cell { x: self.x + other.x, y: self.y + other.y }
    }

    /// The neighbouring cell in direction `d`.
    pub open spec fn step(self, d: Direction) -> Cell {
        self.plus(d.unit())
    }

    /// The cell `k` steps away in direction `d`.
    pub open spec fn shifted(self, d: Direction, k: int) -> Cell {
        match d {
            Direction::Left => Cell { x: self.x - k, y: self.y },
            Direction::Right => Cell { x: self.x + k, y: self.y },
            Direction::Up => Cell { x: self.x, y: self.y + k },
            Direction::Down => Cell { x: self.x, y: self.y - k },
        }
    }

    /// The coordinate that grows along direction `d`.
    pub open spec fn along(self, d: Direction) -> int {
        match d {
            Direction::Left => -self.x,
            Direction::Right => self.x,
            Direction::Up => self.y,
            Direction::Down => -self.y,
        }
    }

    /// The coordinate that a move in direction `d` leaves alone.
    pub open spec fn across(self, d: Direction) -> int {
        match d {
            Direction::Left | Direction::Right => self.y,
            Direction::Up | Direction::Down => self.x,
        }
    }

    /// The location that stands for this cell, where it lies on the grid.
    pub open spec fn location(self) -> GridLocation
        recommends
            self.on_grid(),
    {
        GridLocation(self.x as i32, self.y as i32)
    }
}

impl Direction {
    /// The unit delta of the direction.
    pub open spec fn unit(self) -> Cell {
        match self {
            Direction::Left => Cell { x: -1, y: 0 },
            Direction::Right => Cell { x: 1, y: 0 },
            Direction::Up => Cell { x: 0, y: 1 },
            Direction::Down => Cell { x: 0, y: -1 },
        }
    }

    /// The unit delta of the direction, as a location to add.
    pub fn delta(self) -> (d: GridLocation)
        ensures
            d@ == self.unit(),
    {
        match self {
            Direction::Left => GridLocation(-1, 0),
            Direction::Right => GridLocation(1, 0),
            Direction::Up => GridLocation(0, 1),
            Direction::Down => GridLocation(0, -1),
        }
    }
}

impl View for GridLocation {
    type V = Cell;

    open spec fn view(&self) -> Cell {
        Cell { x: self.0 as int, y: self.1 as int }
    }
}

impl std::ops::Add for GridLocation {
    type Output = GridLocation;

    /// Component-wise addition. The sum has to lie on the grid.
    fn add(self, rhs: GridLocation) -> (sum: GridLocation) {
        GridLocation(self.0 + rhs.0, self.1 + rhs.1)
    }
}

impl vstd::std_specs::ops::AddSpecImpl for GridLocation {
    open spec fn obeys_add_spec() -> bool {
        true
    }

    open spec fn add_req(self, rhs: GridLocation) -> bool {
        self@.plus(rhs@).on_grid()
    }

    open spec fn add_spec(self, rhs: GridLocation) -> GridLocation {
        self@.plus(rhs@).location()
    }
}

impl GridLocation {
    /// The neighbouring location in direction `d`, or `None` where the
    /// grid ends.
    pub fn step(self, d: Direction) -> (next: Option<GridLocation>)
        ensures
            next == if self@.step(d).on_grid() {
                Some(self@.step(d).location())
            } else {
                None
            },
    {
        let fits = match d {
            Direction::Left => self.0 > i32::MIN,
            Direction::Right => self.0 < i32::MAX,
            Direction::Up => self.1 < i32::MAX,
            Direction::Down => self.1 > i32::MIN,
        };
        if fits {
            Some(self + d.delta())
        } else {
            None
        }
    }
}

impl Pressed {
    /// The direction that the keys ask for: the first that is down, in the
    /// order left, right, down, up.
    pub open spec fn pending(self) -> Option<Direction> {
        if self.left {
            Some(Direction::Left)
        } else if self.right {
            Some(Direction::Right)
        } else if self.down {
            Some(Direction::Down)
        } else if self.up {
            Some(Direction::Up)
        } else {
            None
        }
    }

    /// No key down.
    pub fn none() -> (keys: Pressed)
        ensures
            keys == (Pressed { left: false, right: false, down: false, up: false }),
    {
        Pressed { left: false, right: false, down: false, up: false }
    }

    /// Exactly the key of direction `d` down.
    pub fn only(d: Direction) -> (keys: Pressed)
        ensures
            keys.left == (d == Direction::Left),
            keys.right == (d == Direction::Right),
            keys.down == (d == Direction::Down),
            keys.up == (d == Direction::Up),
    {
        match d {
            Direction::Left => Pressed { left: true, right: false, down: false, up: false },
            Direction::Right => Pressed { left: false, right: true, down: false, up: false },
            Direction::Down => Pressed { left: false, right: false, down: true, up: false },
            Direction::Up => Pressed { left: false, right: false, down: false, up: true },
        }
    }

    /// Picks the one direction to resolve in this tick.
    pub fn direction(&self) -> (d: Option<Direction>)
        ensures
            d == self.pending(),
    {
        if self.left {
            Some(Direction::Left)
        } else if self.right {
            Some(Direction::Right)
        } else if self.down {
            Some(Direction::Down)
        } else if self.up {
            Some(Direction::Up)
        } else {
            None
        }
    }
}

/// Steps add up: `k` steps and then one more are `k + 1` steps, and one
/// step is the unit delta.
pub proof fn lemma_shifted_steps(c: Cell, d: Direction, k: int)
    ensures
        c.shifted(d, 0) == c,
        c.shifted(d, 1) == c.step(d),
        c.shifted(d, k).step(d) == c.shifted(d, k + 1),
        c.shifted(d, k).along(d) == c.along(d) + k,
        c.shifted(d, k).across(d) == c.across(d),
{
}

} // verus!
