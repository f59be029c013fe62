//! Entities: what stands on the grid, and in which role.

use vstd::prelude::*;
use crate::grid::Cell;
use crate::grid::GridLocation;

verus! {

/// The role that an entity plays for the whole of a level.
#[derive(Clone, Copy, PartialEq, Eq, Structural, Debug, Hash)]
pub enum Role {
    /// Moves on a key press and pushes what stands before it.
    Player,
    /// Is pushed; covers goals.
    Box,
    /// Never moves and stops every chain that ends on it.
    Wall,
    /// A target cell. It is no obstacle and may share its cell.
    Goal,
}

/// The stable identifier of an entity: its position in the list that the
/// level was made from.
#[derive(Clone, Copy, PartialEq, Eq, Structural, Debug, Hash)]
pub struct Entity(pub usize);

/// An entity's role and where it stands.
#[derive(Clone, Copy, PartialEq, Eq, Structural, Debug, Hash)]
pub struct Piece {
    pub role: Role,
    pub location: GridLocation,
}

/// The mathematical model of a [`Piece`]: a role on a cell of the plane.
pub struct Placed {
    pub role: Role,
    pub cell: Cell,
}

impl Role {
    /// Players and boxes can be pushed.
    pub open spec fn movable(self) -> bool {
        self is Player || self is Box
    }

    /// Players, boxes and walls take up their cell; goals do not.
    pub open spec fn collidable(self) -> bool {
        !(self is Goal)
    }

    /// Whether an entity of this role can be pushed.
    pub fn is_movable(self) -> (m: bool)
        ensures
            m == self.movable(),
    {
        match self {
            Role::Player | Role::Box => true,
            Role::Wall | Role::Goal => false,
        }
    }

    /// Whether an entity of this role takes up its cell.
    pub fn is_collidable(self) -> (c: bool)
        ensures
            c == self.collidable(),
    {
        match self {
            Role::Goal => false,
            Role::Player | Role::Box | Role::Wall => true,
        }
    }
}

impl View for Piece {
    type V = Placed;

    open spec fn view(&self) -> Placed {
        Placed { role: self.role, cell: self.location@ }
    }
}

impl Piece {
    /// An entity of the given role at the given location.
    pub fn new(role: Role, location: GridLocation) -> (piece: Piece)
        ensures
            piece == (Piece { role, location }),
    {
        Piece { role, location }
    }
}

/// The models of a list of pieces, in the same order.
pub open spec fn placements(pieces: Seq<Piece>) -> Seq<Placed> {
    Seq::new(pieces.len(), |i: int| pieces[i]@)
}

} // verus!
