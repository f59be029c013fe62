//! What can be wrong with the entities that a level is made from.

use vstd::prelude::*;
use crate::entity::Entity;

verus! {

/// A fault in a level's set-up. A level with such a fault cannot be played.
#[derive(Clone, Copy, PartialEq, Eq, Structural, Debug, Hash)]
pub enum LevelError {
    /// Two of the players, boxes and walls stand on one cell. `second` is the
    /// earliest entity that stands on a cell already taken, `first` the
    /// entity that took it.
    Overlap { first: Entity, second: Entity },
    /// The level has no goal, so it could never be told complete.
    NoGoal,
}

} // verus!
