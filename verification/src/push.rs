//! The walk along a chain: which entities a push from a cell would move,
//! and whether anything stops them.

use vstd::prelude::*;
use crate::entity::Entity;
use crate::grid::lemma_shifted_steps;
use crate::grid::Cell;
use crate::grid::Direction;
use crate::grid::GridLocation;
use crate::occupancy::OccupancyIndex;
use crate::rules::lemma_run_unique;
use crate::rules::run;

verus! {

impl OccupancyIndex {
    /// The run of `n` players and boxes that starts on `c` is free to move
    /// in direction `d`: the cell behind it lies on the grid and holds no
    /// wall.
    pub open spec fn open_run(&self, c: Cell, d: Direction, n: int) -> bool {
        &&& run(self.movables().dom(), c, d, n)
        &&& c.shifted(d, n).on_grid()
        &&& !self.immovables().contains_key(c.shifted(d, n))
    }

    /// The run of `n` players and boxes that starts on `c` cannot move in
    /// direction `d`: behind it the grid ends, or stands a wall.
    pub open spec fn blocked_run(&self, c: Cell, d: Direction, n: int) -> bool {
        &&& run(self.movables().dom(), c, d, n)
        &&& !c.shifted(d, n).on_grid() || self.immovables().contains_key(c.shifted(d, n))
    }

    /// The entities on the first `n` cells from `c` on in direction `d`,
    /// nearest first.
    pub open spec fn train(&self, c: Cell, d: Direction, n: int) -> Seq<Entity> {
        Seq::new(n as nat, |k: int| self.movables()[c.shifted(d, k)])
    }

    /// A run is either open or blocked, never both, whatever its length is
    /// taken to be.
    pub proof fn lemma_blocked_is_not_open(&self, c: Cell, d: Direction, n: int)
        requires
            self.blocked_run(c, d, n),
        ensures
            forall|m: int| !self.open_run(c, d, m),
    {
        assert forall|m: int| !self.open_run(c, d, m) by {
            if self.open_run(c, d, m) {
                lemma_run_unique(self.movables().dom(), c, d, n, m);
            }
        }
    }

    /// Walks from `start` in direction `d` over the cells that hold a player
    /// or a box, as far as they go without a gap. Returns these entities,
    /// nearest first, if the cell behind the last is free for it to move to;
    /// `None` if a wall or the end of the grid blocks the chain.
    pub fn push_chain(&self, start: GridLocation, d: Direction) -> (chain: Option<Vec<Entity>>)
        ensures
            chain is Some <==> exists|n: int| self.open_run(start@, d, n),
            match chain {
                Some(moving) => {
                    &&& self.open_run(start@, d, moving@.len() as int)
                    &&& moving@ == self.train(start@, d, moving@.len() as int)
                },
                None => exists|n: int| self.blocked_run(start@, d, n),
            },
    {
        let mut moving: Vec<Entity> = Vec::new();
        let mut current = start;
        let mut found = self.movable_at(current);
        proof {
            lemma_shifted_steps(start@, d, 0);
            self.lemma_listed_on_grid();
        }
        while found.is_some()
            invariant
                current@ == start@.shifted(d, moving@.len() as int),
                found == if self.movables().contains_key(current@) {
                    Some(self.movables()[current@])
                } else {
                    None
                },
                forall|j: int|
                    0 <= j < moving@.len() ==> self.movables().dom().contains(
                        #[trigger] start@.shifted(d, j),
                    ),
                moving@ == self.train(start@, d, moving@.len() as int),
                forall|c: Cell| self.movables().contains_key(c) ==> c.on_grid(),
            decreases 0x1_0000_0000 - current@.along(d),
        {
            let ghost n = moving@.len() as int;
            moving.push(found.unwrap());
            proof {
                lemma_shifted_steps(start@, d, n);
                assert(moving@ =~= self.train(start@, d, n + 1));
            }
            match current.step(d) {
                None => {
                    proof {
                        assert(self.blocked_run(start@, d, n + 1));
                        self.lemma_blocked_is_not_open(start@, d, n + 1);
                    }
                    return None;
                },
                Some(next) => {
                    current = next;
                    found = self.movable_at(current);
                },
            }
        }
        if self.immovable_at(current).is_some() {
            proof {
                assert(self.blocked_run(start@, d, moving@.len() as int));
                self.lemma_blocked_is_not_open(start@, d, moving@.len() as int);
            }
            None
        } else {
            proof {
                assert(self.open_run(start@, d, moving@.len() as int));
            }
            Some(moving)
        }
    }
}

} // verus!
