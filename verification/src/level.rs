//! A level in play: the entities and where they stand, moved by nothing but
//! the resolution of a pending direction.

use vstd::prelude::*;
use crate::entity::placements;
use crate::entity::Entity;
use crate::entity::Piece;
use crate::entity::Placed;
use crate::entity::Role;
use crate::error::LevelError;
use crate::goal::goals_covered;
use crate::grid::Direction;
use crate::grid::GridLocation;
use crate::grid::Pressed;
use crate::occupancy::first_clash;
use crate::occupancy::OccupancyIndex;
use crate::rules::carried;
use crate::rules::clash_free;
use crate::rules::complete;
use crate::rules::has_goal;
use crate::rules::lemma_pushed_lands_on_grid;
use crate::rules::lemma_run_unique;
use crate::rules::movable_cells;
use crate::rules::occupies;
use crate::rules::pushed;
use crate::rules::pushes;
use crate::rules::resolved;
use crate::rules::settled;
use crate::rules::wall_cells;
use crate::theorems::resolution_keeps_settled;

verus! {

/// The entities of a level and where they stand.
pub struct Level {
    entities: Vec<Piece>,
}

impl View for Level {
    type V = Seq<Placed>;

    closed spec fn view(&self) -> Seq<Placed> {
        placements(self.entities@)
    }
}

fn has_goal_among(pieces: &Vec<Piece>) -> (found: bool)
    ensures
        found == has_goal(placements(pieces@)),
{
    let mut i: usize = 0;
    while i < pieces.len()
        invariant
            i <= pieces.len(),
            forall|g: int| 0 <= g < i ==> !((#[trigger] placements(pieces@)[g]).role is Goal),
        decreases pieces.len() - i,
    {
        if pieces[i].role == Role::Goal {
            assert(placements(pieces@)[i as int].role is Goal);
            return true;
        }
        i += 1;
    }
    false
}

/// Player `p` pushes a chain that entity `e` belongs to.
spec fn pushed_via(s: Seq<Placed>, d: Direction, p: int, e: int) -> bool {
    exists|n: int, k: int| carried(s, d, p, n, k, e)
}

/// One of the first `bound` entities is a player whose chain moves `e`.
spec fn marked(s: Seq<Placed>, d: Direction, bound: int, e: int) -> bool {
    exists|p: int| 0 <= p < bound && #[trigger] pushed_via(s, d, p, e)
}

/// `e` is among the first `k` entries of `moving`.
spec fn listed(moving: Seq<Entity>, k: int, e: int) -> bool {
    exists|i: int| 0 <= i < k && #[trigger] moving[i] == Entity(e as usize)
}

proof fn lemma_marked_all(s: Seq<Placed>, d: Direction, e: int)
    ensures
        marked(s, d, s.len() as int, e) == pushed(s, d, e),
{
    if marked(s, d, s.len() as int, e) {
        let p = choose|p: int| 0 <= p < s.len() && #[trigger] pushed_via(s, d, p, e);
        let (n, k) = choose|n: int, k: int| carried(s, d, p, n, k, e);
        assert(carried(s, d, p, n, k, e));
    }
    if pushed(s, d, e) {
        let (p, n, k) = choose|p: int, n: int, k: int| carried(s, d, p, n, k, e);
        assert(pushed_via(s, d, p, e));
    }
}

proof fn lemma_marked_next(s: Seq<Placed>, d: Direction, p: int, e: int)
    requires
        0 <= p,
    ensures
        marked(s, d, p + 1, e) == (marked(s, d, p, e) || pushed_via(s, d, p, e)),
{
    if marked(s, d, p + 1, e) {
        let q = choose|q: int| 0 <= q < p + 1 && #[trigger] pushed_via(s, d, q, e);
        if q < p {
            assert(marked(s, d, p, e));
        }
    }
    if marked(s, d, p, e) {
        let q = choose|q: int| 0 <= q < p && #[trigger] pushed_via(s, d, q, e);
        assert(pushed_via(s, d, q, e));
    }
}

/// What the walk from a player found free to move is exactly what that
/// player pushes.
proof fn lemma_open_chain(
    index: &OccupancyIndex,
    s: Seq<Placed>,
    d: Direction,
    p: int,
    moving: Seq<Entity>,
)
    requires
        index.indexes(s),
        0 <= p < s.len(),
        s[p].role is Player,
        s.len() <= usize::MAX,
        index.open_run(s[p].cell, d, moving.len() as int),
        moving == index.train(s[p].cell, d, moving.len() as int),
    ensures
        forall|k: int| 0 <= k < moving.len() ==> (#[trigger] moving[k]).0 < s.len(),
        forall|e: int|
            0 <= e < s.len() ==> (listed(moving, moving.len() as int, e) <==> #[trigger] pushed_via(
                s,
                d,
                p,
                e,
            )),
{
    let c = s[p].cell;
    let n = moving.len() as int;
    assert(pushes(s, d, p, n)) by {
        assert(!wall_cells(s).contains(c.shifted(d, n)));
    }
    assert forall|k: int| 0 <= k < n implies (#[trigger] moving[k]).0 < s.len() && pushed_via(
        s,
        d,
        p,
        moving[k].0 as int,
    ) by {
        assert(movable_cells(s).contains(c.shifted(d, k)));
        let i = choose|i: int| #[trigger] occupies(s, i, c.shifted(d, k)) && s[i].role.movable();
        assert(moving[k] == Entity(i as usize));
        assert(carried(s, d, p, n, k, i));
    }
    assert forall|e: int| 0 <= e < s.len() implies (listed(moving, n, e) <==> #[trigger] pushed_via(
        s,
        d,
        p,
        e,
    )) by {
        if listed(moving, n, e) {
            let k = choose|k: int| 0 <= k < n && #[trigger] moving[k] == Entity(e as usize);
            assert(pushed_via(s, d, p, moving[k].0 as int));
        }
        if pushed_via(s, d, p, e) {
            let (m, k) = choose|m: int, k: int| carried(s, d, p, m, k, e);
            lemma_run_unique(movable_cells(s), c, d, m, n);
            assert(moving[k] == Entity(e as usize));
        }
    }
}

/// A player whose walk was blocked pushes nothing.
proof fn lemma_blocked_chain(index: &OccupancyIndex, s: Seq<Placed>, d: Direction, p: int)
    requires
        index.indexes(s),
        0 <= p < s.len(),
        exists|n: int| index.blocked_run(s[p].cell, d, n),
    ensures
        forall|e: int| !pushed_via(s, d, p, e),
{
    let c = s[p].cell;
    let n = choose|n: int| index.blocked_run(c, d, n);
    assert forall|e: int| !pushed_via(s, d, p, e) by {
        if pushed_via(s, d, p, e) {
            let (m, k) = choose|m: int, k: int| carried(s, d, p, m, k, e);
            lemma_run_unique(movable_cells(s), c, d, m, n);
            assert(wall_cells(s).contains(c.shifted(d, n)));
        }
    }
}

impl Level {
    /// The level is in a state in which it may rest between moves.
    pub open spec fn wf(&self) -> bool {
        settled(self@)
    }

    /// Makes a level of the given entities; the entity at position `i` is
    /// from now on known as `Entity(i)`. Fails where two of the players,
    /// boxes and walls share a cell, and, for a level without such a fault,
    /// where there is no goal.
    pub fn new(entities: Vec<Piece>) -> (made: Result<Level, LevelError>)
        ensures
            made is Ok <==> settled(placements(entities@)),
            match made {
                Ok(level) => level@ == placements(entities@) && level.wf(),
                Err(LevelError::Overlap { first, second }) => first_clash(
                    placements(entities@),
                    first.0 as int,
                    second.0 as int,
                ),
                Err(LevelError::NoGoal) => clash_free(placements(entities@)) && !has_goal(
                    placements(entities@),
                ),
            },
    {
        match OccupancyIndex::build(&entities) {
            Err(fault) => Err(fault),
            Ok(_) => {
                if has_goal_among(&entities) {
                    Ok(Level { entities })
                } else {
                    Err(LevelError::NoGoal)
                }
            },
        }
    }

    /// Resolves the pending direction, if there is one: every player
    /// pushes the chain of players and boxes that starts with itself, as
    /// all stood when the call began, and each chain that neither a wall
    /// nor the end of the grid blocks moves one step, all at once.
    pub fn resolve(&mut self, pending: Option<Direction>)
        requires
            old(self).wf(),
        ensures
            final(self)@ == resolved(old(self)@, pending),
            final(self).wf(),
    {
        let ghost s = self@;
        proof {
            resolution_keeps_settled(s, pending);
        }
        let d = match pending {
            None => {
                return ;
            },
            Some(d) => d,
        };
        let index = match OccupancyIndex::build(&self.entities) {
            Ok(index) => index,
            Err(_) => {
                // A settled level has no two entities to report.
                return ;
            },
        };
        let marks = self.mark_pushed(&index, d);
        let count = self.entities.len();
        let mut e: usize = 0;
        while e < count
            invariant
                e <= count,
                count == s.len(),
                self.entities@.len() == count,
                marks@.len() == count,
                settled(s),
                forall|i: int| 0 <= i < count ==> #[trigger] marks@[i] == pushed(s, d, i),
                forall|i: int|
                    0 <= i < e ==> (#[trigger] self.entities@[i])@ == resolved(s, Some(d))[i],
                forall|i: int| e <= i < count ==> (#[trigger] self.entities@[i])@ == s[i],
            decreases count - e,
        {
            if marks[e] {
                let piece = self.entities[e];
                proof {
                    lemma_pushed_lands_on_grid(s, d, e as int);
                }
                let moved = Piece { role: piece.role, location: piece.location + d.delta() };
                self.entities.set(e, moved);
            }
            e += 1;
        }
        proof {
            assert(self@ =~= resolved(s, Some(d)));
        }
    }

    /// For each entity, whether resolving `d` moves it.
    fn mark_pushed(&self, index: &OccupancyIndex, d: Direction) -> (marks: Vec<bool>)
        requires
            index.indexes(self@),
        ensures
            marks@.len() == self@.len(),
            forall|e: int| 0 <= e < self@.len() ==> #[trigger] marks@[e] == pushed(self@, d, e),
    {
        let ghost s = self@;
        let count = self.entities.len();
        let mut marks: Vec<bool> = Vec::new();
        while marks.len() < count
            invariant
                marks@.len() <= count,
                forall|e: int| 0 <= e < marks@.len() ==> !#[trigger] marks@[e],
            decreases count - marks@.len(),
        {
            marks.push(false);
        }
        let mut p: usize = 0;
        while p < count
            invariant
                p <= count,
                count == s.len(),
                s == self@,
                self.entities@.len() == count,
                marks@.len() == count,
                index.indexes(s),
                forall|e: int| 0 <= e < count ==> #[trigger] marks@[e] == marked(s, d, p as int, e),
            decreases count - p,
        {
            let piece = self.entities[p];
            let ghost reached = marks@;
            let chain = if piece.role == Role::Player {
                index.push_chain(piece.location, d)
            } else {
                None
            };
            match chain {
                Some(moving) => {
                    proof {
                        lemma_open_chain(index, s, d, p as int, moving@);
                    }
                    let mut k: usize = 0;
                    while k < moving.len()
                        invariant
                            k <= moving@.len(),
                            marks@.len() == count,
                            reached.len() == count,
                            forall|i: int|
                                0 <= i < moving@.len() ==> (#[trigger] moving@[i]).0 < count,
                            forall|e: int|
                                0 <= e < count ==> #[trigger] marks@[e] == (reached[e] || listed(
                                    moving@,
                                    k as int,
                                    e,
                                )),
                        decreases moving@.len() - k,
                    {
                        let ghost earlier = marks@;
                        let entity = moving[k];
                        marks.set(entity.0, true);
                        proof {
                            assert forall|e: int| 0 <= e < count implies #[trigger] marks@[e] == (
                            reached[e] || listed(moving@, k + 1, e)) by {
                                if listed(moving@, k + 1, e) {
                                    let i = choose|i: int|
                                        0 <= i < k + 1 && #[trigger] moving@[i] == Entity(
                                            e as usize,
                                        );
                                    if i < k {
                                        assert(listed(moving@, k as int, e));
                                    }
                                }
                                if listed(moving@, k as int, e) {
                                    let i = choose|i: int|
                                        0 <= i < k && #[trigger] moving@[i] == Entity(e as usize);
                                    assert(listed(moving@, k + 1, e));
                                }
                                if e == entity.0 {
                                    assert(moving@[k as int] == Entity(e as usize));
                                }
                            }
                        }
                        k += 1;
                    }
                },
                None => {
                    proof {
                        if piece.role == Role::Player {
                            lemma_blocked_chain(index, s, d, p as int);
                        } else {
                            assert forall|e: int| !pushed_via(s, d, p as int, e) by {
                                if pushed_via(s, d, p as int, e) {
                                    let (n, k) = choose|n: int, k: int|
                                        carried(s, d, p as int, n, k, e);
                                    assert(pushes(s, d, p as int, n));
                                }
                            }
                        }
                    }
                },
            }
            proof {
                assert forall|e: int| 0 <= e < count implies #[trigger] marks@[e] == marked(
                    s,
                    d,
                    p + 1,
                    e,
                ) by {
                    lemma_marked_next(s, d, p as int, e);
                }
            }
            p += 1;
        }
        proof {
            assert forall|e: int| 0 <= e < count implies #[trigger] marks@[e] == pushed(s, d, e) by {
                lemma_marked_all(s, d, e);
            }
        }
        marks
    }

    /// Whether every goal cell holds a box. Boxes that stand elsewhere do
    /// no harm.
    pub fn is_complete(&self) -> (done: bool)
        requires
            self.wf(),
        ensures
            done == complete(self@),
    {
        goals_covered(&self.entities)
    }

    /// One tick of the simulation: resolves the direction that the keys ask
    /// for, then evaluates the goals. Returns whether the level is complete.
    pub fn tick(&mut self, keys: Pressed) -> (done: bool)
        requires
            old(self).wf(),
        ensures
            final(self)@ == resolved(old(self)@, keys.pending()),
            final(self).wf(),
            done == complete(final(self)@),
    {
        self.resolve(keys.direction());
        self.is_complete()
    }

    /// The entities as they stand, `Entity(i)` at position `i`.
    pub fn pieces(&self) -> (pieces: &Vec<Piece>)
        ensures
            placements(pieces@) == self@,
    {
        &self.entities
    }

    /// The number of entities.
    pub fn len(&self) -> (n: usize)
        ensures
            n == self@.len(),
    {
        self.entities.len()
    }

    /// The role of `entity`, if the level has it.
    pub fn role(&self, entity: Entity) -> (role: Option<Role>)
        ensures
            role == if entity.0 < self@.len() {
                Some(self@[entity.0 as int].role)
            } else {
                None
            },
    {
        if entity.0 < self.entities.len() {
            Some(self.entities[entity.0].role)
        } else {
            None
        }
    }

    /// Where `entity` stands, if the level has it.
    pub fn location(&self, entity: Entity) -> (location: Option<GridLocation>)
        ensures
            match location {
                Some(l) => entity.0 < self@.len() && l@ == self@[entity.0 as int].cell,
                None => entity.0 >= self@.len(),
            },
    {
        if entity.0 < self.entities.len() {
            Some(self.entities[entity.0].location)
        } else {
            None
        }
    }
}

} // verus!
