//! The rules of the puzzle, stated over the mathematical model of a level:
//! a sequence of placed entities, each known by its index.

use vstd::prelude::*;
use crate::entity::Placed;
use crate::grid::lemma_shifted_steps;
use crate::grid::Cell;
use crate::grid::Direction;

verus! {

/// Entity `i` exists and stands on cell `c`.
pub open spec fn occupies(s: Seq<Placed>, i: int, c: Cell) -> bool {
    0 <= i < s.len() && s[i].cell == c
}

/// Some player or box stands on `c`.
pub open spec fn movable_at(s: Seq<Placed>, c: Cell) -> bool {
    exists|i: int| #[trigger] occupies(s, i, c) && s[i].role.movable()
}

/// Some wall stands on `c`.
pub open spec fn wall_at(s: Seq<Placed>, c: Cell) -> bool {
    exists|i: int| #[trigger] occupies(s, i, c) && s[i].role is Wall
}

/// Some box stands on `c`.
pub open spec fn box_at(s: Seq<Placed>, c: Cell) -> bool {
    exists|i: int| #[trigger] occupies(s, i, c) && s[i].role is Box
}

/// Some goal lies on `c`.
pub open spec fn goal_at(s: Seq<Placed>, c: Cell) -> bool {
    exists|i: int| #[trigger] occupies(s, i, c) && s[i].role is Goal
}

/// The cells that hold a player or a box.
pub open spec fn movable_cells(s: Seq<Placed>) -> Set<Cell> {
    Set::new(|c: Cell| movable_at(s, c))
}

/// The cells that hold a wall.
pub open spec fn wall_cells(s: Seq<Placed>) -> Set<Cell> {
    Set::new(|c: Cell| wall_at(s, c))
}

/// The cells that hold a box.
pub open spec fn box_cells(s: Seq<Placed>) -> Set<Cell> {
    Set::new(|c: Cell| box_at(s, c))
}

/// The cells that are goals.
pub open spec fn goal_cells(s: Seq<Placed>) -> Set<Cell> {
    Set::new(|c: Cell| goal_at(s, c))
}

/// Entities `i` and `j`, `i` the earlier, both take up the same cell.
pub open spec fn clash(s: Seq<Placed>, i: int, j: int) -> bool {
    &&& 0 <= i < j < s.len()
    &&& s[i].role.collidable()
    &&& s[j].role.collidable()
    &&& s[i].cell == s[j].cell
}

/// No two of players, boxes and walls share a cell.
pub open spec fn clash_free(s: Seq<Placed>) -> bool {
    forall|i: int, j: int| !#[trigger] clash(s, i, j)
}

/// The level has a goal.
pub open spec fn has_goal(s: Seq<Placed>) -> bool {
    exists|g: int| 0 <= g < s.len() && (#[trigger] s[g]).role is Goal
}

/// Every entity stands on the grid.
pub open spec fn all_on_grid(s: Seq<Placed>) -> bool {
    forall|i: int| 0 <= i < s.len() ==> (#[trigger] s[i]).cell.on_grid()
}

/// A state in which a level may rest between moves: every entity stands on
/// the grid, no two of players, boxes and walls share a cell, and there is
/// a goal.
pub open spec fn settled(s: Seq<Placed>) -> bool {
    &&& all_on_grid(s)
    &&& clash_free(s)
    &&& has_goal(s)
}

/// From `c` on in direction `d`, exactly the first `n` cells are occupied:
/// `c`, its neighbour, and so on; the cell `n` steps away is not.
pub open spec fn run(occupied: Set<Cell>, c: Cell, d: Direction, n: int) -> bool {
    &&& 0 <= n
    &&& forall|j: int| 0 <= j < n ==> occupied.contains(#[trigger] c.shifted(d, j))
    &&& !occupied.contains(c.shifted(d, n))
}

/// Player `p` stands at the head of a chain of `n` movable entities, itself
/// counted, that is free to move in direction `d`: the cell behind the
/// chain's last entity lies on the grid and holds no wall.
pub open spec fn pushes(s: Seq<Placed>, d: Direction, p: int, n: int) -> bool {
    &&& 0 <= p < s.len()
    &&& s[p].role is Player
    &&& run(movable_cells(s), s[p].cell, d, n)
    &&& s[p].cell.shifted(d, n).on_grid()
    &&& !wall_at(s, s[p].cell.shifted(d, n))
}

/// Entity `e` is the movable entity `k` steps along the chain of `n` that
/// player `p` pushes in direction `d`.
pub open spec fn carried(s: Seq<Placed>, d: Direction, p: int, n: int, k: int, e: int) -> bool {
    &&& pushes(s, d, p, n)
    &&& 0 <= k < n
    &&& occupies(s, e, s[p].cell.shifted(d, k))
    &&& s[e].role.movable()
}

/// Entity `e` moves when direction `d` is resolved: it belongs to a chain
/// that some player pushes.
pub open spec fn pushed(s: Seq<Placed>, d: Direction, e: int) -> bool {
    exists|p: int, n: int, k: int| carried(s, d, p, n, k, e)
}

/// The level after one resolution. With no direction pending nothing
/// changes. Otherwise every pushed entity stands one step further in the
/// pending direction and every other entity stands where it stood; each
/// entity moves at most one step, however many chains it belongs to.
pub open spec fn resolved(s: Seq<Placed>, pending: Option<Direction>) -> Seq<Placed> {
    match pending {
        None => s,
        Some(d) => Seq::new(
            s.len(),
            |e: int|
                if pushed(s, d, e) {
                    Placed { role: s[e].role, cell: s[e].cell.step(d) }
                } else {
                    s[e]
                },
        ),
    }
}

/// Every goal cell holds a box.
pub open spec fn complete(s: Seq<Placed>) -> bool {
    goal_cells(s).subset_of(box_cells(s))
}

/// A run has one length only.
pub proof fn lemma_run_unique(occupied: Set<Cell>, c: Cell, d: Direction, n: int, m: int)
    requires
        run(occupied, c, d, n),
        run(occupied, c, d, m),
    ensures
        n == m,
{
}

/// One step on from a pushed entity stands nothing but the next entity of
/// the same chain: whatever takes up that cell is pushed along.
pub proof fn lemma_next_is_carried(
    s: Seq<Placed>,
    d: Direction,
    p: int,
    n: int,
    k: int,
    e: int,
    j: int,
)
    requires
        clash_free(s),
        carried(s, d, p, n, k, e),
        0 <= j < s.len(),
        s[j].role.collidable(),
        s[j].cell == s[e].cell.step(d),
    ensures
        carried(s, d, p, n, k + 1, j),
{
    let c = s[p].cell;
    lemma_shifted_steps(c, d, k);
    assert(occupies(s, j, c.shifted(d, k + 1)));
    if k + 1 < n {
        assert(movable_cells(s).contains(c.shifted(d, k + 1)));
        let m = choose|m: int| #[trigger] occupies(s, m, c.shifted(d, k + 1)) && s[m].role.movable();
        if !s[j].role.movable() {
            assert(clash(s, m, j) || clash(s, j, m));
        }
    } else {
        assert(!movable_cells(s).contains(c.shifted(d, n)));
        assert(!movable_at(s, c.shifted(d, n)));
        assert(!wall_at(s, c.shifted(d, n)));
    }
}

/// A pushed entity has room on the grid for its step.
pub proof fn lemma_pushed_lands_on_grid(s: Seq<Placed>, d: Direction, e: int)
    requires
        all_on_grid(s),
        pushed(s, d, e),
    ensures
        s[e].cell.step(d).on_grid(),
{
    let (p, n, k) = choose|p: int, n: int, k: int| carried(s, d, p, n, k, e);
    let c = s[p].cell;
    lemma_shifted_steps(c, d, k);
    if k + 1 < n {
        assert(movable_cells(s).contains(c.shifted(d, k + 1)));
        let m = choose|m: int| #[trigger] occupies(s, m, c.shifted(d, k + 1)) && s[m].role.movable();
        assert(s[m].cell.on_grid());
    }
}

} // verus!
