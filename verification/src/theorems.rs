//! What always holds of a resolution and of the goal test, proved from the
//! rules.

use vstd::prelude::*;
use crate::entity::Placed;
use crate::entity::Role;
use crate::grid::lemma_shifted_steps;
use crate::grid::Cell;
use crate::grid::Direction;
use crate::rules::box_at;
use crate::rules::box_cells;
use crate::rules::carried;
use crate::rules::clash;
use crate::rules::clash_free;
use crate::rules::complete;
use crate::rules::goal_cells;
use crate::rules::lemma_next_is_carried;
use crate::rules::lemma_pushed_lands_on_grid;
use crate::rules::lemma_run_unique;
use crate::rules::movable_at;
use crate::rules::movable_cells;
use crate::rules::occupies;
use crate::rules::pushed;
use crate::rules::pushes;
use crate::rules::resolved;
use crate::rules::run;
use crate::rules::settled;
use crate::rules::wall_at;

verus! {

/// Entity `p` is the level's only player.
pub open spec fn sole_player(s: Seq<Placed>, p: int) -> bool {
    &&& 0 <= p < s.len()
    &&& s[p].role is Player
    &&& forall|q: int| 0 <= q < s.len() && (#[trigger] s[q]).role is Player ==> q == p
}

/// Two runs in one direction that share a cell end before the same cell.
pub proof fn lemma_runs_meet(
    occupied: Set<Cell>,
    d: Direction,
    a: Cell,
    n: int,
    i: int,
    b: Cell,
    m: int,
    j: int,
)
    requires
        run(occupied, a, d, n),
        run(occupied, b, d, m),
        0 <= i < n,
        0 <= j < m,
        a.shifted(d, i) == b.shifted(d, j),
    ensures
        a.shifted(d, n) == b.shifted(d, m),
{
    // Counted from `a`, the second run covers the steps from `i - j` on.
    let end = m + i - j;
    assert(b.shifted(d, m) == a.shifted(d, end));
    if end < n {
        assert(occupied.contains(a.shifted(d, end)));
    } else if n < end {
        assert(a.shifted(d, n) == b.shifted(d, n - i + j));
        assert(occupied.contains(b.shifted(d, n - i + j)));
    }
}

/// Every walk ends: the occupied cells all lie on the grid, the grid is
/// finite and each step leads further along it, so from every cell a run
/// of some length starts.
pub proof fn every_walk_ends(occupied: Set<Cell>, c: Cell, d: Direction)
    requires
        forall|o: Cell| occupied.contains(o) ==> o.on_grid(),
    ensures
        exists|n: int| run(occupied, c, d, n),
{
    lemma_walk_from(occupied, c, d, 0);
}

proof fn lemma_walk_from(occupied: Set<Cell>, c: Cell, d: Direction, k: int)
    requires
        forall|o: Cell| occupied.contains(o) ==> o.on_grid(),
        0 <= k,
        forall|j: int| 0 <= j < k ==> occupied.contains(#[trigger] c.shifted(d, j)),
    ensures
        exists|n: int| run(occupied, c, d, n),
    decreases 0x1_0000_0000 - c.shifted(d, k).along(d),
{
    if occupied.contains(c.shifted(d, k)) {
        assert(c.shifted(d, k).on_grid());
        lemma_walk_from(occupied, c, d, k + 1);
    } else {
        assert(run(occupied, c, d, k));
    }
}

/// A settled level is still settled after any resolution: every entity
/// stands on the grid, no two of players, boxes and walls share a cell,
/// and the goals are where they were. Roles never change, walls and goals
/// never move, and no entity moves by more than one step in the pending
/// direction.
pub proof fn resolution_keeps_settled(s: Seq<Placed>, pending: Option<Direction>)
    requires
        settled(s),
    ensures
        settled(resolved(s, pending)),
        resolved(s, pending).len() == s.len(),
        forall|e: int| 0 <= e < s.len() ==> (#[trigger] resolved(s, pending)[e]).role == s[e].role,
        forall|e: int|
            0 <= e < s.len() && !s[e].role.movable() ==> #[trigger] resolved(s, pending)[e] == s[e],
        forall|e: int|
            0 <= e < s.len() ==> (#[trigger] resolved(s, pending)[e]).cell == s[e].cell || (
            pending matches Some(d) && resolved(s, pending)[e].cell == s[e].cell.step(d)),
{
    if let Some(d) = pending {
        let after = resolved(s, pending);
        assert forall|i: int| 0 <= i < after.len() implies (#[trigger] after[i]).cell.on_grid() by {
            if pushed(s, d, i) {
                lemma_pushed_lands_on_grid(s, d, i);
            }
        }
        assert forall|i: int, j: int| !#[trigger] clash(after, i, j) by {
            if clash(after, i, j) {
                if pushed(s, d, i) && pushed(s, d, j) {
                    assert(clash(s, i, j));
                } else if pushed(s, d, i) {
                    let (p, n, k) = choose|p: int, n: int, k: int| carried(s, d, p, n, k, i);
                    lemma_next_is_carried(s, d, p, n, k, i, j);
                } else if pushed(s, d, j) {
                    let (p, n, k) = choose|p: int, n: int, k: int| carried(s, d, p, n, k, j);
                    lemma_next_is_carried(s, d, p, n, k, j, i);
                } else {
                    assert(clash(s, i, j));
                }
            }
        }
        let g = choose|g: int| 0 <= g < s.len() && (#[trigger] s[g]).role is Goal;
        assert(after[g].role is Goal);
    }
}

/// With no direction pending, resolution changes nothing: every entity
/// stands where it stood, and the goal test gives what it gave.
pub proof fn idle_changes_nothing(s: Seq<Placed>)
    ensures
        resolved(s, None) == s,
        complete(resolved(s, None)) == complete(s),
{
}

/// A chain that is blocked stays where it is. Let player `p` stand at the
/// head of `n` players and boxes in a row, itself counted, and let a wall
/// stand behind the last of them, or the grid end there. Then resolving
/// direction `d` moves no entity on the chain's cells, whatever other
/// players push; and where `p` is the only player, it moves nothing at all.
pub proof fn blocked_chain_stays(s: Seq<Placed>, d: Direction, p: int, n: int)
    requires
        settled(s),
        0 <= p < s.len(),
        s[p].role is Player,
        run(movable_cells(s), s[p].cell, d, n),
        wall_at(s, s[p].cell.shifted(d, n)) || !s[p].cell.shifted(d, n).on_grid(),
    ensures
        forall|e: int, k: int|
            0 <= k < n && #[trigger] occupies(s, e, s[p].cell.shifted(d, k)) ==> resolved(
                s,
                Some(d),
            )[e] == s[e],
        sole_player(s, p) ==> resolved(s, Some(d)) == s,
{
    let c = s[p].cell;
    let after = resolved(s, Some(d));
    assert forall|e: int, k: int| 0 <= k < n && #[trigger] occupies(s, e, c.shifted(d, k))
        implies !pushed(s, d, e) by {
        if pushed(s, d, e) {
            let (q, m, j) = choose|q: int, m: int, j: int| carried(s, d, q, m, j, e);
            lemma_runs_meet(movable_cells(s), d, c, n, k, s[q].cell, m, j);
        }
    }
    if sole_player(s, p) {
        assert forall|e: int| 0 <= e < s.len() implies !pushed(s, d, e) by {
            if pushed(s, d, e) {
                let (q, m, j) = choose|q: int, m: int, j: int| carried(s, d, q, m, j, e);
                assert(s[q].role is Player);
                lemma_run_unique(movable_cells(s), c, d, m, n);
            }
        }
        assert(after =~= s);
    }
}

/// A player with a free cell before it takes that cell. Let the cell next
/// to player `p` in direction `d` lie on the grid and hold neither a
/// player, a box nor a wall. Then resolving `d` moves `p` by exactly the
/// unit delta of `d`; and where `p` is the only player, nothing else moves.
pub proof fn free_step_moves_player(s: Seq<Placed>, d: Direction, p: int)
    requires
        settled(s),
        0 <= p < s.len(),
        s[p].role is Player,
        s[p].cell.step(d).on_grid(),
        !movable_at(s, s[p].cell.step(d)),
        !wall_at(s, s[p].cell.step(d)),
    ensures
        resolved(s, Some(d))[p] == (Placed { role: Role::Player, cell: s[p].cell.plus(d.unit()) }),
        sole_player(s, p) ==> resolved(s, Some(d)) == s.update(
            p,
            Placed { role: Role::Player, cell: s[p].cell.plus(d.unit()) },
        ),
{
    let c = s[p].cell;
    let after = resolved(s, Some(d));
    lemma_shifted_steps(c, d, 0);
    assert(run(movable_cells(s), c, d, 1)) by {
        assert(occupies(s, p, c));
        assert forall|j: int| 0 <= j < 1 implies movable_cells(s).contains(
            #[trigger] c.shifted(d, j),
        ) by {
            assert(c.shifted(d, j) == c);
        }
    }
    assert(carried(s, d, p, 1, 0, p));
    if sole_player(s, p) {
        assert forall|e: int| 0 <= e < s.len() && e != p implies !pushed(s, d, e) by {
            if pushed(s, d, e) {
                let (q, m, j) = choose|q: int, m: int, j: int| carried(s, d, q, m, j, e);
                assert(s[q].role is Player);
                lemma_run_unique(movable_cells(s), c, d, m, 1);
                assert(clash(s, e, p) || clash(s, p, e));
            }
        }
        assert(after =~= s.update(p, Placed { role: Role::Player, cell: c.plus(d.unit()) }));
    }
}

/// A chain with room moves as one. Let player `p` push a chain of `n`
/// players and boxes, itself counted, in direction `d`. Then after the
/// resolution each of them stands exactly one unit delta of `d` further,
/// so that they stand in the same order and as close together as before.
pub proof fn open_chain_shifts(s: Seq<Placed>, d: Direction, p: int, n: int)
    requires
        settled(s),
        pushes(s, d, p, n),
    ensures
        forall|e: int, k: int|
            0 <= k < n && #[trigger] occupies(s, e, s[p].cell.shifted(d, k))
                && s[e].role.movable() ==> resolved(s, Some(d))[e] == (Placed {
                role: s[e].role,
                cell: s[p].cell.shifted(d, k + 1),
            }),
        forall|e: int, k: int|
            0 <= k < n && #[trigger] occupies(s, e, s[p].cell.shifted(d, k))
                && s[e].role.movable() ==> resolved(s, Some(d))[e].cell == s[e].cell.plus(
                d.unit(),
            ),
{
    let c = s[p].cell;
    assert forall|e: int, k: int|
        0 <= k < n && #[trigger] occupies(s, e, c.shifted(d, k)) && s[e].role.movable() implies {
        &&& resolved(s, Some(d))[e] == (Placed { role: s[e].role, cell: c.shifted(d, k + 1) })
        &&& resolved(s, Some(d))[e].cell == s[e].cell.plus(d.unit())
    } by {
        assert(carried(s, d, p, n, k, e));
        lemma_shifted_steps(c, d, k);
    }
}

/// No resolution changes the order in which players, boxes and walls stand
/// along the axis of the push: of two of them on one line in direction `d`,
/// the one that stood further along still stands further along.
pub proof fn order_along_axis_kept(s: Seq<Placed>, d: Direction, a: int, b: int)
    requires
        settled(s),
        0 <= a < s.len(),
        0 <= b < s.len(),
        s[a].role.collidable(),
        s[b].role.collidable(),
        s[a].cell.across(d) == s[b].cell.across(d),
        s[a].cell.along(d) < s[b].cell.along(d),
    ensures
        resolved(s, Some(d))[a].cell.across(d) == resolved(s, Some(d))[b].cell.across(d),
        resolved(s, Some(d))[a].cell.along(d) < resolved(s, Some(d))[b].cell.along(d),
{
    let after = resolved(s, Some(d));
    resolution_keeps_settled(s, Some(d));
    lemma_shifted_steps(s[a].cell, d, 1);
    lemma_shifted_steps(s[b].cell, d, 1);
    if after[a].cell.along(d) >= after[b].cell.along(d) {
        assert(after[a].cell == after[b].cell);
        assert(clash(after, a, b) || clash(after, b, a));
    }
}

/// The level is complete exactly if every goal's cell is the cell of some
/// box.
pub proof fn complete_iff_goals_covered(s: Seq<Placed>)
    ensures
        complete(s) <==> forall|g: int|
            0 <= g < s.len() && (#[trigger] s[g]).role is Goal ==> box_at(s, s[g].cell),
{
    if complete(s) {
        assert forall|g: int| 0 <= g < s.len() && (#[trigger] s[g]).role is Goal implies box_at(
            s,
            s[g].cell,
        ) by {
            assert(occupies(s, g, s[g].cell));
            assert(goal_cells(s).contains(s[g].cell));
            assert(box_cells(s).contains(s[g].cell));
        }
    }
    if forall|g: int| 0 <= g < s.len() && (#[trigger] s[g]).role is Goal ==> box_at(s, s[g].cell) {
        assert forall|c: Cell| goal_cells(s).contains(c) implies box_cells(s).contains(c) by {
            let g = choose|g: int| #[trigger] occupies(s, g, c) && s[g].role is Goal;
            assert(box_at(s, s[g].cell));
        }
    }
}

/// One more box, wherever it stands, never undoes completion.
pub proof fn extra_box_keeps_complete(s: Seq<Placed>, c: Cell)
    requires
        complete(s),
    ensures
        complete(s.push(Placed { role: Role::Box, cell: c })),
{
    let more = s.push(Placed { role: Role::Box, cell: c });
    assert forall|o: Cell| goal_cells(more).contains(o) implies box_cells(more).contains(o) by {
        let g = choose|g: int| #[trigger] occupies(more, g, o) && more[g].role is Goal;
        assert(occupies(s, g, o));
        assert(goal_cells(s).contains(o));
        assert(box_cells(s).contains(o));
        let b = choose|b: int| #[trigger] occupies(s, b, o) && s[b].role is Box;
        assert(occupies(more, b, o));
    }
}

/// Taking away the box that covers a goal undoes completion: in a level
/// where no two boxes share a cell, without box `b` the goal `g` under it
/// is bare.
pub proof fn uncovering_revokes_complete(s: Seq<Placed>, b: int, g: int)
    requires
        clash_free(s),
        0 <= b < s.len(),
        0 <= g < s.len(),
        s[b].role is Box,
        s[g].role is Goal,
        s[b].cell == s[g].cell,
    ensures
        !complete(s.remove(b)),
{
    let fewer = s.remove(b);
    let c = s[g].cell;
    let at = if g < b {
        g
    } else {
        g - 1
    };
    assert(occupies(fewer, at, c));
    assert(goal_cells(fewer).contains(c));
    if box_at(fewer, c) {
        let i = choose|i: int| #[trigger] occupies(fewer, i, c) && fewer[i].role is Box;
        let was = if i < b {
            i
        } else {
            i + 1
        };
        assert(clash(s, was, b) || clash(s, b, was));
    }
    assert(!box_cells(fewer).contains(c));
}

} // verus!
