//! The goal evaluator: is every goal cell covered by a box?

use std::collections::HashSet;
use vstd::prelude::*;
use crate::entity::placements;
use crate::entity::Piece;
use crate::entity::Placed;
use crate::entity::Role;
use crate::grid::Cell;
use crate::occupancy::cell_key;
use crate::occupancy::key_of;
use crate::occupancy::lemma_cell_key_injective;
use crate::rules::box_at;
use crate::rules::box_cells;
use crate::rules::complete;
use crate::rules::goal_cells;
use crate::rules::occupies;

verus! {

/// The cells of the grid whose keys are in `keys`.
spec fn keyed_cells(keys: Set<u64>) -> Set<Cell> {
    Set::new(|c: Cell| c.on_grid() && keys.contains(cell_key(c) as u64))
}

proof fn lemma_keyed_insert(keys: Set<u64>, c: Cell)
    requires
        c.on_grid(),
    ensures
        keyed_cells(keys.insert(cell_key(c) as u64)) == keyed_cells(keys).insert(c),
{
    assert forall|o: Cell|
        keyed_cells(keys.insert(cell_key(c) as u64)).contains(o) <==> keyed_cells(keys).insert(
            c,
        ).contains(o) by {
        if o.on_grid() && o != c && cell_key(o) == cell_key(c) {
            lemma_cell_key_injective(o, c);
        }
    }
    assert(keyed_cells(keys.insert(cell_key(c) as u64)) =~= keyed_cells(keys).insert(c));
}

/// One more entity adds its cell to the box cells if it is a box.
proof fn lemma_boxes_grow(s: Seq<Placed>, j: int)
    requires
        0 <= j < s.len(),
    ensures
        box_cells(s.subrange(0, j + 1)) == if s[j].role is Box {
            box_cells(s.subrange(0, j)).insert(s[j].cell)
        } else {
            box_cells(s.subrange(0, j))
        },
{
    let before = s.subrange(0, j);
    let after = s.subrange(0, j + 1);
    assert forall|c: Cell| box_at(after, c) <==> box_at(before, c) || (s[j].role is Box && c
        == s[j].cell) by {
        if box_at(after, c) {
            let i = choose|i: int| #[trigger] occupies(after, i, c) && after[i].role is Box;
            if i < j {
                assert(occupies(before, i, c));
            }
        }
        if box_at(before, c) {
            let i = choose|i: int| #[trigger] occupies(before, i, c) && before[i].role is Box;
            assert(occupies(after, i, c));
        }
        if s[j].role is Box && c == s[j].cell {
            assert(occupies(after, j, c));
        }
    }
    if s[j].role is Box {
        assert(box_cells(after) =~= box_cells(before).insert(s[j].cell));
    } else {
        assert(box_cells(after) =~= box_cells(before));
    }
}

/// Collects the cells that hold a box and tests that every goal is among
/// them. Boxes that stand elsewhere do no harm.
pub(crate) fn goals_covered(pieces: &Vec<Piece>) -> (covered: bool)
    ensures
        covered == complete(placements(pieces@)),
{
    let ghost s = placements(pieces@);
    let mut boxes: HashSet<u64> = HashSet::new();
    let mut i: usize = 0;
    proof {
        assert(keyed_cells(boxes@) =~= box_cells(s.subrange(0, 0)));
    }
    while i < pieces.len()
        invariant
            i <= pieces.len(),
            s == placements(pieces@),
            keyed_cells(boxes@) == box_cells(s.subrange(0, i as int)),
        decreases pieces.len() - i,
    {
        let piece = pieces[i];
        proof {
            lemma_boxes_grow(s, i as int);
            assert(s[i as int] == piece@);
        }
        if piece.role == Role::Box {
            let ghost keys = boxes@;
            boxes.insert(key_of(piece.location));
            proof {
                lemma_keyed_insert(keys, piece.location@);
            }
        }
        i += 1;
    }
    proof {
        assert(s.subrange(0, i as int) =~= s);
    }
    let mut g: usize = 0;
    while g < pieces.len()
        invariant
            g <= pieces.len(),
            s == placements(pieces@),
            keyed_cells(boxes@) == box_cells(s),
            forall|i: int|
                0 <= i < g && (#[trigger] s[i]).role is Goal ==> box_cells(s).contains(s[i].cell),
        decreases pieces.len() - g,
    {
        let piece = pieces[g];
        proof {
            assert(s[g as int] == piece@);
        }
        if piece.role == Role::Goal && !boxes.contains(&key_of(piece.location)) {
            proof {
                assert(!keyed_cells(boxes@).contains(piece.location@));
                assert(occupies(s, g as int, piece.location@));
                assert(goal_cells(s).contains(piece.location@));
            }
            return false;
        }
        g += 1;
    }
    proof {
        assert forall|c: Cell| goal_cells(s).contains(c) implies box_cells(s).contains(c) by {
            let i = choose|i: int| #[trigger] occupies(s, i, c) && s[i].role is Goal;
            assert(box_cells(s).contains(s[i].cell));
        }
    }
    true
}

} // verus!
