//! The occupancy index: for one resolution, who stands where.

use std::collections::HashMap;
use vstd::prelude::*;
use crate::entity::placements;
use crate::entity::Entity;
use crate::entity::Piece;
use crate::entity::Placed;
use crate::error::LevelError;
use crate::grid::Cell;
use crate::grid::GridLocation;
use crate::rules::clash;
use crate::rules::clash_free;
use crate::rules::movable_at;
use crate::rules::movable_cells;
use crate::rules::occupies;
use crate::rules::wall_at;
use crate::rules::wall_cells;

verus! {

/// The number under which the index files a cell: the two coordinates,
/// each counted from the grid's lowest, side by side.
pub open spec fn cell_key(c: Cell) -> int {
    (c.x + 0x8000_0000) * 0x1_0000_0000 + (c.y + 0x8000_0000)
}

/// Different cells of the grid have different keys.
pub proof fn lemma_cell_key_injective(a: Cell, b: Cell)
    requires
        a.on_grid(),
        b.on_grid(),
        cell_key(a) == cell_key(b),
    ensures
        a == b,
{
}

pub(crate) fn key_of(location: GridLocation) -> (key: u64)
    ensures
        key == cell_key(location@),
{
    let column: u64 = (location.0 as i64 + 0x8000_0000) as u64;
    let row: u64 = (location.1 as i64 + 0x8000_0000) as u64;
    column * 0x1_0000_0000 + row
}

/// A table of the index, read by cell.
pub open spec fn by_cell(table: Map<u64, Entity>) -> Map<Cell, Entity> {
    Map::new(
        |c: Cell| c.on_grid() && table.contains_key(cell_key(c) as u64),
        |c: Cell| table[cell_key(c) as u64],
    )
}

proof fn lemma_by_cell_insert(table: Map<u64, Entity>, c: Cell, e: Entity)
    requires
        c.on_grid(),
    ensures
        by_cell(table.insert(cell_key(c) as u64, e)) == by_cell(table).insert(c, e),
{
    let grown = by_cell(table.insert(cell_key(c) as u64, e));
    assert forall|o: Cell| grown.contains_key(o) <==> by_cell(table).insert(c, e).contains_key(
        o,
    ) by {
        if o.on_grid() && o != c {
            if cell_key(o) == cell_key(c) {
                lemma_cell_key_injective(o, c);
            }
        }
    }
    assert forall|o: Cell| grown.contains_key(o) implies grown[o] == by_cell(table).insert(c, e)[o] by {
        if o != c && cell_key(o) == cell_key(c) {
            lemma_cell_key_injective(o, c);
        }
    }
    assert(grown =~= by_cell(table).insert(c, e));
}

/// The tables list exactly the players, boxes and walls of `s`: each is
/// defined on the cells that hold such an entity, and gives it.
pub open spec fn lists(
    movables: Map<Cell, Entity>,
    immovables: Map<Cell, Entity>,
    s: Seq<Placed>,
) -> bool {
    &&& movables.dom() == movable_cells(s)
    &&& immovables.dom() == wall_cells(s)
    &&& forall|i: int|
        0 <= i < s.len() && (#[trigger] s[i]).role.movable() ==> movables[s[i].cell] == Entity(
            i as usize,
        )
    &&& forall|i: int|
        0 <= i < s.len() && (#[trigger] s[i]).role is Wall ==> immovables[s[i].cell] == Entity(
            i as usize,
        )
}

/// `(i, j)` is the earliest clash of `s`: entities `i` and `j` share a cell
/// and no clash ends before `j`.
pub open spec fn first_clash(s: Seq<Placed>, i: int, j: int) -> bool {
    &&& clash(s, i, j)
    &&& forall|a: int, b: int| b < j ==> !#[trigger] clash(s, a, b)
}

/// One more entity adds its cell to the occupied cells of its kind.
proof fn lemma_cells_grow(s: Seq<Placed>, j: int)
    requires
        0 <= j < s.len(),
    ensures
        movable_cells(s.subrange(0, j + 1)) == if s[j].role.movable() {
            movable_cells(s.subrange(0, j)).insert(s[j].cell)
        } else {
            movable_cells(s.subrange(0, j))
        },
        wall_cells(s.subrange(0, j + 1)) == if s[j].role is Wall {
            wall_cells(s.subrange(0, j)).insert(s[j].cell)
        } else {
            wall_cells(s.subrange(0, j))
        },
{
    let before = s.subrange(0, j);
    let after = s.subrange(0, j + 1);
    assert forall|c: Cell| movable_at(after, c) <==> movable_at(before, c) || (s[j].role.movable()
        && c == s[j].cell) by {
        if movable_at(after, c) {
            let i = choose|i: int| #[trigger] occupies(after, i, c) && after[i].role.movable();
            if i < j {
                assert(occupies(before, i, c));
            }
        }
        if movable_at(before, c) {
            let i = choose|i: int| #[trigger] occupies(before, i, c) && before[i].role.movable();
            assert(occupies(after, i, c));
        }
        if s[j].role.movable() && c == s[j].cell {
            assert(occupies(after, j, c));
        }
    }
    assert forall|c: Cell| wall_at(after, c) <==> wall_at(before, c) || (s[j].role is Wall && c
        == s[j].cell) by {
        if wall_at(after, c) {
            let i = choose|i: int| #[trigger] occupies(after, i, c) && after[i].role is Wall;
            if i < j {
                assert(occupies(before, i, c));
            }
        }
        if wall_at(before, c) {
            let i = choose|i: int| #[trigger] occupies(before, i, c) && before[i].role is Wall;
            assert(occupies(after, i, c));
        }
        if s[j].role is Wall && c == s[j].cell {
            assert(occupies(after, j, c));
        }
    }
    if s[j].role.movable() {
        assert(movable_cells(after) =~= movable_cells(before).insert(s[j].cell));
    } else {
        assert(movable_cells(after) =~= movable_cells(before));
    }
    if s[j].role is Wall {
        assert(wall_cells(after) =~= wall_cells(before).insert(s[j].cell));
    } else {
        assert(wall_cells(after) =~= wall_cells(before));
    }
}

/// Two lookup tables from cell to entity, one of the walls and one of the
/// players and boxes, as they stand at the start of one resolution.
pub struct OccupancyIndex {
    immovables: HashMap<u64, Entity>,
    movables: HashMap<u64, Entity>,
}

impl OccupancyIndex {
    /// The wall on each cell that holds one.
    pub closed spec fn immovables(&self) -> Map<Cell, Entity> {
        by_cell(self.immovables@)
    }

    /// The player or box on each cell that holds one.
    pub closed spec fn movables(&self) -> Map<Cell, Entity> {
        by_cell(self.movables@)
    }

    /// The index lists exactly the entities of `s`.
    pub open spec fn indexes(&self, s: Seq<Placed>) -> bool {
        lists(self.movables(), self.immovables(), s)
    }

    /// Only cells of the grid are listed.
    pub proof fn lemma_listed_on_grid(&self)
        ensures
            forall|c: Cell| self.movables().contains_key(c) ==> c.on_grid(),
            forall|c: Cell| self.immovables().contains_key(c) ==> c.on_grid(),
    {
    }

    /// Files every player, box and wall of `pieces` under its cell. Fails
    /// where two of them share a cell, and names the earliest such pair.
    pub fn build(pieces: &Vec<Piece>) -> (built: Result<OccupancyIndex, LevelError>)
        ensures
            built is Ok <==> clash_free(placements(pieces@)),
            match built {
                Ok(index) => index.indexes(placements(pieces@)),
                Err(LevelError::Overlap { first, second }) => first_clash(
                    placements(pieces@),
                    first.0 as int,
                    second.0 as int,
                ),
                Err(LevelError::NoGoal) => false,
            },
    {
        let ghost s = placements(pieces@);
        let mut immovables: HashMap<u64, Entity> = HashMap::new();
        let mut movables: HashMap<u64, Entity> = HashMap::new();
        let mut j: usize = 0;
        proof {
            assert(by_cell(movables@).dom() =~= movable_cells(s.subrange(0, 0)));
            assert(by_cell(immovables@).dom() =~= wall_cells(s.subrange(0, 0)));
        }
        while j < pieces.len()
            invariant
                j <= pieces.len(),
                s == placements(pieces@),
                lists(by_cell(movables@), by_cell(immovables@), s.subrange(0, j as int)),
                forall|a: int, b: int| b < j ==> !#[trigger] clash(s, a, b),
            decreases pieces.len() - j,
        {
            let piece = pieces[j];
            let key = key_of(piece.location);
            let ghost cell = piece.location@;
            let ghost before = s.subrange(0, j as int);
            let ghost after = s.subrange(0, j + 1);
            let ghost movables_before = movables@;
            let ghost immovables_before = immovables@;
            proof {
                lemma_cells_grow(s, j as int);
                assert(s[j as int] == piece@);
            }
            if piece.role.is_collidable() {
                let taken = match movables.get(&key) {
                    Some(entity) => Some(*entity),
                    None => match immovables.get(&key) {
                        Some(entity) => Some(*entity),
                        None => None,
                    },
                };
                match taken {
                    Some(first) => {
                        proof {
                            if by_cell(movables@).contains_key(cell) {
                                assert(movable_cells(before).contains(cell));
                                let i = choose|i: int| #[trigger]
                                    occupies(before, i, cell) && before[i].role.movable();
                                assert(before[i] == s[i]);
                                assert(clash(s, i, j as int));
                            } else {
                                assert(by_cell(immovables@).contains_key(cell));
                                assert(wall_cells(before).contains(cell));
                                let i = choose|i: int| #[trigger]
                                    occupies(before, i, cell) && before[i].role is Wall;
                                assert(before[i] == s[i]);
                                assert(clash(s, i, j as int));
                            }
                        }
                        return Err(LevelError::Overlap { first, second: Entity(j) });
                    },
                    None => {},
                }
                proof {
                    assert forall|a: int| !#[trigger] clash(s, a, j as int) by {
                        if clash(s, a, j as int) {
                            assert(occupies(before, a, cell));
                            assert(before[a] == s[a]);
                            if s[a].role.movable() {
                                assert(movable_cells(before).contains(cell));
                            } else {
                                assert(wall_cells(before).contains(cell));
                            }
                        }
                    }
                }
                if piece.role.is_movable() {
                    movables.insert(key, Entity(j));
                    proof {
                        lemma_by_cell_insert(movables_before, cell, Entity(j));
                    }
                } else {
                    immovables.insert(key, Entity(j));
                    proof {
                        lemma_by_cell_insert(immovables_before, cell, Entity(j));
                    }
                }
            }
            proof {
                assert forall|i: int| 0 <= i < after.len() && (#[trigger] after[i]).role.movable()
                    implies by_cell(movables@)[after[i].cell] == Entity(i as usize) by {
                    if i < j {
                        assert(before[i] == s[i]);
                        if s[i].cell == cell && piece.role.collidable() {
                            assert(clash(s, i, j as int));
                        }
                    }
                }
                assert forall|i: int| 0 <= i < after.len() && (#[trigger] after[i]).role is Wall
                    implies by_cell(immovables@)[after[i].cell] == Entity(i as usize) by {
                    if i < j {
                        assert(before[i] == s[i]);
                        if s[i].cell == cell && piece.role.collidable() {
                            assert(clash(s, i, j as int));
                        }
                    }
                }
            }
            j += 1;
        }
        proof {
            assert(s.subrange(0, j as int) =~= s);
            assert forall|a: int, b: int| !#[trigger] clash(s, a, b) by {}
        }
        Ok(OccupancyIndex { immovables, movables })
    }

    /// The player or box at `location`, if there is one.
    pub fn movable_at(&self, location: GridLocation) -> (found: Option<Entity>)
        ensures
            found == if self.movables().contains_key(location@) {
                Some(self.movables()[location@])
            } else {
                None
            },
    {
        let key = key_of(location);
        match self.movables.get(&key) {
            Some(entity) => Some(*entity),
            None => None,
        }
    }

    /// The wall at `location`, if there is one.
    pub fn immovable_at(&self, location: GridLocation) -> (found: Option<Entity>)
        ensures
            found == if self.immovables().contains_key(location@) {
                Some(self.immovables()[location@])
            } else {
                None
            },
    {
        let key = key_of(location);
        match self.immovables.get(&key) {
            Some(entity) => Some(*entity),
            None => None,
        }
    }
}

} // verus!
