use sokoban::entity::{Entity, Piece, Role};
use sokoban::error::LevelError;
use sokoban::grid::{Direction, GridLocation};
use sokoban::occupancy::OccupancyIndex;

fn pieces(list: Vec<(Role, i32, i32)>) -> Vec<Piece> {
    list.into_iter().map(|(role, x, y)| Piece::new(role, GridLocation(x, y))).collect()
}

fn index(list: Vec<(Role, i32, i32)>) -> OccupancyIndex {
    OccupancyIndex::build(&pieces(list)).expect("no two entities on one cell")
}

#[test]
fn index_finds_each_entity_under_its_cell() {
    let index = index(vec![
        (Role::Wall, 2, 0),
        (Role::Player, 0, 0),
        (Role::Goal, 1, 0),
        (Role::Box, 1, 0),
    ]);
    assert_eq!(index.movable_at(GridLocation(0, 0)), Some(Entity(1)));
    assert_eq!(index.movable_at(GridLocation(1, 0)), Some(Entity(3)));
    assert_eq!(index.movable_at(GridLocation(2, 0)), None);
    assert_eq!(index.immovable_at(GridLocation(2, 0)), Some(Entity(0)));
    assert_eq!(index.immovable_at(GridLocation(0, 0)), None);
    assert_eq!(index.immovable_at(GridLocation(1, 0)), None);
    assert_eq!(index.movable_at(GridLocation(0, 1)), None);
}

#[test]
fn index_tells_mirrored_cells_apart() {
    let index = index(vec![
        (Role::Box, 1, 2),
        (Role::Box, 2, 1),
        (Role::Box, -1, 2),
        (Role::Wall, 1, -2),
        (Role::Wall, i32::MAX, i32::MIN),
        (Role::Wall, i32::MIN, i32::MAX),
    ]);
    assert_eq!(index.movable_at(GridLocation(1, 2)), Some(Entity(0)));
    assert_eq!(index.movable_at(GridLocation(2, 1)), Some(Entity(1)));
    assert_eq!(index.movable_at(GridLocation(-1, 2)), Some(Entity(2)));
    assert_eq!(index.movable_at(GridLocation(-2, 1)), None);
    assert_eq!(index.immovable_at(GridLocation(1, -2)), Some(Entity(3)));
    assert_eq!(index.immovable_at(GridLocation(i32::MAX, i32::MIN)), Some(Entity(4)));
    assert_eq!(index.immovable_at(GridLocation(i32::MIN, i32::MAX)), Some(Entity(5)));
    assert_eq!(index.immovable_at(GridLocation(i32::MIN, i32::MIN)), None);
    assert_eq!(index.immovable_at(GridLocation(-2, 1)), None);
}

#[test]
fn index_of_nothing_is_empty() {
    let index = index(vec![]);
    assert_eq!(index.movable_at(GridLocation(0, 0)), None);
    assert_eq!(index.immovable_at(GridLocation(0, 0)), None);
}

#[test]
fn goals_are_not_indexed() {
    let index = index(vec![(Role::Goal, 0, 0), (Role::Goal, 0, 0)]);
    assert_eq!(index.movable_at(GridLocation(0, 0)), None);
    assert_eq!(index.immovable_at(GridLocation(0, 0)), None);
}

#[test]
fn two_boxes_on_one_cell_are_refused() {
    let built = OccupancyIndex::build(&pieces(vec![
        (Role::Player, 0, 0),
        (Role::Box, 1, 0),
        (Role::Box, 1, 0),
    ]));
    assert_eq!(built.err(), Some(LevelError::Overlap { first: Entity(1), second: Entity(2) }));
}

#[test]
fn wall_on_a_box_is_refused() {
    let built = OccupancyIndex::build(&pieces(vec![
        (Role::Box, 3, 3),
        (Role::Goal, 3, 3),
        (Role::Wall, 3, 3),
    ]));
    assert_eq!(built.err(), Some(LevelError::Overlap { first: Entity(0), second: Entity(2) }));
}

#[test]
fn player_on_a_wall_is_refused() {
    let built = OccupancyIndex::build(&pieces(vec![
        (Role::Wall, 0, 0),
        (Role::Wall, 1, 0),
        (Role::Player, 1, 0),
    ]));
    assert_eq!(built.err(), Some(LevelError::Overlap { first: Entity(1), second: Entity(2) }));
}

#[test]
fn earliest_overlap_is_reported() {
    let built = OccupancyIndex::build(&pieces(vec![
        (Role::Wall, 5, 5),
        (Role::Box, 1, 0),
        (Role::Wall, 7, 7),
        (Role::Player, 1, 0),
        (Role::Wall, 5, 5),
        (Role::Wall, 7, 7),
    ]));
    assert_eq!(built.err(), Some(LevelError::Overlap { first: Entity(1), second: Entity(3) }));
}

#[test]
fn walk_lists_the_chain_nearest_first() {
    let index = index(vec![
        (Role::Box, 3, 0),
        (Role::Box, 1, 0),
        (Role::Player, 0, 0),
        (Role::Box, 2, 0),
        (Role::Wall, 5, 0),
    ]);
    assert_eq!(
        index.push_chain(GridLocation(0, 0), Direction::Right),
        Some(vec![Entity(2), Entity(1), Entity(3), Entity(0)])
    );
    assert_eq!(index.push_chain(GridLocation(2, 0), Direction::Right), Some(vec![Entity(3), Entity(0)]));
    assert_eq!(index.push_chain(GridLocation(2, 0), Direction::Up), Some(vec![Entity(3)]));
}

#[test]
fn walk_from_an_empty_cell_moves_nothing() {
    let index = index(vec![(Role::Player, 0, 0), (Role::Wall, 5, 0)]);
    assert_eq!(index.push_chain(GridLocation(3, 3), Direction::Left), Some(vec![]));
    assert_eq!(index.push_chain(GridLocation(5, 0), Direction::Left), None);
}

#[test]
fn walk_is_blocked_by_a_wall_behind_the_chain() {
    let index = index(vec![
        (Role::Player, 0, 0),
        (Role::Box, 0, 1),
        (Role::Box, 0, 2),
        (Role::Wall, 0, 3),
    ]);
    assert_eq!(index.push_chain(GridLocation(0, 0), Direction::Up), None);
    assert_eq!(index.push_chain(GridLocation(0, 2), Direction::Up), None);
    assert_eq!(
        index.push_chain(GridLocation(0, 2), Direction::Down),
        Some(vec![Entity(2), Entity(1), Entity(0)])
    );
}

#[test]
fn walk_is_blocked_by_the_end_of_the_grid() {
    let index = index(vec![(Role::Player, i32::MIN + 1, 0), (Role::Box, i32::MIN, 0)]);
    assert_eq!(index.push_chain(GridLocation(i32::MIN + 1, 0), Direction::Left), None);
    assert_eq!(
        index.push_chain(GridLocation(i32::MIN, 0), Direction::Right),
        Some(vec![Entity(1), Entity(0)])
    );
}
