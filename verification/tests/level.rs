use sokoban::entity::{Entity, Piece, Role};
use sokoban::error::LevelError;
use sokoban::grid::{Direction, GridLocation, Pressed};
use sokoban::level::Level;

fn pieces(list: Vec<(Role, i32, i32)>) -> Vec<Piece> {
    list.into_iter().map(|(role, x, y)| Piece::new(role, GridLocation(x, y))).collect()
}

#[test]
fn level_keeps_its_entities_in_order() {
    let given = pieces(vec![(Role::Goal, 4, 4), (Role::Player, 0, 0), (Role::Wall, 1, 1), (Role::Box, 2, 2)]);
    let level = Level::new(given.clone()).expect("a playable level");
    assert_eq!(level.len(), 4);
    assert_eq!(level.pieces(), &given);
    assert_eq!(level.role(Entity(0)), Some(Role::Goal));
    assert_eq!(level.role(Entity(1)), Some(Role::Player));
    assert_eq!(level.role(Entity(2)), Some(Role::Wall));
    assert_eq!(level.role(Entity(3)), Some(Role::Box));
    assert_eq!(level.location(Entity(3)), Some(GridLocation(2, 2)));
}

#[test]
fn unknown_entity_has_no_role_or_location() {
    let level = Level::new(pieces(vec![(Role::Goal, 0, 0)])).expect("a playable level");
    assert_eq!(level.role(Entity(1)), None);
    assert_eq!(level.location(Entity(1)), None);
    assert_eq!(level.location(Entity(usize::MAX)), None);
}

#[test]
fn level_without_goal_is_refused() {
    let made = Level::new(pieces(vec![(Role::Player, 0, 0), (Role::Box, 1, 0), (Role::Wall, 2, 0)]));
    assert_eq!(made.err(), Some(LevelError::NoGoal));
}

#[test]
fn empty_level_is_refused() {
    assert_eq!(Level::new(Vec::new()).err(), Some(LevelError::NoGoal));
}

#[test]
fn level_with_overlap_is_refused() {
    let made = Level::new(pieces(vec![
        (Role::Goal, 0, 0),
        (Role::Wall, -2, -2),
        (Role::Player, 2, -2),
        (Role::Wall, -2, -2),
    ]));
    assert_eq!(made.err(), Some(LevelError::Overlap { first: Entity(1), second: Entity(3) }));
}

#[test]
fn overlap_is_reported_before_missing_goal() {
    let made = Level::new(pieces(vec![(Role::Player, 0, 0), (Role::Box, 0, 0)]));
    assert_eq!(made.err(), Some(LevelError::Overlap { first: Entity(0), second: Entity(1) }));
}

#[test]
fn goals_may_share_cells() {
    let level = Level::new(pieces(vec![
        (Role::Goal, 0, 0),
        (Role::Goal, 0, 0),
        (Role::Box, 0, 0),
        (Role::Goal, 1, 0),
        (Role::Player, 1, 0),
        (Role::Goal, 2, 0),
        (Role::Wall, 2, 0),
    ]));
    assert!(level.is_ok());
}

#[test]
fn complete_when_every_goal_holds_a_box() {
    let level = Level::new(pieces(vec![
        (Role::Goal, 7, 0),
        (Role::Goal, 7, -1),
        (Role::Box, 7, -1),
        (Role::Box, 7, 0),
    ]))
    .expect("a playable level");
    assert!(level.is_complete());
}

#[test]
fn extra_box_elsewhere_does_not_hinder() {
    let level = Level::new(pieces(vec![
        (Role::Goal, 7, 0),
        (Role::Box, 7, 0),
        (Role::Box, -4, 2),
        (Role::Box, -4, 4),
    ]))
    .expect("a playable level");
    assert!(level.is_complete());
}

#[test]
fn one_bare_goal_is_enough_to_fail() {
    let level = Level::new(pieces(vec![
        (Role::Goal, 7, 0),
        (Role::Goal, 8, 0),
        (Role::Box, 7, 0),
        (Role::Box, 9, 0),
    ]))
    .expect("a playable level");
    assert!(!level.is_complete());
}

#[test]
fn only_boxes_cover_goals() {
    let level = Level::new(pieces(vec![
        (Role::Goal, 0, 0),
        (Role::Player, 0, 0),
        (Role::Goal, 1, 0),
        (Role::Wall, 1, 0),
    ]))
    .expect("a playable level");
    assert!(!level.is_complete());
}

#[test]
fn level_without_boxes_is_not_complete() {
    let level = Level::new(pieces(vec![(Role::Goal, 0, 0)])).expect("a playable level");
    assert!(!level.is_complete());
}

#[test]
fn tick_follows_key_order() {
    let mut level = Level::new(pieces(vec![(Role::Player, 0, 0), (Role::Goal, 9, 9)]))
        .expect("a playable level");
    level.tick(Pressed { left: true, right: true, down: false, up: false });
    assert_eq!(level.location(Entity(0)), Some(GridLocation(-1, 0)));
    level.tick(Pressed { left: false, right: true, down: true, up: true });
    assert_eq!(level.location(Entity(0)), Some(GridLocation(0, 0)));
    level.tick(Pressed { left: false, right: false, down: true, up: true });
    assert_eq!(level.location(Entity(0)), Some(GridLocation(0, -1)));
    level.tick(Pressed { left: false, right: false, down: false, up: true });
    assert_eq!(level.location(Entity(0)), Some(GridLocation(0, 0)));
}

#[test]
fn two_boxes_onto_two_goals() {
    let mut level = Level::new(pieces(vec![
        (Role::Player, 0, 0),
        (Role::Box, 1, 0),
        (Role::Box, 2, 0),
        (Role::Goal, 2, 0),
        (Role::Goal, 3, 0),
        (Role::Wall, 4, 0),
    ]))
    .expect("a playable level");
    assert!(!level.is_complete());
    assert!(level.tick(Pressed::only(Direction::Right)));
    assert!(level.tick(Pressed::only(Direction::Right)));
    assert_eq!(level.location(Entity(0)), Some(GridLocation(1, 0)));
    assert!(level.tick(Pressed::only(Direction::Left)));
    assert_eq!(level.location(Entity(0)), Some(GridLocation(0, 0)));
    assert_eq!(level.location(Entity(1)), Some(GridLocation(2, 0)));
    assert_eq!(level.location(Entity(2)), Some(GridLocation(3, 0)));
}
