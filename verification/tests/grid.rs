use sokoban::entity::{Piece, Role};
use sokoban::grid::{Direction, GridLocation, Pressed};

#[test]
fn locations_add_component_wise() {
    assert_eq!(GridLocation(1, 2) + GridLocation(3, 4), GridLocation(4, 6));
    assert_eq!(GridLocation(-9, 1) + GridLocation(0, -1), GridLocation(-9, 0));
    assert_eq!(GridLocation(i32::MAX - 1, i32::MIN + 1) + GridLocation(1, -1), GridLocation(i32::MAX, i32::MIN));
}

#[test]
fn each_direction_has_its_unit_delta() {
    assert_eq!(Direction::Left.delta(), GridLocation(-1, 0));
    assert_eq!(Direction::Right.delta(), GridLocation(1, 0));
    assert_eq!(Direction::Up.delta(), GridLocation(0, 1));
    assert_eq!(Direction::Down.delta(), GridLocation(0, -1));
}

#[test]
fn step_gives_the_neighbour() {
    let here = GridLocation(7, -3);
    assert_eq!(here.step(Direction::Left), Some(GridLocation(6, -3)));
    assert_eq!(here.step(Direction::Right), Some(GridLocation(8, -3)));
    assert_eq!(here.step(Direction::Up), Some(GridLocation(7, -2)));
    assert_eq!(here.step(Direction::Down), Some(GridLocation(7, -4)));
}

#[test]
fn step_stops_where_the_grid_ends() {
    assert_eq!(GridLocation(i32::MIN, 0).step(Direction::Left), None);
    assert_eq!(GridLocation(i32::MAX, 0).step(Direction::Right), None);
    assert_eq!(GridLocation(0, i32::MAX).step(Direction::Up), None);
    assert_eq!(GridLocation(0, i32::MIN).step(Direction::Down), None);
    assert_eq!(GridLocation(i32::MIN, 0).step(Direction::Right), Some(GridLocation(i32::MIN + 1, 0)));
    assert_eq!(GridLocation(i32::MAX, i32::MAX).step(Direction::Down), Some(GridLocation(i32::MAX, i32::MAX - 1)));
}

#[test]
fn no_key_gives_no_direction() {
    assert_eq!(Pressed::none().direction(), None);
    assert_eq!(Pressed::none(), Pressed { left: false, right: false, down: false, up: false });
}

#[test]
fn one_key_gives_its_direction() {
    for d in [Direction::Left, Direction::Right, Direction::Down, Direction::Up] {
        assert_eq!(Pressed::only(d).direction(), Some(d));
    }
    assert_eq!(Pressed::only(Direction::Down), Pressed { left: false, right: false, down: true, up: false });
}

#[test]
fn first_key_in_order_wins() {
    let all = Pressed { left: true, right: true, down: true, up: true };
    assert_eq!(all.direction(), Some(Direction::Left));
    let no_left = Pressed { left: false, right: true, down: true, up: true };
    assert_eq!(no_left.direction(), Some(Direction::Right));
    let vertical = Pressed { left: false, right: false, down: true, up: true };
    assert_eq!(vertical.direction(), Some(Direction::Down));
    let left_and_up = Pressed { left: true, right: false, down: false, up: true };
    assert_eq!(left_and_up.direction(), Some(Direction::Left));
    let right_and_up = Pressed { left: false, right: true, down: false, up: true };
    assert_eq!(right_and_up.direction(), Some(Direction::Right));
}

#[test]
fn players_and_boxes_are_movable() {
    assert!(Role::Player.is_movable());
    assert!(Role::Box.is_movable());
    assert!(!Role::Wall.is_movable());
    assert!(!Role::Goal.is_movable());
}

#[test]
fn all_but_goals_are_collidable() {
    assert!(Role::Player.is_collidable());
    assert!(Role::Box.is_collidable());
    assert!(Role::Wall.is_collidable());
    assert!(!Role::Goal.is_collidable());
}

#[test]
fn piece_keeps_role_and_location() {
    let piece = Piece::new(Role::Wall, GridLocation(-5, 6));
    assert_eq!(piece.role, Role::Wall);
    assert_eq!(piece.location, GridLocation(-5, 6));
    assert_eq!(piece, Piece { role: Role::Wall, location: GridLocation(-5, 6) });
}
