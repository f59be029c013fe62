use sokoban::entity::{Entity, Piece, Role};
use sokoban::error::LevelError;
use sokoban::grid::{Direction, GridLocation, Pressed};
use sokoban::level::Level;

const WALLS: [(i32, i32); 69] = [
    (-9, 1), (-9, 0), (-9, -1), (-9, -2), (-8, -2), (-7, -2), (-6, -2), (-5, -2), (-5, -3), (-5, -4),
    (-4, -4), (-3, -4), (-2, -4), (-1, -4), (0, -4), (1, -4), (1, -3), (2, -3), (3, -3), (4, -3),
    (5, -3), (6, -3), (7, -3), (8, -3), (9, -3), (9, -2), (9, -1), (9, 0), (9, 1), (8, 1),
    (7, 1), (6, 1), (5, 1), (4, 1), (4, 0), (3, 0), (2, 0), (1, 0), (0, 0), (0, 1),
    (0, 2), (0, 3), (-1, 3), (-1, 4), (-1, 5), (-1, 6), (-2, 6), (-3, 6), (-4, 6), (-5, 6),
    (-5, 5), (-5, 4), (-5, 3), (-6, 3), (-7, 3), (-7, 2), (-7, 1), (-8, 1), (-5, 0), (-5, 1),
    (-3, 0), (-3, 1), (-2, 0), (-2, 1), (-3, -2), (-2, -2), (1, -2), (3, -2), (4, -2),
];
const BOXES: [(i32, i32); 6] = [(-7, -1), (-4, -1), (-4, 2), (-4, 4), (-2, 2), (-2, 3)];
const PLAYER: (i32, i32) = (2, -2);
const GOALS: [(i32, i32); 6] = [(7, 0), (7, -1), (7, -2), (8, 0), (8, -1), (8, -2)];

fn stock() -> Vec<Piece> {
    let mut pieces = Vec::new();
    for (x, y) in WALLS {
        pieces.push(Piece::new(Role::Wall, GridLocation(x, y)));
    }
    for (x, y) in BOXES {
        pieces.push(Piece::new(Role::Box, GridLocation(x, y)));
    }
    pieces.push(Piece::new(Role::Player, GridLocation(PLAYER.0, PLAYER.1)));
    for (x, y) in GOALS {
        pieces.push(Piece::new(Role::Goal, GridLocation(x, y)));
    }
    pieces
}

#[test]
fn stock_level_is_playable() {
    let level = Level::new(stock()).expect("a playable level");
    assert_eq!(level.len(), 82);
    assert_eq!(level.role(Entity(75)), Some(Role::Player));
    assert_eq!(level.location(Entity(75)), Some(GridLocation(2, -2)));
    assert!(!level.is_complete());
}

#[test]
fn stock_level_with_a_wall_set_twice_is_refused() {
    let mut pieces = stock();
    pieces.insert(66, Piece::new(Role::Wall, GridLocation(-2, -2)));
    assert_eq!(
        Level::new(pieces).err(),
        Some(LevelError::Overlap { first: Entity(65), second: Entity(66) })
    );
}

#[test]
fn stock_player_is_hemmed_in_on_three_sides() {
    let mut level = Level::new(stock()).expect("a playable level");
    let before = level.pieces().clone();
    level.tick(Pressed::only(Direction::Left));
    assert_eq!(level.pieces(), &before);
    level.tick(Pressed::only(Direction::Right));
    assert_eq!(level.pieces(), &before);
    level.tick(Pressed::only(Direction::Down));
    assert_eq!(level.pieces(), &before);
    level.tick(Pressed::only(Direction::Up));
    assert_eq!(level.location(Entity(75)), Some(GridLocation(2, -1)));
    for index in 0..level.len() {
        if index != 75 {
            assert_eq!(level.location(Entity(index)), Some(before[index].location));
        }
    }
}
