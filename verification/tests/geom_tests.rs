use snake_engine::geom::{coord, signed_coord, Coord, Direction};
use snake_engine::geom::Direction::{Down, Left, Right, Up};

#[test]
fn test_delta_coord() {
    for dir in &[Up, Down, Left, Right] {
        println!("{:?}", dir.delta_coord());
    }
}

#[test]
fn delta_coord_values() {
    assert_eq!(Direction::Up.delta_coord(), signed_coord(0, -1));
    assert_eq!(Direction::Down.delta_coord(), signed_coord(0, 1));
    assert_eq!(Direction::Left.delta_coord(), signed_coord(-1, 0));
    assert_eq!(Direction::Right.delta_coord(), signed_coord(1, 0));
}

#[test]
fn from_u32_picks_each_direction() {
    assert_eq!(Direction::from_u32(0), Direction::Up);
    assert_eq!(Direction::from_u32(1), Direction::Down);
    assert_eq!(Direction::from_u32(2), Direction::Left);
    assert_eq!(Direction::from_u32(3), Direction::Right);
    assert_eq!(Direction::from_u32(7), Direction::Right);
    assert_eq!(Direction::from_u32(8), Direction::Up);
}

#[test]
fn opposite_reverses() {
    assert_eq!(Direction::Up.opposite(), Direction::Down);
    assert_eq!(Direction::Down.opposite(), Direction::Up);
    assert_eq!(Direction::Left.opposite(), Direction::Right);
    assert_eq!(Direction::Right.opposite(), Direction::Left);
}

#[test]
fn offset_steps_one_cell() {
    let c = coord(5, 7);
    assert_eq!(c.offset(Direction::Up), Coord { x: 5, y: 6 });
    assert_eq!(c.offset(Direction::Down), Coord { x: 5, y: 8 });
    assert_eq!(c.offset(Direction::Left), Coord { x: 4, y: 7 });
    assert_eq!(c.offset(Direction::Right), Coord { x: 6, y: 7 });
}
