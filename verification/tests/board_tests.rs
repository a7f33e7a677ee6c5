use snake_engine::board::{Board, Tile, DEATH_FOOD_PROB_COLLISION, DEATH_FOOD_PROB_WALL};
use snake_engine::geom::{coord, Direction};
use snake_engine::messages::{PlayerId, SnakeGameEvent};

#[test]
fn new_board_is_walled_and_empty_inside() {
    let b = Board::new(5, 4);
    for y in 0..4usize {
        for x in 0..5usize {
            let t = b.tile(coord(x, y));
            if x == 0 || y == 0 || x == 4 || y == 3 {
                assert_eq!(t, Tile::Wall);
            } else {
                assert_eq!(t, Tile::Empty);
            }
        }
    }
}

#[test]
fn smallest_board_is_all_wall() {
    let b = Board::new(2, 2);
    for y in 0..2usize {
        for x in 0..2usize {
            assert_eq!(b.tile(coord(x, y)), Tile::Wall);
        }
    }
    assert_eq!(b.find_empty_cell(), None);
}

#[test]
fn idx_of_coord_is_row_major() {
    let b = Board::new(7, 3);
    assert_eq!(b.idx_of_coord(coord(0, 0)), 0);
    assert_eq!(b.idx_of_coord(coord(3, 2)), 2 * 7 + 3);
}

#[test]
fn move_head_onto_empty_moves() {
    let mut b = Board::new(6, 5);
    let pid = PlayerId(4);
    b.set_tile(coord(2, 2), Tile::WormSegment { pid, dir: Direction::Right });
    let (events, new_head) = b.move_head(coord(2, 2));
    assert!(events.is_empty());
    assert_eq!(new_head, Some(coord(3, 2)));
    assert_eq!(b.tile(coord(3, 2)), Tile::WormSegment { pid, dir: Direction::Right });
}

#[test]
fn move_head_into_wall_kills_with_low_weight() {
    let mut b = Board::new(6, 5);
    let pid = PlayerId(1);
    b.set_tile(coord(1, 1), Tile::WormSegment { pid, dir: Direction::Up });
    let (events, new_head) = b.move_head(coord(1, 1));
    assert_eq!(events, vec![SnakeGameEvent::PlayerDied(pid, DEATH_FOOD_PROB_WALL)]);
    assert_eq!(new_head, None);
    assert_eq!(b.tile(coord(1, 1)), Tile::WormSegment { pid, dir: Direction::Up });
}

#[test]
fn move_head_into_worm_kills_with_high_weight() {
    let mut b = Board::new(6, 5);
    let pid = PlayerId(1);
    let other = PlayerId(2);
    b.set_tile(coord(2, 2), Tile::WormSegment { pid, dir: Direction::Right });
    b.set_tile(coord(3, 2), Tile::WormSegment { pid: other, dir: Direction::Up });
    let (events, new_head) = b.move_head(coord(2, 2));
    assert_eq!(events, vec![SnakeGameEvent::PlayerDied(pid, DEATH_FOOD_PROB_COLLISION)]);
    assert_eq!(new_head, None);
}

#[test]
fn move_head_onto_food_eats_and_moves() {
    let mut b = Board::new(6, 5);
    let pid = PlayerId(0);
    b.set_tile(coord(2, 2), Tile::WormSegment { pid, dir: Direction::Down });
    b.set_tile(coord(2, 3), Tile::Food);
    let (events, new_head) = b.move_head(coord(2, 2));
    assert_eq!(events, vec![SnakeGameEvent::PlayerAteFood(pid, coord(2, 3))]);
    assert_eq!(new_head, Some(coord(2, 3)));
    assert_eq!(b.tile(coord(2, 3)), Tile::WormSegment { pid, dir: Direction::Down });
}

#[test]
fn find_empty_cell_scans_row_major() {
    let mut b = Board::new(4, 4);
    assert_eq!(b.find_empty_cell(), Some(coord(1, 1)));
    b.set_tile(coord(1, 1), Tile::Food);
    assert_eq!(b.find_empty_cell(), Some(coord(2, 1)));
    b.set_tile(coord(2, 1), Tile::Food);
    b.set_tile(coord(1, 2), Tile::Food);
    b.set_tile(coord(2, 2), Tile::Food);
    assert_eq!(b.find_empty_cell(), None);
}

#[test]
fn death_weights_mirror_the_u32_range_fractions() {
    assert_eq!(DEATH_FOOD_PROB_WALL, (0.1f64 * u32::MAX as f64) as u32);
    assert_eq!(DEATH_FOOD_PROB_COLLISION, (0.9f64 * u32::MAX as f64) as u32);
}
