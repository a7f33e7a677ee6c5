use rand::{RngCore, SeedableRng};
use snake_engine::board::{Board, Tile, DEATH_FOOD_PROB_COLLISION, DEATH_FOOD_PROB_WALL};
use snake_engine::game::SnakeGameState;
use snake_engine::geom::{coord, Coord, Direction};
use snake_engine::messages::{PlayerId, SnakeGameEvent, SnakePlayerInput};
use snake_engine::serializable_chacha::SerializableChaCha20;

fn count_food_tiles(g: &SnakeGameState) -> u64 {
    let mut n = 0u64;
    for t in &g.board.tiles {
        if let Tile::Food = t {
            n += 1;
        }
    }
    n
}

fn check_body_tile_consistency(g: &SnakeGameState) {
    for (pid, body) in &g.player_segments {
        assert!(!body.is_empty());
        for c in body {
            match g.board.tile(*c) {
                Tile::WormSegment { pid: p, .. } => assert_eq!(p, *pid),
                t => panic!("body cell {:?} holds {:?}", c, t),
            }
        }
    }
    for y in 0..g.board.height {
        for x in 0..g.board.width {
            if let Tile::WormSegment { pid, .. } = g.board.tile(coord(x, y)) {
                let entry = g.player_segments.iter().find(|e| e.0 == pid);
                let body = &entry.expect("segment tile without owner").1;
                assert!(body.contains(&coord(x, y)));
            }
        }
    }
    assert_eq!(g.num_foods, count_food_tiles(g));
}

fn single_player_state(
    width: usize,
    height: usize,
    cells: &[(Coord, Direction)],
    foods: &[Coord],
) -> SnakeGameState {
    let mut board = Board::new(width, height);
    let pid = PlayerId(0);
    for (c, d) in cells {
        board.set_tile(*c, Tile::WormSegment { pid, dir: *d });
    }
    for c in foods {
        board.set_tile(*c, Tile::Food);
    }
    SnakeGameState {
        rng: SerializableChaCha20::seed_from_u64(7),
        tick: 0,
        board,
        player_segments: vec![(pid, cells.iter().map(|(c, _)| *c).collect())],
        num_foods: foods.len() as u64,
    }
}

#[test]
fn scenario_wall_death() {
    // 4x4 board: 2x2 interior; the single player faces the wall.
    let mut g = single_player_state(4, 4, &[(coord(1, 1), Direction::Up)], &[]);
    let events = g.tick(&Vec::new());
    assert_eq!(events, vec![SnakeGameEvent::PlayerDied(PlayerId(0), DEATH_FOOD_PROB_WALL)]);
    assert!(g.player_segments.is_empty());
    for y in 0..g.board.height {
        for x in 0..g.board.width {
            assert!(!matches!(g.board.tile(coord(x, y)), Tile::WormSegment { .. }));
        }
    }
    check_body_tile_consistency(&g);
}

#[test]
fn scenario_food_pickup() {
    let mut g = single_player_state(
        6,
        5,
        &[(coord(2, 2), Direction::Right)],
        &[coord(3, 2)],
    );
    assert_eq!(g.num_foods, 1);
    let events = g.tick(&Vec::new());
    assert_eq!(events, vec![SnakeGameEvent::PlayerAteFood(PlayerId(0), coord(3, 2))]);
    assert_eq!(g.player_segments.len(), 1);
    assert_eq!(g.player_segments[0].1, vec![coord(2, 2), coord(3, 2)]);
    assert!(matches!(g.board.tile(coord(3, 2)), Tile::WormSegment { .. }));
    // replenished back up to alive players + 2
    assert_eq!(g.num_foods, 3);
    check_body_tile_consistency(&g);
}

#[test]
fn scenario_self_collision() {
    // A 2x2 loop of body; the next head move lands on the worm's own tail.
    let mut g = single_player_state(
        4,
        4,
        &[
            (coord(1, 1), Direction::Right),
            (coord(2, 1), Direction::Down),
            (coord(2, 2), Direction::Left),
            (coord(1, 2), Direction::Up),
        ],
        &[],
    );
    let events = g.tick(&Vec::new());
    assert_eq!(
        events,
        vec![SnakeGameEvent::PlayerDied(PlayerId(0), DEATH_FOOD_PROB_COLLISION)]
    );
    assert!(g.player_segments.is_empty());
    for y in 0..g.board.height {
        for x in 0..g.board.width {
            let t = g.board.tile(coord(x, y));
            assert!(
                matches!(t, Tile::Empty) || matches!(t, Tile::Food) || matches!(t, Tile::Wall)
            );
        }
    }
    check_body_tile_consistency(&g);
}

#[test]
fn scenario_deterministic_replay() {
    let mut g1 = SnakeGameState::new();
    let mut g2 = SnakeGameState::new();
    g1.spawn_player(PlayerId(0));
    g2.spawn_player(PlayerId(0));
    g1.spawn_player(PlayerId(1));
    g2.spawn_player(PlayerId(1));
    assert_eq!(g1, g2);
    let scripts: Vec<Vec<(PlayerId, SnakePlayerInput)>> = vec![
        vec![],
        vec![(PlayerId(0), SnakePlayerInput::ChangeDirection(Direction::Down))],
        vec![
            (PlayerId(0), SnakePlayerInput::ChangeDirection(Direction::Left)),
            (PlayerId(1), SnakePlayerInput::ChangeDirection(Direction::Up)),
        ],
        vec![],
        vec![(PlayerId(1), SnakePlayerInput::ChangeDirection(Direction::Right))],
    ];
    for inputs in &scripts {
        let e1 = g1.tick(inputs);
        let e2 = g2.tick(inputs);
        assert_eq!(e1, e2);
        assert_eq!(g1, g2);
    }
}

#[test]
fn consistency_holds_across_ticks() {
    let mut g = SnakeGameState::new();
    g.spawn_player(PlayerId(0));
    g.spawn_player(PlayerId(1));
    check_body_tile_consistency(&g);
    let dirs = [Direction::Up, Direction::Right, Direction::Down, Direction::Left];
    for k in 0..8 {
        let inputs = vec![(PlayerId(0), SnakePlayerInput::ChangeDirection(dirs[k % 4]))];
        g.tick(&inputs);
        check_body_tile_consistency(&g);
    }
}

#[test]
fn no_backward_reversal() {
    let mut g = single_player_state(8, 8, &[(coord(3, 3), Direction::Right)], &[]);
    // The exact reverse is refused: the facing stays.
    let inputs = vec![(PlayerId(0), SnakePlayerInput::ChangeDirection(Direction::Left))];
    g.tick(&inputs);
    let head = *g.player_segments[0].1.last().unwrap();
    match g.board.tile(head) {
        Tile::WormSegment { dir, .. } => assert_eq!(dir, Direction::Right),
        t => panic!("head holds {:?}", t),
    }
    // Any other direction is taken.
    let inputs = vec![(PlayerId(0), SnakePlayerInput::ChangeDirection(Direction::Down))];
    g.tick(&inputs);
    let head = *g.player_segments[0].1.last().unwrap();
    match g.board.tile(head) {
        Tile::WormSegment { dir, .. } => assert_eq!(dir, Direction::Down),
        t => panic!("head holds {:?}", t),
    }
}

#[test]
fn food_target_holds_after_every_tick() {
    let mut g = SnakeGameState::new();
    g.spawn_player(PlayerId(0));
    g.spawn_player(PlayerId(1));
    for _ in 0..6 {
        g.tick(&Vec::new());
        let alive = g.player_segments.len() as u64;
        assert!(g.num_foods >= alive + 2);
    }
}

#[test]
fn growth_only_with_food() {
    let mut g = single_player_state(10, 10, &[(coord(4, 4), Direction::Right)], &[coord(6, 4)]);
    assert_eq!(g.player_segments[0].1.len(), 1);
    g.tick(&Vec::new());
    // moved onto an empty cell: length unchanged
    assert_eq!(g.player_segments[0].1.len(), 1);
    let before = g.player_segments[0].1.len();
    let events = g.tick(&Vec::new());
    // moved onto the food: length grows by exactly one
    assert!(events
        .iter()
        .any(|e| matches!(e, SnakeGameEvent::PlayerAteFood(_, _))));
    assert_eq!(g.player_segments[0].1.len(), before + 1);
}

#[test]
fn dying_worm_keeps_its_tail_until_resolution_draws_for_every_cell() {
    // A length-2 worm dies at the wall: nothing is trimmed beforehand, and
    // death resolution draws one stream word per body cell, tail included.
    let mut g = single_player_state(
        8,
        8,
        &[
            (coord(1, 2), Direction::Up),
            (coord(1, 1), Direction::Up),
        ],
        &[],
    );
    let mut reference = rand_chacha::ChaCha20Rng::from_seed(g.rng.seed);
    reference.set_word_pos(g.rng.word_pos);
    // the first two words of the tick are the conversion draws for the two
    // body cells, oldest first
    let expected: Vec<Tile> = (0..2)
        .map(|_| {
            if reference.next_u32() < DEATH_FOOD_PROB_WALL {
                Tile::Food
            } else {
                Tile::Empty
            }
        })
        .collect();
    let events = g.tick(&Vec::new());
    assert_eq!(events, vec![SnakeGameEvent::PlayerDied(PlayerId(0), DEATH_FOOD_PROB_WALL)]);
    assert!(g.player_segments.is_empty());
    assert_eq!(g.board.tile(coord(1, 2)), expected[0]);
    assert_eq!(g.board.tile(coord(1, 1)), expected[1]);
    check_body_tile_consistency(&g);
}

#[test]
fn remove_player_with_zero_probability_clears_cells() {
    let mut g = single_player_state(
        6,
        6,
        &[
            (coord(2, 2), Direction::Right),
            (coord(3, 2), Direction::Right),
        ],
        &[],
    );
    let cursor_before = g.rng.word_pos;
    g.remove_player(PlayerId(0), 0);
    assert!(g.player_segments.is_empty());
    assert_eq!(g.board.tile(coord(2, 2)), Tile::Empty);
    assert_eq!(g.board.tile(coord(3, 2)), Tile::Empty);
    assert_eq!(g.num_foods, 0);
    // one word is drawn per cleared cell regardless of the probability
    assert_eq!(g.rng.word_pos, cursor_before + 2);
}

#[test]
fn spawn_player_places_single_segment_on_empty_cell() {
    let mut g = SnakeGameState::new();
    g.spawn_player(PlayerId(9));
    assert_eq!(g.player_segments.len(), 1);
    assert_eq!(g.player_segments[0].0, PlayerId(9));
    assert_eq!(g.player_segments[0].1.len(), 1);
    let c = g.player_segments[0].1[0];
    match g.board.tile(c) {
        Tile::WormSegment { pid, .. } => assert_eq!(pid, PlayerId(9)),
        t => panic!("spawn cell holds {:?}", t),
    }
    check_body_tile_consistency(&g);
}

#[test]
fn random_coord_matches_reference_draws() {
    let mut g = SnakeGameState::new();
    let mut reference = rand_chacha::ChaCha20Rng::from_seed(g.rng.seed);
    let c = g.random_coord();
    let rx = reference.next_u32() as usize % 40;
    let ry = reference.next_u32() as usize % 30;
    assert_eq!(c, coord(rx, ry));
}

#[test]
fn new_game_shape() {
    let g = SnakeGameState::new();
    assert_eq!(g.tick, 0);
    assert_eq!(g.num_foods, 0);
    assert_eq!(g.board.width, 40);
    assert_eq!(g.board.height, 30);
    assert!(g.player_segments.is_empty());
    assert_eq!(g.rng.word_pos, 0);
    check_body_tile_consistency(&g);
}
