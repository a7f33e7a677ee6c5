//! The mathematical model of the simulation: the game state as plain
//! sequences and integers, and the tick transition as a pure function over
//! it. The executable engine is proved to compute exactly this function, so
//! two states with equal models evolve identically — the replay guarantee —
//! and every scenario outcome is decided by the contracts alone.

use vstd::prelude::*;
use crate::geom::{Coord, Direction};
use crate::messages::{PlayerId, SnakeGameEvent, SnakePlayerInput};
use crate::board::Tile;
use crate::serializable_chacha::{chacha_word, pos_plus};

verus! {

/// How many random cells a spawn samples before falling back to a
/// deterministic scan; reached only on an all-but-full board.
pub const SPAWN_SAMPLE_ATTEMPTS: usize = 100000;

/// The value of a game state: generator seed and cursor, clock, board
/// dimensions and tiles, the sorted player entries, and the food count.
pub struct GameModel {
    pub seed: Seq<u8>,
    pub cursor: u128,
    pub tick: u64,
    pub width: int,
    pub height: int,
    pub tiles: Seq<Tile>,
    pub players: Seq<(PlayerId, Seq<Coord>)>,
    pub num_foods: int,
}

impl GameModel {
    /// The flat index of `c` in the tile sequence.
    pub open spec fn idx(self, c: Coord) -> int {
        c.y * self.width + c.x
    }

    /// The tile at `c`.
    pub open spec fn at(self, c: Coord) -> Tile {
        self.tiles[self.idx(c)]
    }

    /// The food target: one per living player plus two.
    pub open spec fn food_target(self) -> int {
        self.players.len() as int + 2
    }
}

/// Whether some model entry carries `pid`.
pub open spec fn mhas_pid(ps: Seq<(PlayerId, Seq<Coord>)>, pid: PlayerId) -> bool {
    exists|i: int| 0 <= i < ps.len() && (#[trigger] ps[i]).0 == pid
}

/// The index of the model entry carrying `pid`.
pub open spec fn mindex_of_pid(ps: Seq<(PlayerId, Seq<Coord>)>, pid: PlayerId) -> int {
    choose|i: int| 0 <= i < ps.len() && (#[trigger] ps[i]).0 == pid
}

/// Applying one `ChangeDirection` request: if the player is alive and the
/// request is not the exact reverse of its current facing, the head tile's
/// stored facing becomes the request.
pub open spec fn spec_change_direction(m: GameModel, pid: PlayerId, d: Direction) -> GameModel {
    if !mhas_pid(m.players, pid) {
        m
    } else {
        let i = mindex_of_pid(m.players, pid);
        let body = m.players[i].1;
        let head = body.last();
        match m.at(head) {
            Tile::WormSegment { dir: cur, .. } => if d == cur.spec_opposite() {
                m
            } else {
                GameModel {
                    tiles: m.tiles.update(m.idx(head), Tile::WormSegment { pid, dir: d }),
                    ..m
                }
            },
            _ => m,
        }
    }
}

/// Applying the first `a` pending inputs, in order.
pub open spec fn spec_apply_to(
    m: GameModel,
    inputs: Seq<(PlayerId, SnakePlayerInput)>,
    a: int,
) -> GameModel
    decreases a,
{
    if a <= 0 {
        m
    } else {
        let m1 = spec_apply_to(m, inputs, a - 1);
        match inputs[a - 1].1 {
            SnakePlayerInput::ChangeDirection(d) => spec_change_direction(m1, inputs[a - 1].0, d),
        }
    }
}

/// One head advance for entry `j`, against the board as earlier entries of
/// the same pass left it: onto an empty cell the worm moves (tail trimmed),
/// onto food it moves and grows, into a wall or a worm it dies where it
/// stands — nothing is mutated beyond the event; the whole body, tail
/// included, is cleared during death resolution.
pub open spec fn spec_move_step(m: GameModel, j: int) -> (GameModel, Seq<SnakeGameEvent>) {
    let entry = m.players[j];
    let body = entry.1;
    let head = body.last();
    match m.at(head) {
        Tile::WormSegment { pid, dir } => {
            let dest = Coord {
                x: (head.x + dir.dx()) as isize,
                y: (head.y + dir.dy()) as isize,
            };
            match m.at(dest) {
                Tile::Empty => {
                    let body1 = body.push(dest);
                    let tiles1 = m.tiles.update(m.idx(dest), Tile::WormSegment { pid, dir });
                    let tiles2 = tiles1.update(m.idx(body1[0]), Tile::Empty);
                    let body2 = body1.subrange(1, body1.len() as int);
                    (
                        GameModel {
                            tiles: tiles2,
                            players: m.players.update(j, (entry.0, body2)),
                            ..m
                        },
                        Seq::<SnakeGameEvent>::empty(),
                    )
                },
                Tile::Wall => (
                    m,
                    seq![
                        SnakeGameEvent::PlayerDied(pid, crate::board::DEATH_FOOD_PROB_WALL),
                    ],
                ),
                Tile::WormSegment { .. } => (
                    m,
                    seq![
                        SnakeGameEvent::PlayerDied(pid, crate::board::DEATH_FOOD_PROB_COLLISION),
                    ],
                ),
                Tile::Food => {
                    let body1 = body.push(dest);
                    let tiles1 = m.tiles.update(m.idx(dest), Tile::WormSegment { pid, dir });
                    (
                        GameModel {
                            tiles: tiles1,
                            players: m.players.update(j, (entry.0, body1)),
                            ..m
                        },
                        seq![SnakeGameEvent::PlayerAteFood(pid, dest)],
                    )
                },
            }
        },
        _ => (m, Seq::<SnakeGameEvent>::empty()),
    }
}

/// Advancing the first `j` player entries, in ascending id order,
/// concatenating their events.
pub open spec fn spec_advance_to(m: GameModel, j: int) -> (GameModel, Seq<SnakeGameEvent>)
    decreases j,
{
    if j <= 0 {
        (m, Seq::<SnakeGameEvent>::empty())
    } else {
        let r1 = spec_advance_to(m, j - 1);
        let r2 = spec_move_step(r1.0, j - 1);
        (r2.0, r1.1 + r2.1)
    }
}

/// The tiles after clearing the first `k` cells of a dead worm's body:
/// food where the stream word drawn for the cell falls below the weight,
/// empty otherwise.
pub open spec fn spec_cleared_tiles(
    tiles: Seq<Tile>,
    w: int,
    body: Seq<Coord>,
    seed: Seq<u8>,
    p0: u128,
    prob: u32,
    k: int,
) -> Seq<Tile>
    decreases k,
{
    if k <= 0 {
        tiles
    } else {
        spec_cleared_tiles(tiles, w, body, seed, p0, prob, k - 1).update(
            body[k - 1].y * w + body[k - 1].x,
            crate::game::spec_death_tile(seed, p0, prob, k - 1),
        )
    }
}

/// How many of the first `k` cleared cells convert to food.
pub open spec fn spec_death_food_count(seed: Seq<u8>, p0: u128, prob: u32, k: int) -> int
    decreases k,
{
    if k <= 0 {
        0
    } else {
        spec_death_food_count(seed, p0, prob, k - 1) + (if chacha_word(seed, pos_plus(p0, k - 1))
            < prob {
            1int
        } else {
            0int
        })
    }
}

/// Removing a player: its entry leaves the list, each of its cells is
/// cleared with one stream word drawn per cell, and the food count grows by
/// the cells that converted.
pub open spec fn spec_remove_player(m: GameModel, pid: PlayerId, prob: u32) -> GameModel {
    if !mhas_pid(m.players, pid) {
        m
    } else {
        let i = mindex_of_pid(m.players, pid);
        let body = m.players[i].1;
        GameModel {
            tiles: spec_cleared_tiles(
                m.tiles,
                m.width,
                body,
                m.seed,
                m.cursor,
                prob,
                body.len() as int,
            ),
            players: m.players.remove(i),
            num_foods: m.num_foods + spec_death_food_count(
                m.seed,
                m.cursor,
                prob,
                body.len() as int,
            ),
            cursor: pos_plus(m.cursor, body.len() as int),
            ..m
        }
    }
}

/// Resolving the first `a` events in order: each death removes the dead
/// worm; each meal is deducted from the food count.
pub open spec fn spec_resolve_to(m: GameModel, evs: Seq<SnakeGameEvent>, a: int) -> GameModel
    decreases a,
{
    if a <= 0 {
        m
    } else {
        let m1 = spec_resolve_to(m, evs, a - 1);
        match evs[a - 1] {
            SnakeGameEvent::PlayerDied(pid, prob) => spec_remove_player(m1, pid, prob),
            SnakeGameEvent::PlayerAteFood(..) => GameModel { num_foods: m1.num_foods - 1, ..m1 },
        }
    }
}

/// The first empty cell at or after `(x, y)` in row-major order.
pub open spec fn spec_first_empty_at(
    tiles: Seq<Tile>,
    w: int,
    h: int,
    x: int,
    y: int,
) -> Option<Coord>
    decreases h - y, w - x + 1,
{
    if y >= h {
        Option::None
    } else if x >= w {
        spec_first_empty_at(tiles, w, h, 0, y + 1)
    } else if tiles[y * w + x] is Empty {
        Option::Some(Coord { x: x as isize, y: y as isize })
    } else {
        spec_first_empty_at(tiles, w, h, x + 1, y)
    }
}

/// The cell a spawn lands on and the cursor afterwards: random cells are
/// sampled (two words each) until an empty one is hit; with the fuel spent,
/// the first empty cell in row-major order is taken without a draw.
pub open spec fn spec_sample_cell(
    tiles: Seq<Tile>,
    w: int,
    h: int,
    seed: Seq<u8>,
    cur: u128,
    fuel: int,
) -> (Coord, u128)
    decreases fuel,
{
    if fuel <= 0 {
        match spec_first_empty_at(tiles, w, h, 0, 0) {
            Option::Some(c) => (c, cur),
            Option::None => (Coord { x: 0, y: 0 }, cur),
        }
    } else {
        let cx = chacha_word(seed, cur) as int % w;
        let cy = chacha_word(seed, pos_plus(cur, 1)) as int % h;
        let c = Coord { x: cx as isize, y: cy as isize };
        let cur2 = pos_plus(cur, 2);
        if tiles[cy * w + cx] is Empty {
            (c, cur2)
        } else {
            spec_sample_cell(tiles, w, h, seed, cur2, fuel - 1)
        }
    }
}

/// Placing one food: the sampled empty cell becomes `Food`.
pub open spec fn spec_spawn_food(m: GameModel) -> GameModel {
    let r = spec_sample_cell(
        m.tiles,
        m.width,
        m.height,
        m.seed,
        m.cursor,
        SPAWN_SAMPLE_ATTEMPTS as int,
    );
    GameModel {
        tiles: m.tiles.update(m.idx(r.0), Tile::Food),
        num_foods: m.num_foods + 1,
        cursor: r.1,
        ..m
    }
}

/// The sorted position a fresh id is inserted at: after every entry with a
/// smaller id.
pub open spec fn spec_insert_pos(ps: Seq<(PlayerId, Seq<Coord>)>, pid: PlayerId, k: int) -> int
    decreases ps.len() - k,
{
    if k >= ps.len() || ps[k].0.0 >= pid.0 {
        k
    } else {
        spec_insert_pos(ps, pid, k + 1)
    }
}

/// Spawning a player: one word picks the facing, the next words sample an
/// empty cell, and the single-segment worm is inserted at its sorted
/// position.
pub open spec fn spec_spawn_player(m: GameModel, pid: PlayerId) -> GameModel {
    let d = Direction::spec_from_u32(chacha_word(m.seed, m.cursor));
    let r = spec_sample_cell(
        m.tiles,
        m.width,
        m.height,
        m.seed,
        pos_plus(m.cursor, 1),
        SPAWN_SAMPLE_ATTEMPTS as int,
    );
    let i = spec_insert_pos(m.players, pid, 0);
    GameModel {
        tiles: m.tiles.update(m.idx(r.0), Tile::WormSegment { pid, dir: d }),
        players: m.players.insert(i, (pid, seq![r.0])),
        cursor: r.1,
        ..m
    }
}

/// Replenishing food up to the target, one spawn at a time; a board with no
/// empty cell left stops the replenishment short.
pub open spec fn spec_replenish(m: GameModel) -> GameModel
    decreases m.food_target() - m.num_foods,
{
    if m.num_foods >= m.food_target() {
        m
    } else if spec_first_empty_at(m.tiles, m.width, m.height, 0, 0) is None {
        m
    } else {
        spec_replenish(spec_spawn_food(m))
    }
}

/// One full tick as a pure function of the state and the inputs: advance
/// the clock, apply the inputs, move every worm in ascending id order,
/// resolve the events, replenish food.
pub open spec fn spec_tick(m: GameModel, inputs: Seq<(PlayerId, SnakePlayerInput)>) -> (
    GameModel,
    Seq<SnakeGameEvent>,
) {
    let m0 = GameModel { tick: (m.tick + 1) as u64, ..m };
    let m1 = spec_apply_to(m0, inputs, inputs.len() as int);
    let r = spec_advance_to(m1, m1.players.len() as int);
    let m3 = spec_resolve_to(r.0, r.1, r.1.len() as int);
    let m4 = spec_replenish(m3);
    (m4, r.1)
}

/// The tile sequence of a fresh walled board: the outermost ring is wall,
/// the interior empty.
pub open spec fn spec_wall_ring_tiles(w: int, h: int) -> Seq<Tile> {
    Seq::new(
        (w * h) as nat,
        |i: int|
            if i % w == 0 || i / w == 0 || i % w == w - 1 || i / w == h - 1 {
                Tile::Wall
            } else {
                Tile::Empty
            },
    )
}

/// The fresh game every session starts from: the fixed seed at cursor zero,
/// clock zero, a 40 by 30 walled board, no players and no food.
pub open spec fn spec_new_game() -> GameModel {
    GameModel {
        seed: crate::serializable_chacha::seed_of_u64(0xdeadbeefdeadbeef),
        cursor: 0,
        tick: 0,
        width: 40,
        height: 30,
        tiles: spec_wall_ring_tiles(40, 30),
        players: Seq::<(PlayerId, Seq<Coord>)>::empty(),
        num_foods: 0,
    }
}

/// Law: the tick transition is a function of the state value and the
/// inputs alone. Two states with equal models, given equal input
/// sequences, produce equal models and equal event lists — and hence, by
/// induction over a shared schedule, identical boards, bodies and events
/// at every step.
pub proof fn lemma_replay_deterministic(
    a: GameModel,
    b: GameModel,
    inputs: Seq<(PlayerId, SnakePlayerInput)>,
)
    requires
        a == b,
    ensures
        spec_tick(a, inputs) == spec_tick(b, inputs),
{
}

/// With weight zero no cleared cell converts to food.
pub proof fn lemma_death_food_count_zero(seed: Seq<u8>, p0: u128, k: int)
    ensures
        spec_death_food_count(seed, p0, 0, k) == 0,
    decreases k,
{
    if k > 0 {
        lemma_death_food_count_zero(seed, p0, k - 1);
    }
}

} // verus!
