//! The authoritative simulation: the aggregate game state and its per-tick
//! transition, with the body/tile consistency invariant every operation
//! preserves.

use vstd::prelude::*;
use crate::geom::{coord, Coord, Direction};
use crate::messages::{PlayerId, SnakeGameEvent, SnakePlayerInput};
use crate::board::{
    count_food, lemma_count_food_bounds, lemma_count_food_none, lemma_count_food_update,
    lemma_grid_index_bounds, lemma_grid_index_injective, Board, Tile,
};
use crate::serializable_chacha::{
    chacha_word, lemma_pos_plus_assoc, pos_plus, SerializableChaCha20,
};
use crate::model::{
    mhas_pid, mindex_of_pid, spec_apply_to, spec_change_direction, spec_cleared_tiles,
    spec_death_food_count, spec_first_empty_at, spec_insert_pos, spec_move_step,
    spec_remove_player, spec_replenish, spec_resolve_to, spec_sample_cell, spec_spawn_food,
    spec_spawn_player, spec_tick, spec_advance_to, spec_new_game,
    spec_wall_ring_tiles, GameModel, SPAWN_SAMPLE_ATTEMPTS,
};

verus! {

/// The aggregate simulation state: generator, tick counter, board, the
/// per-player body queues (tail first, head last) keyed by ascending player
/// id, and the outstanding food count.
#[derive(Clone, Debug, PartialEq)]
pub struct SnakeGameState {
    pub rng: SerializableChaCha20,
    pub tick: u64,
    pub board: Board,
    pub player_segments: Vec<(PlayerId, Vec<Coord>)>,
    pub num_foods: u64,
}

/// Player entries are keyed by strictly ascending id: the load-bearing
/// iteration order of the per-tick movement.
pub open spec fn sorted_pids(ps: Seq<(PlayerId, Vec<Coord>)>) -> bool {
    forall|i: int, j: int|
        0 <= i < j < ps.len() ==> (#[trigger] ps[i]).0.0 < (#[trigger] ps[j]).0.0
}

/// Whether some entry carries `pid`.
pub open spec fn has_pid(ps: Seq<(PlayerId, Vec<Coord>)>, pid: PlayerId) -> bool {
    exists|i: int| 0 <= i < ps.len() && (#[trigger] ps[i]).0 == pid
}

/// The index of the entry carrying `pid`.
pub open spec fn index_of_pid(ps: Seq<(PlayerId, Vec<Coord>)>, pid: PlayerId) -> int {
    choose|i: int| 0 <= i < ps.len() && (#[trigger] ps[i]).0 == pid
}

/// The body of the player `pid`, oldest (tail) first.
pub open spec fn body_of_pid(ps: Seq<(PlayerId, Vec<Coord>)>, pid: PlayerId) -> Seq<Coord> {
    ps[index_of_pid(ps, pid)].1@
}

/// With sorted ids, entry `i` is found at index `i` and nowhere else.
pub proof fn lemma_pid_lookup(ps: Seq<(PlayerId, Vec<Coord>)>, i: int)
    requires
        sorted_pids(ps),
        0 <= i < ps.len(),
    ensures
        has_pid(ps, ps[i].0),
        index_of_pid(ps, ps[i].0) == i,
        body_of_pid(ps, ps[i].0) == ps[i].1@,
{
    let pid = ps[i].0;
    assert(has_pid(ps, pid));
    let j = index_of_pid(ps, pid);
    assert(0 <= j < ps.len() && ps[j].0 == pid);
    if i < j {
        assert(ps[i].0.0 < ps[j].0.0);
    } else if j < i {
        assert(ps[j].0.0 < ps[i].0.0);
    }
}

/// The entry that `has_pid` promises is well defined.
pub proof fn lemma_pid_found(ps: Seq<(PlayerId, Vec<Coord>)>, pid: PlayerId)
    requires
        has_pid(ps, pid),
    ensures
        0 <= index_of_pid(ps, pid) < ps.len(),
        ps[index_of_pid(ps, pid)].0 == pid,
        ps[index_of_pid(ps, pid)].1@ == body_of_pid(ps, pid),
{
    let i = choose|i: int| 0 <= i < ps.len() && (#[trigger] ps[i]).0 == pid;
    assert(0 <= i < ps.len() && ps[i].0 == pid);
}

/// Body `i` is well formed against board `b`: nonempty, each cell interior
/// and holding a worm segment owned by the entry's player, no cell repeated,
/// and each stored facing stepping exactly onto the next cell.
pub open spec fn body_ok(b: Board, ps: Seq<(PlayerId, Vec<Coord>)>, i: int) -> bool {
    let pid = ps[i].0;
    let body = ps[i].1@;
    &&& body.len() >= 1
    &&& forall|k: int|
        0 <= k < body.len() ==> b.in_bounds(#[trigger] body[k]) && !b.on_border(body[k])
            && b.tile_at(body[k]) is WormSegment && b.tile_at(body[k]).seg_pid() == pid
    &&& forall|k1: int, k2: int|
        0 <= k1 < k2 < body.len() ==> (#[trigger] body[k1]) != (#[trigger] body[k2])
    &&& forall|k: int|
        #![trigger body[k], body[k + 1]]
        0 <= k < body.len() - 1 ==> body[k + 1].x == body[k].x + b.tile_at(
            body[k],
        ).seg_dir().dx() && body[k + 1].y == body[k].y + b.tile_at(body[k]).seg_dir().dy()
}

/// Every worm-segment tile is owned: its player exists and lists that cell
/// in its body.
pub open spec fn tiles_owned(b: Board, ps: Seq<(PlayerId, Vec<Coord>)>) -> bool {
    forall|x: int, y: int|
        b.in_bounds_xy(x, y) && (#[trigger] b.at(x, y)) is WormSegment ==> has_pid(
            ps,
            b.at(x, y).seg_pid(),
        ) && body_of_pid(ps, b.at(x, y).seg_pid()).contains(
            (Coord { x: x as isize, y: y as isize }),
        )
}

/// The body/tile consistency invariant: a well-formed walled board, sorted
/// player entries, each body well formed, and every segment tile owned.
pub open spec fn consistent_with(b: Board, ps: Seq<(PlayerId, Vec<Coord>)>) -> bool {
    &&& b.wf()
    &&& b.walled()
    &&& sorted_pids(ps)
    &&& forall|i: int| 0 <= i < ps.len() ==> #[trigger] body_ok(b, ps, i)
    &&& tiles_owned(b, ps)
}

/// What a vacated cell becomes when a body is cleared: food exactly when the
/// stream word drawn for it falls below the carried probability weight.
pub open spec fn spec_death_tile(seed: Seq<u8>, p0: u128, prob: u32, k: int) -> Tile {
    if chacha_word(seed, pos_plus(p0, k)) < prob {
        Tile::Food
    } else {
        Tile::Empty
    }
}

impl SnakeGameState {
    /// The player entries as a sequence.
    pub open spec fn players(self) -> Seq<(PlayerId, Vec<Coord>)> {
        self.player_segments@
    }

    /// Whether `pid` is currently alive.
    pub open spec fn has_player(self, pid: PlayerId) -> bool {
        has_pid(self.players(), pid)
    }

    /// The body of player `pid`, oldest (tail) first.
    pub open spec fn body_of(self, pid: PlayerId) -> Seq<Coord> {
        body_of_pid(self.players(), pid)
    }

    /// The stored facing of player `pid`: the direction on its head tile.
    pub open spec fn facing(self, pid: PlayerId) -> Direction {
        self.board.tile_at(self.body_of(pid).last()).seg_dir()
    }

    /// The stored facing of the player at entry `i`.
    pub open spec fn facing_idx(self, i: int) -> Direction {
        self.board.tile_at(self.players()[i].1@.last()).seg_dir()
    }

    /// Body/tile consistency of this state.
    pub open spec fn consistent(self) -> bool {
        consistent_with(self.board, self.players())
    }

    /// Full well-formedness: consistency, plus the food count bookkeeping
    /// agreeing with the board.
    pub open spec fn wf(self) -> bool {
        &&& self.consistent()
        &&& self.num_foods == count_food(self.board.tiles@)
    }

    /// The state's mathematical value: what the tick transition is a pure
    /// function of.
    pub open spec fn model(self) -> GameModel {
        GameModel {
            seed: self.rng.seed@,
            cursor: self.rng.word_pos,
            tick: self.tick,
            width: self.board.width as int,
            height: self.board.height as int,
            tiles: self.board.tiles@,
            players: model_players(self.player_segments@),
            num_foods: self.num_foods as int,
        }
    }
}

/// The model view of the player entries: each body as its sequence.
pub open spec fn model_players(ps: Seq<(PlayerId, Vec<Coord>)>) -> Seq<(PlayerId, Seq<Coord>)> {
    ps.map(|i: int, e: (PlayerId, Vec<Coord>)| (e.0, e.1@))
}

/// The model view looks up players exactly as the entry list does.
pub proof fn lemma_model_lookup(ps: Seq<(PlayerId, Vec<Coord>)>, pid: PlayerId)
    requires
        sorted_pids(ps),
    ensures
        mhas_pid(model_players(ps), pid) <==> has_pid(ps, pid),
        has_pid(ps, pid) ==> mindex_of_pid(model_players(ps), pid) == index_of_pid(ps, pid),
{
    let mps = model_players(ps);
    assert(mps.len() == ps.len());
    if has_pid(ps, pid) {
        lemma_pid_found(ps, pid);
        let i = index_of_pid(ps, pid);
        assert(mps[i].0 == pid);
        assert(mhas_pid(mps, pid));
        let j = mindex_of_pid(mps, pid);
        assert(0 <= j < mps.len() && mps[j].0 == pid);
        assert(ps[j].0 == pid);
        lemma_pid_lookup(ps, j);
    }
    if mhas_pid(mps, pid) {
        let j = choose|j: int| 0 <= j < mps.len() && (#[trigger] mps[j]).0 == pid;
        assert(ps[j].0 == pid);
        assert(has_pid(ps, pid));
    }
}

/// The model view commutes with replacing one entry.
pub proof fn lemma_model_players_update(
    ps: Seq<(PlayerId, Vec<Coord>)>,
    j: int,
    e: (PlayerId, Vec<Coord>),
)
    requires
        0 <= j < ps.len(),
    ensures
        model_players(ps.update(j, e)) == model_players(ps).update(j, (e.0, e.1@)),
{
    assert(model_players(ps.update(j, e)) =~= model_players(ps).update(j, (e.0, e.1@)));
}

/// The model view commutes with removing one entry.
pub proof fn lemma_model_players_remove(ps: Seq<(PlayerId, Vec<Coord>)>, j: int)
    requires
        0 <= j < ps.len(),
    ensures
        model_players(ps.remove(j)) == model_players(ps).remove(j),
{
    assert(model_players(ps.remove(j)) =~= model_players(ps).remove(j));
}

/// The model view commutes with inserting one entry.
pub proof fn lemma_model_players_insert(
    ps: Seq<(PlayerId, Vec<Coord>)>,
    j: int,
    e: (PlayerId, Vec<Coord>),
)
    requires
        0 <= j <= ps.len(),
    ensures
        model_players(ps.insert(j, e)) == model_players(ps).insert(j, (e.0, e.1@)),
{
    assert(model_players(ps.insert(j, e)) =~= model_players(ps).insert(j, (e.0, e.1@)));
}

/// A sequence of distinct on-board cells has no more entries than the board
/// has tiles.
pub proof fn lemma_distinct_cells_bound(b: Board, cells: Seq<Coord>)
    requires
        b.wf(),
        forall|k: int| 0 <= k < cells.len() ==> b.in_bounds(#[trigger] cells[k]),
        forall|k1: int, k2: int|
            0 <= k1 < k2 < cells.len() ==> (#[trigger] cells[k1]) != (#[trigger] cells[k2]),
    ensures
        cells.len() <= b.tiles@.len(),
{
    broadcast use vstd::set::group_set_axioms;

    let w = b.width as int;
    let h = b.height as int;
    let n = b.tiles@.len() as int;
    let idxs = cells.map(|k: int, c: Coord| c.y * w + c.x);
    assert forall|k: int| 0 <= k < idxs.len() implies 0 <= #[trigger] idxs[k] < n by {
        lemma_grid_index_bounds(w, h, cells[k].x as int, cells[k].y as int);
    }
    assert(idxs.no_duplicates()) by {
        assert forall|k1: int, k2: int|
            0 <= k1 < idxs.len() && 0 <= k2 < idxs.len() && k1 != k2 implies #[trigger] idxs[k1]
            != #[trigger] idxs[k2] by {
            lemma_grid_index_injective(
                w,
                h,
                cells[k1].x as int,
                cells[k1].y as int,
                cells[k2].x as int,
                cells[k2].y as int,
            );
        }
    }
    idxs.unique_seq_to_set();
    vstd::set_lib::lemma_int_range(0, n);
    assert(idxs.to_set().subset_of(vstd::set_lib::set_int_range(0, n))) by {
        assert forall|e: int| idxs.to_set().contains(e) implies vstd::set_lib::set_int_range(
            0,
            n,
        ).contains(e) by {
            let k = choose|k: int| 0 <= k < idxs.len() && idxs[k] == e;
            assert(0 <= idxs[k] < n);
        }
    }
    vstd::set_lib::lemma_len_subset(idxs.to_set(), vstd::set_lib::set_int_range(0, n));
}

/// A consistent state has no more players than the board has tiles: each
/// player owns at least its distinct head cell.
pub proof fn lemma_players_bound(b: Board, ps: Seq<(PlayerId, Vec<Coord>)>)
    requires
        consistent_with(b, ps),
    ensures
        ps.len() <= b.tiles@.len(),
{
    let heads = Seq::new(ps.len(), |j: int| ps[j].1@.last());
    assert forall|k: int| 0 <= k < heads.len() implies b.in_bounds(#[trigger] heads[k]) by {
        assert(body_ok(b, ps, k));
        assert(b.in_bounds(ps[k].1@[ps[k].1@.len() - 1]));
    }
    assert forall|k1: int, k2: int|
        0 <= k1 < k2 < heads.len() implies (#[trigger] heads[k1]) != (#[trigger] heads[k2]) by {
        assert(body_ok(b, ps, k1));
        assert(body_ok(b, ps, k2));
        let c1 = ps[k1].1@[ps[k1].1@.len() - 1];
        let c2 = ps[k2].1@[ps[k2].1@.len() - 1];
        assert(b.tile_at(c1).seg_pid() == ps[k1].0);
        assert(b.tile_at(c2).seg_pid() == ps[k2].0);
        assert(ps[k1].0.0 < ps[k2].0.0);
    }
    lemma_distinct_cells_bound(b, heads);
}

/// Whether one of the first `j` body cells is the grid position `(x, y)`.
pub open spec fn prefix_contains(body: Seq<Coord>, j: int, x: int, y: int) -> bool {
    exists|k: int| 0 <= k < j && (#[trigger] body[k]).x == x && body[k].y == y
}

/// Removing entry `i` keeps the list sorted, drops exactly that player, and
/// leaves every other player's entry intact.
pub proof fn lemma_remove_entry(ps: Seq<(PlayerId, Vec<Coord>)>, i: int)
    requires
        sorted_pids(ps),
        0 <= i < ps.len(),
    ensures
        sorted_pids(ps.remove(i)),
        !has_pid(ps.remove(i), ps[i].0),
        forall|p2: PlayerId|
            has_pid(ps, p2) && p2 != ps[i].0 ==> #[trigger] has_pid(ps.remove(i), p2)
                && body_of_pid(ps.remove(i), p2) == body_of_pid(ps, p2),
        forall|p2: PlayerId|
            #[trigger] has_pid(ps.remove(i), p2) ==> has_pid(ps, p2) && p2 != ps[i].0,
{
    let ps2 = ps.remove(i);
    assert forall|a: int, b: int| 0 <= a < b < ps2.len() implies (#[trigger] ps2[a]).0.0 < (
    #[trigger] ps2[b]).0.0 by {
        let a0 = if a < i {
            a
        } else {
            a + 1
        };
        let b0 = if b < i {
            b
        } else {
            b + 1
        };
        assert(ps2[a] == ps[a0] && ps2[b] == ps[b0]);
        assert(ps[a0].0.0 < ps[b0].0.0);
    }
    assert(!has_pid(ps2, ps[i].0)) by {
        if has_pid(ps2, ps[i].0) {
            let j = choose|j: int| 0 <= j < ps2.len() && (#[trigger] ps2[j]).0 == ps[i].0;
            let j0 = if j < i {
                j
            } else {
                j + 1
            };
            assert(ps[j0].0 == ps[i].0);
            lemma_pid_lookup(ps, j0);
            lemma_pid_lookup(ps, i);
        }
    }
    assert forall|p2: PlayerId| has_pid(ps, p2) && p2 != ps[i].0 implies #[trigger] has_pid(
        ps2,
        p2,
    ) && body_of_pid(ps2, p2) == body_of_pid(ps, p2) by {
        lemma_pid_found(ps, p2);
        let j0 = index_of_pid(ps, p2);
        let j = if j0 < i {
            j0
        } else {
            j0 - 1
        };
        assert(ps2[j] == ps[j0]);
        assert(has_pid(ps2, p2));
        lemma_pid_lookup(ps2, j);
    }
    assert forall|p2: PlayerId| #[trigger] has_pid(ps2, p2) implies has_pid(ps, p2) && p2
        != ps[i].0 by {
        lemma_pid_found(ps2, p2);
        let j = index_of_pid(ps2, p2);
        let j0 = if j < i {
            j
        } else {
            j + 1
        };
        assert(ps2[j] == ps[j0]);
        assert(has_pid(ps, p2));
    }
}

/// Inserting an entry at its sorted position keeps the list sorted, adds
/// exactly that player, and leaves every other player's entry intact.
pub proof fn lemma_insert_entry(ps: Seq<(PlayerId, Vec<Coord>)>, i: int, entry: (PlayerId, Vec<
    Coord,
>))
    requires
        sorted_pids(ps),
        0 <= i <= ps.len(),
        forall|t: int| 0 <= t < i ==> (#[trigger] ps[t]).0.0 < entry.0.0,
        forall|t: int| i <= t < ps.len() ==> entry.0.0 < (#[trigger] ps[t]).0.0,
    ensures
        sorted_pids(ps.insert(i, entry)),
        has_pid(ps.insert(i, entry), entry.0),
        index_of_pid(ps.insert(i, entry), entry.0) == i,
        body_of_pid(ps.insert(i, entry), entry.0) == entry.1@,
        forall|p2: PlayerId|
            has_pid(ps, p2) ==> #[trigger] has_pid(ps.insert(i, entry), p2) && body_of_pid(
                ps.insert(i, entry),
                p2,
            ) == body_of_pid(ps, p2),
        forall|p2: PlayerId|
            #[trigger] has_pid(ps.insert(i, entry), p2) ==> p2 == entry.0 || has_pid(ps, p2),
{
    let ps2 = ps.insert(i, entry);
    assert(ps2[i] == entry);
    assert forall|a: int, b: int| 0 <= a < b < ps2.len() implies (#[trigger] ps2[a]).0.0 < (
    #[trigger] ps2[b]).0.0 by {
        if a < i && b < i {
            assert(ps2[a] == ps[a] && ps2[b] == ps[b]);
        } else if a < i && b == i {
            assert(ps2[a] == ps[a]);
        } else if a < i && b > i {
            assert(ps2[a] == ps[a] && ps2[b] == ps[b - 1]);
            assert(ps[a].0.0 < entry.0.0 && entry.0.0 < ps[b - 1].0.0);
        } else if a == i {
            assert(ps2[b] == ps[b - 1]);
        } else {
            assert(ps2[a] == ps[a - 1] && ps2[b] == ps[b - 1]);
        }
    }
    lemma_pid_lookup(ps2, i);
    assert forall|p2: PlayerId| has_pid(ps, p2) implies #[trigger] has_pid(ps2, p2)
        && body_of_pid(ps2, p2) == body_of_pid(ps, p2) by {
        lemma_pid_found(ps, p2);
        let j0 = index_of_pid(ps, p2);
        let j = if j0 < i {
            j0
        } else {
            j0 + 1
        };
        assert(ps2[j] == ps[j0]);
        assert(has_pid(ps2, p2));
        lemma_pid_lookup(ps2, j);
        lemma_pid_lookup(ps, j0);
    }
    assert forall|p2: PlayerId| #[trigger] has_pid(ps2, p2) implies p2 == entry.0 || has_pid(
        ps,
        p2,
    ) by {
        lemma_pid_found(ps2, p2);
        let j = index_of_pid(ps2, p2);
        if j != i {
            let j0 = if j < i {
                j
            } else {
                j - 1
            };
            assert(ps2[j] == ps[j0]);
            assert(has_pid(ps, p2));
        }
    }
}

/// The requires shared by the spawn-placement lemmas: a fresh entry for an
/// empty interior cell, bracketed at its sorted position.
pub open spec fn spawn_step(
    b: Board,
    b2: Board,
    ps: Seq<(PlayerId, Vec<Coord>)>,
    ps2: Seq<(PlayerId, Vec<Coord>)>,
    i: int,
    entry: (PlayerId, Vec<Coord>),
    c: Coord,
    d: Direction,
) -> bool {
    &&& consistent_with(b, ps)
    &&& b.in_bounds(c)
    &&& b.tile_at(c) is Empty
    &&& 0 <= i <= ps.len()
    &&& (forall|t: int| 0 <= t < i ==> (#[trigger] ps[t]).0.0 < entry.0.0)
    &&& (forall|t: int| i <= t < ps.len() ==> entry.0.0 < (#[trigger] ps[t]).0.0)
    &&& entry.1@.len() == 1
    &&& entry.1@[0] == c
    &&& ps2 == ps.insert(i, entry)
    &&& b2.width == b.width
    &&& b2.height == b.height
    &&& b2.tiles@ == b.tiles@.update(
        b.idx_xy(c.x as int, c.y as int),
        Tile::WormSegment { pid: entry.0, dir: d },
    )
}

/// Away from the spawned cell the board is unchanged by a spawn.
proof fn lemma_spawn_frame(
    b: Board,
    b2: Board,
    ps: Seq<(PlayerId, Vec<Coord>)>,
    ps2: Seq<(PlayerId, Vec<Coord>)>,
    i: int,
    entry: (PlayerId, Vec<Coord>),
    c: Coord,
    d: Direction,
)
    requires
        spawn_step(b, b2, ps, ps2, i, entry, c, d),
    ensures
        b2.wf(),
        !b.on_border(c),
        b2.at(c.x as int, c.y as int) == (Tile::WormSegment { pid: entry.0, dir: d }),
        forall|x2: int, y2: int|
            b2.in_bounds_xy(x2, y2) && !(x2 == c.x && y2 == c.y) ==> #[trigger] b2.at(x2, y2)
                == b.at(x2, y2),
        b2.walled(),
{
    let w = b.width as int;
    let h = b.height as int;
    lemma_grid_index_bounds(w, h, c.x as int, c.y as int);
    assert(b2.wf());
    assert forall|x2: int, y2: int|
        b2.in_bounds_xy(x2, y2) && !(x2 == c.x && y2 == c.y) implies #[trigger] b2.at(x2, y2)
        == b.at(x2, y2) by {
        lemma_grid_index_bounds(w, h, x2, y2);
        lemma_grid_index_injective(w, h, x2, y2, c.x as int, c.y as int);
    }
}

/// Every body stays well formed across a spawn.
proof fn lemma_spawn_bodies(
    b: Board,
    b2: Board,
    ps: Seq<(PlayerId, Vec<Coord>)>,
    ps2: Seq<(PlayerId, Vec<Coord>)>,
    i: int,
    entry: (PlayerId, Vec<Coord>),
    c: Coord,
    d: Direction,
)
    requires
        spawn_step(b, b2, ps, ps2, i, entry, c, d),
    ensures
        forall|j: int| 0 <= j < ps2.len() ==> #[trigger] body_ok(b2, ps2, j),
{
    lemma_spawn_frame(b, b2, ps, ps2, i, entry, c, d);
    assert forall|j: int| 0 <= j < ps2.len() implies #[trigger] body_ok(b2, ps2, j) by {
        if j == i {
            assert(ps2[j] == entry);
            assert(entry.1@.last() == c);
        } else {
            let j0 = if j < i {
                j
            } else {
                j - 1
            };
            assert(ps2[j] == ps[j0]);
            assert(body_ok(b, ps, j0));
            let body2 = ps2[j].1@;
            assert forall|k2: int| 0 <= k2 < body2.len() implies b2.tile_at(#[trigger] body2[k2])
                == b.tile_at(body2[k2]) by {
                assert(b.tile_at(body2[k2]) is WormSegment);
            }
        }
    }
}

/// Every worm tile stays owned across a spawn.
proof fn lemma_spawn_tiles_owned(
    b: Board,
    b2: Board,
    ps: Seq<(PlayerId, Vec<Coord>)>,
    ps2: Seq<(PlayerId, Vec<Coord>)>,
    i: int,
    entry: (PlayerId, Vec<Coord>),
    c: Coord,
    d: Direction,
)
    requires
        spawn_step(b, b2, ps, ps2, i, entry, c, d),
    ensures
        tiles_owned(b2, ps2),
{
    lemma_spawn_frame(b, b2, ps, ps2, i, entry, c, d);
    lemma_insert_entry(ps, i, entry);
    let cx = c.x as int;
    let cy = c.y as int;
    assert forall|x2: int, y2: int|
        b2.in_bounds_xy(x2, y2) && (#[trigger] b2.at(x2, y2)) is WormSegment implies has_pid(
        ps2,
        b2.at(x2, y2).seg_pid(),
    ) && body_of_pid(ps2, b2.at(x2, y2).seg_pid()).contains(
        (Coord { x: x2 as isize, y: y2 as isize }),
    ) by {
        if x2 == cx && y2 == cy {
            assert(b2.at(x2, y2).seg_pid() == entry.0);
            assert(body_of_pid(ps2, entry.0) == entry.1@);
            assert(entry.1@[0] == c);
            assert((Coord { x: x2 as isize, y: y2 as isize }) == c);
            assert(entry.1@.contains(c));
        } else {
            assert(b2.at(x2, y2) == b.at(x2, y2));
            let p2 = b.at(x2, y2).seg_pid();
            assert(has_pid(ps, p2));
            assert(body_of_pid(ps, p2).contains((Coord { x: x2 as isize, y: y2 as isize })));
            assert(has_pid(ps2, p2));
            assert(body_of_pid(ps2, p2) == body_of_pid(ps, p2));
        }
    }
}

/// Placing a fresh single-segment worm on an empty cell, with its entry
/// inserted at the sorted position, preserves consistency.
pub proof fn lemma_spawn_cell(
    b: Board,
    b2: Board,
    ps: Seq<(PlayerId, Vec<Coord>)>,
    ps2: Seq<(PlayerId, Vec<Coord>)>,
    i: int,
    entry: (PlayerId, Vec<Coord>),
    c: Coord,
    d: Direction,
)
    requires
        spawn_step(b, b2, ps, ps2, i, entry, c, d),
    ensures
        consistent_with(b2, ps2),
{
    lemma_spawn_frame(b, b2, ps, ps2, i, entry, c, d);
    lemma_insert_entry(ps, i, entry);
    lemma_spawn_bodies(b, b2, ps, ps2, i, entry, c, d);
    lemma_spawn_tiles_owned(b, b2, ps, ps2, i, entry, c, d);
}

/// Whether one of the first `a` events is `pid` eating food.
pub open spec fn ate_before(evs: Seq<SnakeGameEvent>, a: int, pid: PlayerId) -> bool {
    exists|b: int|
        0 <= b < a && ((#[trigger] evs[b]) matches SnakeGameEvent::PlayerAteFood(p, _) && p == pid)
}

/// Whether some event is `pid` eating food.
pub open spec fn ate_in(evs: Seq<SnakeGameEvent>, pid: PlayerId) -> bool {
    ate_before(evs, evs.len() as int, pid)
}

/// Whether one of the first `a` events is the death of `pid`.
pub open spec fn died_before(evs: Seq<SnakeGameEvent>, a: int, pid: PlayerId) -> bool {
    exists|b: int|
        0 <= b < a && ((#[trigger] evs[b]) matches SnakeGameEvent::PlayerDied(p, _) && p == pid)
}

/// Whether some event is the death of `pid`.
pub open spec fn died_in(evs: Seq<SnakeGameEvent>, pid: PlayerId) -> bool {
    died_before(evs, evs.len() as int, pid)
}

/// How many of the first `a` events are food events.
pub open spec fn count_ate_to(evs: Seq<SnakeGameEvent>, a: int) -> int
    decreases a,
{
    if a <= 0 {
        0
    } else {
        count_ate_to(evs, a - 1) + (if evs[a - 1] is PlayerAteFood {
            1int
        } else {
            0int
        })
    }
}

/// The food-event count over a prefix reads only that prefix.
pub proof fn lemma_count_ate_to_prefix(evs1: Seq<SnakeGameEvent>, evs2: Seq<SnakeGameEvent>, a: int)
    requires
        forall|b: int| 0 <= b < a ==> evs1[b] == evs2[b],
    ensures
        count_ate_to(evs1, a) == count_ate_to(evs2, a),
    decreases a,
{
    if a > 0 {
        lemma_count_ate_to_prefix(evs1, evs2, a - 1);
    }
}

/// The food-event count over a prefix is at most the prefix length.
pub proof fn lemma_count_ate_to_bounds(evs: Seq<SnakeGameEvent>, a: int)
    ensures
        0 <= count_ate_to(evs, a) <= (if a >= 0 {
            a
        } else {
            0
        }),
    decreases a,
{
    if a > 0 {
        lemma_count_ate_to_bounds(evs, a - 1);
    }
}

/// Inputs are keyed by strictly ascending player id, as a map would be.
pub open spec fn inputs_wf(inputs: Seq<(PlayerId, SnakePlayerInput)>) -> bool {
    forall|i: int, j: int|
        0 <= i < j < inputs.len() ==> (#[trigger] inputs[i]).0.0 < (#[trigger] inputs[j]).0.0
}

/// Whether one of the first `a` inputs belongs to `pid`.
pub open spec fn input_before(
    inputs: Seq<(PlayerId, SnakePlayerInput)>,
    a: int,
    pid: PlayerId,
) -> bool {
    exists|i: int| 0 <= i < a && (#[trigger] inputs[i]).0 == pid
}

/// Whether an input is pending for `pid`.
pub open spec fn has_input(inputs: Seq<(PlayerId, SnakePlayerInput)>, pid: PlayerId) -> bool {
    input_before(inputs, inputs.len() as int, pid)
}

/// The index of the input pending for `pid`.
pub open spec fn index_of_input(inputs: Seq<(PlayerId, SnakePlayerInput)>, pid: PlayerId) -> int {
    choose|i: int| 0 <= i < inputs.len() && (#[trigger] inputs[i]).0 == pid
}

/// The input pending for `pid`.
pub open spec fn input_of(inputs: Seq<(PlayerId, SnakePlayerInput)>, pid: PlayerId) -> SnakePlayerInput {
    inputs[index_of_input(inputs, pid)].1
}

/// The direction the input pending for `pid` requests.
pub open spec fn input_dir(inputs: Seq<(PlayerId, SnakePlayerInput)>, pid: PlayerId) -> Direction {
    match inputs[index_of_input(inputs, pid)].1 {
        SnakePlayerInput::ChangeDirection(d) => d,
    }
}

/// With sorted inputs, the input at index `i` is found there and nowhere
/// else.
pub proof fn lemma_input_lookup(inputs: Seq<(PlayerId, SnakePlayerInput)>, i: int)
    requires
        inputs_wf(inputs),
        0 <= i < inputs.len(),
    ensures
        has_input(inputs, inputs[i].0),
        index_of_input(inputs, inputs[i].0) == i,
{
    let pid = inputs[i].0;
    assert(has_input(inputs, pid));
    let j = index_of_input(inputs, pid);
    assert(0 <= j < inputs.len() && inputs[j].0 == pid);
    if i < j {
        assert(inputs[i].0.0 < inputs[j].0.0);
    } else if j < i {
        assert(inputs[j].0.0 < inputs[i].0.0);
    }
}

/// The input entry that `has_input` promises is well defined.
pub proof fn lemma_input_found(inputs: Seq<(PlayerId, SnakePlayerInput)>, pid: PlayerId)
    requires
        has_input(inputs, pid),
    ensures
        0 <= index_of_input(inputs, pid) < inputs.len(),
        inputs[index_of_input(inputs, pid)].0 == pid,
        input_of(inputs, pid) == inputs[index_of_input(inputs, pid)].1,
{
    let w = choose|i: int| 0 <= i < inputs.len() as int && (#[trigger] inputs[i]).0 == pid;
    assert(0 <= w < inputs.len() && inputs[w].0 == pid);
    let i = choose|i: int| 0 <= i < inputs.len() && (#[trigger] inputs[i]).0 == pid;
    assert(0 <= i < inputs.len() && inputs[i].0 == pid);
}

/// The facing that applying a pending input leaves: the requested direction,
/// unless it is the exact reverse of the current facing or no input is
/// pending.
pub open spec fn applied_facing(
    cur: Direction,
    inputs: Seq<(PlayerId, SnakePlayerInput)>,
    pid: PlayerId,
) -> Direction {
    if has_input(inputs, pid) && input_dir(inputs, pid) != cur.spec_opposite() {
        input_dir(inputs, pid)
    } else {
        cur
    }
}

/// Replacing entry `i`'s body under the same player id keeps the list
/// sorted and leaves every other player's entry intact.
pub proof fn lemma_update_entry(
    ps: Seq<(PlayerId, Vec<Coord>)>,
    ps2: Seq<(PlayerId, Vec<Coord>)>,
    i: int,
)
    requires
        sorted_pids(ps),
        0 <= i < ps.len(),
        ps2.len() == ps.len(),
        ps2[i].0 == ps[i].0,
        forall|t: int| 0 <= t < ps.len() && t != i ==> #[trigger] ps2[t] == ps[t],
    ensures
        sorted_pids(ps2),
        forall|p2: PlayerId| #[trigger] has_pid(ps2, p2) <==> has_pid(ps, p2),
        forall|p2: PlayerId|
            #![trigger body_of_pid(ps2, p2)]
            has_pid(ps, p2) && p2 != ps[i].0 ==> body_of_pid(ps2, p2) == body_of_pid(ps, p2),
        has_pid(ps2, ps[i].0),
        body_of_pid(ps2, ps[i].0) == ps2[i].1@,
{
    assert forall|a: int, b: int| 0 <= a < b < ps2.len() implies (#[trigger] ps2[a]).0.0 < (
    #[trigger] ps2[b]).0.0 by {
        assert(ps2[a].0 == ps[a].0 && ps2[b].0 == ps[b].0);
    }
    assert forall|p2: PlayerId| #[trigger] has_pid(ps2, p2) <==> has_pid(ps, p2) by {
        if has_pid(ps2, p2) {
            let j = choose|j: int| 0 <= j < ps2.len() && (#[trigger] ps2[j]).0 == p2;
            assert(ps[j].0 == p2);
            assert(has_pid(ps, p2));
        }
        if has_pid(ps, p2) {
            let j = choose|j: int| 0 <= j < ps.len() && (#[trigger] ps[j]).0 == p2;
            assert(ps2[j].0 == p2);
            assert(has_pid(ps2, p2));
        }
    }
    assert forall|p2: PlayerId|
        #![trigger body_of_pid(ps2, p2)]
        has_pid(ps, p2) && p2 != ps[i].0 implies body_of_pid(ps2, p2) == body_of_pid(ps, p2) by {
        lemma_pid_found(ps, p2);
        let j = index_of_pid(ps, p2);
        assert(ps2[j] == ps[j]);
        lemma_pid_lookup(ps2, j);
        lemma_pid_lookup(ps, j);
    }
    lemma_pid_lookup(ps2, i);
    assert(ps2[i].0 == ps[i].0);
}

/// The shared shape of one head advance: entry `i`'s head moves onto the
/// cell its stored facing points at, which held no wall and no worm.
pub open spec fn extend_step(
    b: Board,
    b2: Board,
    ps: Seq<(PlayerId, Vec<Coord>)>,
    ps2: Seq<(PlayerId, Vec<Coord>)>,
    i: int,
    dest: Coord,
) -> bool {
    let pid = ps[i].0;
    let body = ps[i].1@;
    let head = body.last();
    let d = b.tile_at(head).seg_dir();
    &&& consistent_with(b, ps)
    &&& 0 <= i < ps.len()
    &&& dest.x == head.x + d.dx()
    &&& dest.y == head.y + d.dy()
    &&& b.in_bounds(dest)
    &&& (b.tile_at(dest) is Empty || b.tile_at(dest) is Food)
    &&& b2.width == b.width
    &&& b2.height == b.height
    &&& b2.tiles@ == b.tiles@.update(
        b.idx_xy(dest.x as int, dest.y as int),
        Tile::WormSegment { pid, dir: d },
    )
    &&& ps2.len() == ps.len()
    &&& (forall|t: int| 0 <= t < ps.len() && t != i ==> #[trigger] ps2[t] == ps[t])
    &&& ps2[i].0 == pid
    &&& ps2[i].1@ == body.push(dest)
}

/// Advancing one head onto a free cell preserves consistency.
pub proof fn lemma_extend_head(
    b: Board,
    b2: Board,
    ps: Seq<(PlayerId, Vec<Coord>)>,
    ps2: Seq<(PlayerId, Vec<Coord>)>,
    i: int,
    dest: Coord,
)
    requires
        extend_step(b, b2, ps, ps2, i, dest),
    ensures
        consistent_with(b2, ps2),
{
    let pid = ps[i].0;
    let body = ps[i].1@;
    let head = body.last();
    let d = b.tile_at(head).seg_dir();
    let w = b.width as int;
    let h = b.height as int;
    let dx = dest.x as int;
    let dy = dest.y as int;
    lemma_grid_index_bounds(w, h, dx, dy);
    lemma_update_entry(ps, ps2, i);
    assert(b2.wf());
    assert(!b.on_border_xy(dx, dy));
    assert forall|x2: int, y2: int|
        b2.in_bounds_xy(x2, y2) && !(x2 == dx && y2 == dy) implies #[trigger] b2.at(x2, y2) == b.at(
        x2,
        y2,
    ) by {
        lemma_grid_index_bounds(w, h, x2, y2);
        lemma_grid_index_injective(w, h, x2, y2, dx, dy);
    }
    assert(b2.at(dx, dy) == (Tile::WormSegment { pid, dir: d }));
    assert(b2.walled());
    assert(body_ok(b, ps, i));
    // The destination held no worm, so it is none of the old body cells.
    assert forall|k: int| 0 <= k < body.len() implies #[trigger] body[k] != dest by {
        assert(b.tile_at(body[k]) is WormSegment);
    }
    assert forall|j: int| 0 <= j < ps2.len() implies #[trigger] body_ok(b2, ps2, j) by {
        assert(body_ok(b, ps, j));
        let body2 = ps2[j].1@;
        let pid2 = ps2[j].0;
        if j == i {
            assert(body2.len() == body.len() + 1);
            assert forall|k: int| 0 <= k < body.len() implies #[trigger] body2[k] == body[k]
                && b2.tile_at(body2[k]) == b.tile_at(body[k]) by {
                assert(body[k] != dest);
            }
            assert(body2[body2.len() - 1] == dest);
            assert(b2.tile_at(dest) == (Tile::WormSegment { pid, dir: d }));
            assert forall|k: int|
                #![trigger body2[k], body2[k + 1]]
                0 <= k < body2.len() - 1 implies body2[k + 1].x == body2[k].x + b2.tile_at(
                body2[k],
            ).seg_dir().dx() && body2[k + 1].y == body2[k].y + b2.tile_at(
                body2[k],
            ).seg_dir().dy() by {
                if k < body.len() - 1 {
                    assert(body2[k] == body[k] && body2[k + 1] == body[k + 1]);
                    assert(b2.tile_at(body2[k]) == b.tile_at(body[k]));
                } else {
                    assert(body2[k] == head && body2[k + 1] == dest);
                    assert(b2.tile_at(head) == b.tile_at(head));
                }
            }
        } else {
            assert(ps2[j] == ps[j]);
            assert(pid2 != pid) by {
                if j < i {
                    assert(ps[j].0.0 < ps[i].0.0);
                } else {
                    assert(ps[i].0.0 < ps[j].0.0);
                }
            }
            assert forall|k: int| 0 <= k < body2.len() implies b2.tile_at(#[trigger] body2[k])
                == b.tile_at(body2[k]) by {
                assert(b.tile_at(body2[k]) is WormSegment);
                assert(body2[k] != dest);
            }
        }
    }
    assert forall|x2: int, y2: int|
        b2.in_bounds_xy(x2, y2) && (#[trigger] b2.at(x2, y2)) is WormSegment implies has_pid(
        ps2,
        b2.at(x2, y2).seg_pid(),
    ) && body_of_pid(ps2, b2.at(x2, y2).seg_pid()).contains(
        (Coord { x: x2 as isize, y: y2 as isize }),
    ) by {
        if x2 == dx && y2 == dy {
            assert(b2.at(x2, y2).seg_pid() == pid);
            assert(has_pid(ps2, pid));
            assert(body_of_pid(ps2, pid) == ps2[i].1@);
            assert((Coord { x: x2 as isize, y: y2 as isize }) == dest);
            assert(ps2[i].1@[ps2[i].1@.len() - 1] == dest);
            assert(ps2[i].1@.contains(dest));
        } else {
            assert(b2.at(x2, y2) == b.at(x2, y2));
            let p2 = b.at(x2, y2).seg_pid();
            let cc = Coord { x: x2 as isize, y: y2 as isize };
            assert(has_pid(ps, p2));
            assert(body_of_pid(ps, p2).contains(cc));
            assert(has_pid(ps2, p2));
            if p2 == pid {
                lemma_pid_lookup(ps, i);
                assert(body_of_pid(ps2, pid) == body.push(dest));
                let k = choose|k: int| 0 <= k < body.len() && #[trigger] body[k] == cc;
                assert(body.push(dest)[k] == cc);
                assert(body.push(dest).contains(cc));
            } else {
                assert(body_of_pid(ps2, p2) == body_of_pid(ps, p2));
            }
        }
    }
}

/// The shared shape of one tail trim: entry `i` loses its oldest cell,
/// which becomes empty.
pub open spec fn trim_step(
    b: Board,
    b2: Board,
    ps: Seq<(PlayerId, Vec<Coord>)>,
    ps2: Seq<(PlayerId, Vec<Coord>)>,
    i: int,
) -> bool {
    let body = ps[i].1@;
    let tail = body[0];
    &&& consistent_with(b, ps)
    &&& 0 <= i < ps.len()
    &&& body.len() >= 2
    &&& b2.width == b.width
    &&& b2.height == b.height
    &&& b2.tiles@ == b.tiles@.update(b.idx_xy(tail.x as int, tail.y as int), Tile::Empty)
    &&& ps2.len() == ps.len()
    &&& (forall|t: int| 0 <= t < ps.len() && t != i ==> #[trigger] ps2[t] == ps[t])
    &&& ps2[i].0 == ps[i].0
    &&& ps2[i].1@ == body.subrange(1, body.len() as int)
}

/// Trimming one tail preserves consistency.
pub proof fn lemma_trim_tail(
    b: Board,
    b2: Board,
    ps: Seq<(PlayerId, Vec<Coord>)>,
    ps2: Seq<(PlayerId, Vec<Coord>)>,
    i: int,
)
    requires
        trim_step(b, b2, ps, ps2, i),
    ensures
        consistent_with(b2, ps2),
{
    let pid = ps[i].0;
    let body = ps[i].1@;
    let tail = body[0];
    let w = b.width as int;
    let h = b.height as int;
    let tx = tail.x as int;
    let ty = tail.y as int;
    assert(body_ok(b, ps, i));
    lemma_grid_index_bounds(w, h, tx, ty);
    lemma_update_entry(ps, ps2, i);
    assert(b2.wf());
    assert(!b.on_border(tail));
    assert forall|x2: int, y2: int|
        b2.in_bounds_xy(x2, y2) && !(x2 == tx && y2 == ty) implies #[trigger] b2.at(x2, y2) == b.at(
        x2,
        y2,
    ) by {
        lemma_grid_index_bounds(w, h, x2, y2);
        lemma_grid_index_injective(w, h, x2, y2, tx, ty);
    }
    assert(b2.at(tx, ty) == Tile::Empty);
    assert(b2.walled());
    assert forall|j: int| 0 <= j < ps2.len() implies #[trigger] body_ok(b2, ps2, j) by {
        assert(body_ok(b, ps, j));
        let body2 = ps2[j].1@;
        let pid2 = ps2[j].0;
        if j == i {
            assert(body2.len() == body.len() - 1);
            assert forall|k: int| 0 <= k < body2.len() implies #[trigger] body2[k] == body[k + 1]
                && body2[k] != tail && b2.tile_at(body2[k]) == b.tile_at(body[k + 1]) by {
                assert(body[0] != body[k + 1]);
            }
            assert forall|k: int|
                #![trigger body2[k], body2[k + 1]]
                0 <= k < body2.len() - 1 implies body2[k + 1].x == body2[k].x + b2.tile_at(
                body2[k],
            ).seg_dir().dx() && body2[k + 1].y == body2[k].y + b2.tile_at(
                body2[k],
            ).seg_dir().dy() by {
                assert(body2[k] == body[k + 1] && body2[k + 1] == body[k + 2]);
                assert(b2.tile_at(body2[k]) == b.tile_at(body[k + 1]));
            }
        } else {
            assert(ps2[j] == ps[j]);
            assert(pid2 != pid) by {
                if j < i {
                    assert(ps[j].0.0 < ps[i].0.0);
                } else {
                    assert(ps[i].0.0 < ps[j].0.0);
                }
            }
            assert forall|k: int| 0 <= k < body2.len() implies b2.tile_at(#[trigger] body2[k])
                == b.tile_at(body2[k]) by {
                assert(b.tile_at(body2[k]).seg_pid() == pid2);
                assert(b.tile_at(tail).seg_pid() == pid);
                assert(body2[k] != tail);
            }
        }
    }
    assert forall|x2: int, y2: int|
        b2.in_bounds_xy(x2, y2) && (#[trigger] b2.at(x2, y2)) is WormSegment implies has_pid(
        ps2,
        b2.at(x2, y2).seg_pid(),
    ) && body_of_pid(ps2, b2.at(x2, y2).seg_pid()).contains(
        (Coord { x: x2 as isize, y: y2 as isize }),
    ) by {
        assert(!(x2 == tx && y2 == ty));
        assert(b2.at(x2, y2) == b.at(x2, y2));
        let p2 = b.at(x2, y2).seg_pid();
        let cc = Coord { x: x2 as isize, y: y2 as isize };
        assert(has_pid(ps, p2));
        assert(body_of_pid(ps, p2).contains(cc));
        assert(has_pid(ps2, p2));
        if p2 == pid {
            lemma_pid_lookup(ps, i);
            assert(body_of_pid(ps2, pid) == body.subrange(1, body.len() as int));
            let k = choose|k: int| 0 <= k < body.len() && #[trigger] body[k] == cc;
            assert(cc != tail);
            assert(k >= 1) by {
                if k == 0 {
                    assert(body[0] == cc);
                }
            }
            assert(body.subrange(1, body.len() as int)[k - 1] == cc);
            assert(body.subrange(1, body.len() as int).contains(cc));
        } else {
            assert(body_of_pid(ps2, p2) == body_of_pid(ps, p2));
        }
    }
}

/// What one movement pass owes player entry `t`: eating grows the body by
/// one, dying leaves the body intact for resolution to clear, anything
/// else leaves its length unchanged, and survivors keep their facing.
pub open spec fn advance_outcome(
    pre: SnakeGameState,
    post: SnakeGameState,
    evs: Seq<SnakeGameEvent>,
    t: int,
) -> bool {
    let pid = pre.players()[t].0;
    let oldlen = pre.players()[t].1@.len();
    let newlen = post.players()[t].1@.len();
    &&& (ate_in(evs, pid) ==> newlen == oldlen + 1)
    &&& (died_in(evs, pid) ==> newlen == oldlen)
    &&& (!ate_in(evs, pid) && !died_in(evs, pid) ==> newlen == oldlen)
    &&& (!died_in(evs, pid) ==> post.facing_idx(t) == pre.facing_idx(t))
}

/// How appending one event changes what the event list says of each player.
pub proof fn lemma_events_push(evs: Seq<SnakeGameEvent>, e: SnakeGameEvent)
    ensures
        forall|pid: PlayerId|
            #![trigger ate_in(evs.push(e), pid)]
            ate_in(evs.push(e), pid) <==> (ate_in(evs, pid) || (e matches
            SnakeGameEvent::PlayerAteFood(p, _) && p == pid)),
        forall|pid: PlayerId|
            #![trigger died_in(evs.push(e), pid)]
            died_in(evs.push(e), pid) <==> (died_in(evs, pid) || (e matches
            SnakeGameEvent::PlayerDied(p, _) && p == pid)),
        count_ate_to(evs.push(e), evs.push(e).len() as int) == count_ate_to(
            evs,
            evs.len() as int,
        ) + (if e is PlayerAteFood {
            1int
        } else {
            0int
        }),
{
    let evs2 = evs.push(e);
    let n = evs.len() as int;
    assert forall|pid: PlayerId|
        #![trigger ate_in(evs2, pid)]
        ate_in(evs2, pid) <==> (ate_in(evs, pid) || (e matches SnakeGameEvent::PlayerAteFood(p, _)
            && p == pid)) by {
        if ate_in(evs2, pid) {
            let b = choose|b: int|
                0 <= b < n + 1 && ((#[trigger] evs2[b]) matches SnakeGameEvent::PlayerAteFood(
                    p,
                    _,
                ) && p == pid);
            if b < n {
                assert(evs2[b] == evs[b]);
                assert(ate_before(evs, n, pid));
            } else {
                assert(evs2[b] == e);
            }
        }
        if ate_in(evs, pid) {
            let b = choose|b: int|
                0 <= b < n && ((#[trigger] evs[b]) matches SnakeGameEvent::PlayerAteFood(p, _)
                    && p == pid);
            assert(evs2[b] == evs[b]);
            assert(ate_before(evs2, n + 1, pid));
        }
        if e matches SnakeGameEvent::PlayerAteFood(p, _) && p == pid {
            assert(evs2[n] == e);
            assert(ate_before(evs2, n + 1, pid));
        }
    }
    assert forall|pid: PlayerId|
        #![trigger died_in(evs2, pid)]
        died_in(evs2, pid) <==> (died_in(evs, pid) || (e matches SnakeGameEvent::PlayerDied(p, _)
            && p == pid)) by {
        if died_in(evs2, pid) {
            let b = choose|b: int|
                0 <= b < n + 1 && ((#[trigger] evs2[b]) matches SnakeGameEvent::PlayerDied(p, _)
                    && p == pid);
            if b < n {
                assert(evs2[b] == evs[b]);
                assert(died_before(evs, n, pid));
            } else {
                assert(evs2[b] == e);
            }
        }
        if died_in(evs, pid) {
            let b = choose|b: int|
                0 <= b < n && ((#[trigger] evs[b]) matches SnakeGameEvent::PlayerDied(p, _) && p
                    == pid);
            assert(evs2[b] == evs[b]);
            assert(died_before(evs2, n + 1, pid));
        }
        if e matches SnakeGameEvent::PlayerDied(p, _) && p == pid {
            assert(evs2[n] == e);
            assert(died_before(evs2, n + 1, pid));
        }
    }
    lemma_count_ate_to_prefix(evs2, evs, n);
    assert(count_ate_to(evs2, n + 1) == count_ate_to(evs2, n) + (if e is PlayerAteFood {
        1int
    } else {
        0int
    }));
}

/// How processing one more event changes which players have died so far.
pub proof fn lemma_died_before_step(evs: Seq<SnakeGameEvent>, a: int)
    requires
        0 <= a < evs.len(),
    ensures
        forall|p2: PlayerId|
            #![trigger died_before(evs, a + 1, p2)]
            died_before(evs, a + 1, p2) <==> (died_before(evs, a, p2) || (evs[a] matches
            SnakeGameEvent::PlayerDied(p, _) && p == p2)),
{
    assert forall|p2: PlayerId|
        #![trigger died_before(evs, a + 1, p2)]
        died_before(evs, a + 1, p2) <==> (died_before(evs, a, p2) || (evs[a] matches
        SnakeGameEvent::PlayerDied(p, _) && p == p2)) by {
        if died_before(evs, a + 1, p2) {
            let b = choose|b: int|
                0 <= b < a + 1 && ((#[trigger] evs[b]) matches SnakeGameEvent::PlayerDied(p, _)
                    && p == p2);
            if b < a {
                assert(died_before(evs, a, p2));
            }
        }
        if died_before(evs, a, p2) {
            let b = choose|b: int|
                0 <= b < a && ((#[trigger] evs[b]) matches SnakeGameEvent::PlayerDied(p, _) && p
                    == p2);
            assert(died_before(evs, a + 1, p2));
        }
        if evs[a] matches SnakeGameEvent::PlayerDied(p, _) && p == p2 {
            assert(died_before(evs, a + 1, p2));
        }
    }
}

/// The food-event count grows with the prefix it reads.
pub proof fn lemma_count_ate_to_mono(evs: Seq<SnakeGameEvent>, a: int, b: int)
    requires
        a <= b,
    ensures
        count_ate_to(evs, a) <= count_ate_to(evs, b),
    decreases b - a,
{
    if a < b {
        lemma_count_ate_to_mono(evs, a, b - 1);
    }
}

/// Whether two states are the same game value: equal generator, clock,
/// board contents, player entries and food count. This is equality up to
/// the identity of the heap allocations holding the vectors.
pub open spec fn same_game(a: SnakeGameState, b: SnakeGameState) -> bool {
    &&& a.rng == b.rng
    &&& a.tick == b.tick
    &&& a.num_foods == b.num_foods
    &&& a.board.width == b.board.width
    &&& a.board.height == b.board.height
    &&& a.board.tiles@ == b.board.tiles@
    &&& a.players().len() == b.players().len()
    &&& forall|t: int|
        0 <= t < a.players().len() ==> (#[trigger] a.players()[t]).0 == b.players()[t].0
            && a.players()[t].1@ == b.players()[t].1@
}

/// Chains the per-phase facts of one tick into per-player conclusions: a
/// surviving player keeps its identity, its length changes exactly with
/// eating, and its facing is the one its input (if any) resolved to.
proof fn tick_player_glue(
    s0: SnakeGameState,
    s1: SnakeGameState,
    s2: SnakeGameState,
    s3: SnakeGameState,
    s4: SnakeGameState,
    evs: Seq<SnakeGameEvent>,
    inputs: Seq<(PlayerId, SnakePlayerInput)>,
    p2: PlayerId,
)
    requires
        s0.has_player(p2),
        !died_in(evs, p2),
        s0.consistent(),
        s1.consistent(),
        s2.consistent(),
        s1.players() == s0.players(),
        forall|p: PlayerId|
            #![trigger s1.facing(p)]
            s0.has_player(p) ==> s1.facing(p) == applied_facing(s0.facing(p), inputs, p),
        s2.players().len() == s1.players().len(),
        forall|t: int|
            0 <= t < s1.players().len() ==> (#[trigger] s2.players()[t]).0 == s1.players()[t].0,
        forall|t: int|
            0 <= t < s1.players().len() ==> #[trigger] advance_outcome(s1, s2, evs, t),
        forall|p: PlayerId|
            s2.has_player(p) && !died_in(evs, p) ==> #[trigger] s3.has_player(p),
        forall|p: PlayerId|
            #![trigger s3.body_of(p)]
            s2.has_player(p) && !died_in(evs, p) ==> s3.body_of(p) == s2.body_of(p),
        forall|p: PlayerId|
            #![trigger s3.facing(p)]
            s2.has_player(p) && !died_in(evs, p) ==> s3.facing(p) == s2.facing(p),
        s4.player_segments == s3.player_segments,
        forall|p: PlayerId|
            #![trigger s4.facing(p)]
            s3.has_player(p) ==> s4.facing(p) == s3.facing(p),
    ensures
        s4.has_player(p2),
        s4.facing(p2) == applied_facing(s0.facing(p2), inputs, p2),
        ate_in(evs, p2) ==> s4.body_of(p2).len() == s0.body_of(p2).len() + 1,
        !ate_in(evs, p2) ==> s4.body_of(p2).len() == s0.body_of(p2).len(),
{
    lemma_pid_found(s0.players(), p2);
    let j = index_of_pid(s0.players(), p2);
    assert(s1.players()[j].0 == p2);
    lemma_pid_lookup(s1.players(), j);
    assert(s1.body_of(p2) == s1.players()[j].1@);
    assert(s0.body_of(p2) == s1.body_of(p2));
    assert(s1.facing(p2) == s1.facing_idx(j));
    assert(advance_outcome(s1, s2, evs, j));
    assert(s2.players()[j].0 == p2);
    lemma_pid_lookup(s2.players(), j);
    assert(s2.body_of(p2) == s2.players()[j].1@);
    assert(s2.has_player(p2));
    assert(s2.facing(p2) == s2.facing_idx(j));
    assert(s2.facing_idx(j) == s1.facing_idx(j));
    if ate_in(evs, p2) {
        assert(s2.body_of(p2).len() == s1.body_of(p2).len() + 1);
    } else {
        assert(s2.body_of(p2).len() == s1.body_of(p2).len());
    }
    assert(s3.has_player(p2));
    assert(s3.body_of(p2) == s2.body_of(p2));
    assert(s3.facing(p2) == s2.facing(p2));
    assert(s4.players() == s3.players());
    assert(s4.has_player(p2));
    assert(s4.body_of(p2) == s3.body_of(p2));
    assert(s4.facing(p2) == s3.facing(p2));
}

/// Consistency reads a board only through its dimensions and tiles.
pub proof fn lemma_consistent_congruence(
    b1: Board,
    b2: Board,
    ps: Seq<(PlayerId, Vec<Coord>)>,
)
    requires
        consistent_with(b1, ps),
        b2.width == b1.width,
        b2.height == b1.height,
        b2.tiles@ == b1.tiles@,
    ensures
        consistent_with(b2, ps),
{
    assert forall|x: int, y: int| b2.in_bounds_xy(x, y) implies #[trigger] b2.at(x, y) == b1.at(
        x,
        y,
    ) by {}
    assert(b2.walled());
    assert forall|j: int| 0 <= j < ps.len() implies #[trigger] body_ok(b2, ps, j) by {
        assert(body_ok(b1, ps, j));
        let body = ps[j].1@;
        assert forall|k: int| 0 <= k < body.len() implies b2.tile_at(#[trigger] body[k])
            == b1.tile_at(body[k]) by {}
    }
    assert forall|x: int, y: int|
        b2.in_bounds_xy(x, y) && (#[trigger] b2.at(x, y)) is WormSegment implies has_pid(
        ps,
        b2.at(x, y).seg_pid(),
    ) && body_of_pid(ps, b2.at(x, y).seg_pid()).contains(
        (Coord { x: x as isize, y: y as isize }),
    ) by {
        assert(b2.at(x, y) == b1.at(x, y));
    }
}

/// Per-player facts stated against the state a spawn started from carry over
/// to the state after placement, since the sampling in between leaves the
/// board and the player list untouched.
#[verifier::rlimit(100)]
#[verifier::spinoff_prover]
proof fn spawn_bridge(
    orig: SnakeGameState,
    mid: SnakeGameState,
    post: SnakeGameState,
    pid: PlayerId,
)
    requires
        mid.board == orig.board,
        mid.player_segments == orig.player_segments,
        forall|p2: PlayerId| mid.has_player(p2) ==> #[trigger] post.has_player(p2),
        forall|p2: PlayerId|
            #![trigger post.body_of(p2)]
            mid.has_player(p2) ==> post.body_of(p2) =~= mid.body_of(p2),
        forall|p2: PlayerId|
            #![trigger post.facing(p2)]
            mid.has_player(p2) ==> post.facing(p2) == mid.facing(p2),
        forall|p2: PlayerId| #[trigger] post.has_player(p2) ==> p2 == pid || mid.has_player(p2),
    ensures
        forall|p2: PlayerId| orig.has_player(p2) ==> #[trigger] post.has_player(p2),
        forall|p2: PlayerId|
            #![trigger post.body_of(p2)]
            orig.has_player(p2) ==> post.body_of(p2) =~= orig.body_of(p2),
        forall|p2: PlayerId|
            #![trigger post.facing(p2)]
            orig.has_player(p2) ==> post.facing(p2) == orig.facing(p2),
        forall|p2: PlayerId| #[trigger] post.has_player(p2) ==> p2 == pid || orig.has_player(p2),
{
    assert(mid.players() == orig.players());
    assert forall|p2: PlayerId| orig.has_player(p2) implies #[trigger] post.has_player(p2)
        && post.body_of(p2) == orig.body_of(p2) && post.facing(p2) == orig.facing(p2) by {
        assert(mid.has_player(p2));
        assert(post.has_player(p2));
        assert(post.body_of(p2) == mid.body_of(p2));
        assert(mid.body_of(p2) == orig.body_of(p2));
        assert(post.facing(p2) == mid.facing(p2));
        assert(mid.facing(p2) == orig.facing(p2));
        assert(post.body_of(p2) == orig.body_of(p2));
        assert(post.facing(p2) == orig.facing(p2));
    }
    assert forall|p2: PlayerId| #[trigger] post.has_player(p2) implies p2 == pid
        || orig.has_player(p2) by {
        if p2 != pid {
            assert(mid.has_player(p2));
            assert(orig.has_player(p2));
        }
    }
}

/// Overwriting a free cell (not wall, not worm) with a non-worm tile
/// preserves consistency against an unchanged player list.
pub proof fn lemma_update_free_cell(
    b: Board,
    b2: Board,
    ps: Seq<(PlayerId, Vec<Coord>)>,
    x: int,
    y: int,
    t: Tile,
)
    requires
        consistent_with(b, ps),
        b.in_bounds_xy(x, y),
        !(b.at(x, y) is WormSegment),
        !(b.at(x, y) is Wall),
        !(t is WormSegment),
        b2.width == b.width,
        b2.height == b.height,
        b2.tiles@ == b.tiles@.update(b.idx_xy(x, y), t),
    ensures
        consistent_with(b2, ps),
{
    let w = b.width as int;
    let h = b.height as int;
    lemma_grid_index_bounds(w, h, x, y);
    assert(b2.wf());
    assert(!b.on_border_xy(x, y));
    assert forall|x2: int, y2: int|
        b2.in_bounds_xy(x2, y2) && !(x2 == x && y2 == y) implies #[trigger] b2.at(x2, y2) == b.at(
        x2,
        y2,
    ) by {
        lemma_grid_index_bounds(w, h, x2, y2);
        lemma_grid_index_bounds(w, h, x, y);
        lemma_grid_index_injective(w, h, x2, y2, x, y);
    }
    assert(b2.at(x, y) == t) by {
        lemma_grid_index_bounds(w, h, x, y);
    }
    assert(b2.walled());
    assert forall|i: int| 0 <= i < ps.len() implies #[trigger] body_ok(b2, ps, i) by {
        assert(body_ok(b, ps, i));
        let body = ps[i].1@;
        assert forall|k: int| 0 <= k < body.len() implies b2.tile_at(#[trigger] body[k]) == b.tile_at(
            body[k],
        ) by {
            assert(b.tile_at(body[k]) is WormSegment);
        }
    }
    assert forall|x2: int, y2: int|
        b2.in_bounds_xy(x2, y2) && (#[trigger] b2.at(x2, y2)) is WormSegment implies has_pid(
        ps,
        b2.at(x2, y2).seg_pid(),
    ) && body_of_pid(ps, b2.at(x2, y2).seg_pid()).contains(
        (Coord { x: x2 as isize, y: y2 as isize }),
    ) by {
        assert(!(x2 == x && y2 == y));
        assert(b2.at(x2, y2) == b.at(x2, y2));
    }
}

/// Rewriting the head tile of entry `i` with the same owner and a new facing
/// preserves consistency.
pub proof fn lemma_set_head_dir(
    b: Board,
    b2: Board,
    ps: Seq<(PlayerId, Vec<Coord>)>,
    i: int,
    d: Direction,
)
    requires
        consistent_with(b, ps),
        0 <= i < ps.len(),
        b2.width == b.width,
        b2.height == b.height,
        b2.tiles@ == b.tiles@.update(
            b.idx_xy(ps[i].1@.last().x as int, ps[i].1@.last().y as int),
            Tile::WormSegment { pid: ps[i].0, dir: d },
        ),
    ensures
        consistent_with(b2, ps),
{
    let w = b.width as int;
    let h = b.height as int;
    let head = ps[i].1@.last();
    let hx = head.x as int;
    let hy = head.y as int;
    assert(body_ok(b, ps, i));
    assert(b.in_bounds(head) && !b.on_border(head));
    lemma_grid_index_bounds(w, h, hx, hy);
    assert(b2.wf());
    assert forall|x2: int, y2: int|
        b2.in_bounds_xy(x2, y2) && !(x2 == hx && y2 == hy) implies #[trigger] b2.at(x2, y2)
        == b.at(x2, y2) by {
        lemma_grid_index_bounds(w, h, x2, y2);
        lemma_grid_index_injective(w, h, x2, y2, hx, hy);
    }
    assert(b2.at(hx, hy) == Tile::WormSegment { pid: ps[i].0, dir: d });
    assert(b2.walled());
    assert forall|j: int| 0 <= j < ps.len() implies #[trigger] body_ok(b2, ps, j) by {
        assert(body_ok(b, ps, j));
        let body = ps[j].1@;
        let pid = ps[j].0;
        assert forall|k: int| 0 <= k < body.len() implies b2.in_bounds(#[trigger] body[k])
            && !b2.on_border(body[k]) && b2.tile_at(body[k]) is WormSegment && b2.tile_at(
            body[k],
        ).seg_pid() == pid by {
            if body[k].x == hx && body[k].y == hy {
                assert(body[k] == head);
            } else {
                assert(b2.tile_at(body[k]) == b.tile_at(body[k]));
            }
        }
        assert forall|k: int| 0 <= k < body.len() - 1 implies (#[trigger] body[k + 1]).x == body[k].x
            + b2.tile_at(body[k]).seg_dir().dx() && body[k + 1].y == body[k].y + b2.tile_at(
            body[k],
        ).seg_dir().dy() by {
            if body[k].x == hx && body[k].y == hy {
                // body[k] is the head cell of entry i; the head of entry i is
                // its last cell, which no earlier cell of the same body
                // repeats, and no other body shares.
                assert(b.tile_at(body[k]).seg_pid() == pid);
                assert(b.tile_at(head).seg_pid() == ps[i].0);
                if j != i {
                    assert(body_ok(b, ps, i));
                    assert(ps[i].0.0 != ps[j].0.0) by {
                        if i < j {
                            assert(ps[i].0.0 < ps[j].0.0);
                        } else {
                            assert(ps[j].0.0 < ps[i].0.0);
                        }
                    }
                    assert(body[k] == head);
                    assert(false);
                } else {
                    // Within entry i the head is the last cell; k < len - 1
                    // would duplicate it.
                    assert(body[k] == body[body.len() - 1]);
                    assert(false);
                }
            } else {
                assert(b2.tile_at(body[k]) == b.tile_at(body[k]));
            }
        }
    }
    assert forall|x2: int, y2: int|
        b2.in_bounds_xy(x2, y2) && (#[trigger] b2.at(x2, y2)) is WormSegment implies has_pid(
        ps,
        b2.at(x2, y2).seg_pid(),
    ) && body_of_pid(ps, b2.at(x2, y2).seg_pid()).contains(
        (Coord { x: x2 as isize, y: y2 as isize }),
    ) by {
        if x2 == hx && y2 == hy {
            assert(b.at(x2, y2) is WormSegment);
            assert(b2.at(x2, y2).seg_pid() == b.at(x2, y2).seg_pid());
        } else {
            assert(b2.at(x2, y2) == b.at(x2, y2));
        }
    }
}

impl SnakeGameState {
    /// A fresh game: a fixed seed, tick zero, a 40 by 30 walled board, no
    /// players and no food.
    pub fn new() -> (r: SnakeGameState)
        ensures
            r.wf(),
            r.players().len() == 0,
            r.tick == 0,
            r.num_foods == 0,
            r.board.width == 40,
            r.board.height == 30,
            r.rng.seed@ == crate::serializable_chacha::seed_of_u64(0xdeadbeefdeadbeef),
            r.rng.word_pos == 0,
            forall|x: int, y: int|
                r.board.in_bounds_xy(x, y) ==> #[trigger] r.board.at(x, y) == (if r.board.on_border_xy(x, y) {
                    Tile::Wall
                } else {
                    Tile::Empty
                }),
            r.model() == spec_new_game(),
    {
        let board = Board::new(40, 30);
        proof {
            lemma_count_food_none(board.tiles@);
        }
        let r = SnakeGameState {
            rng: SerializableChaCha20::seed_from_u64(0xdeadbeefdeadbeef),
            tick: 0,
            board,
            player_segments: Vec::new(),
            num_foods: 0,
        };
        proof {
            assert forall|x: int, y: int|
                r.board.in_bounds_xy(x, y) && (#[trigger] r.board.at(x, y))
                    is WormSegment implies false by {
                if r.board.on_border_xy(x, y) {
                    assert(r.board.at(x, y) is Wall);
                } else {
                    assert(r.board.at(x, y) is Empty);
                }
            }
            assert forall|i: int| 0 <= i < 1200 implies r.board.tiles@[i] == spec_wall_ring_tiles(
                40,
                30,
            )[i] by {
                let x = i % 40;
                let y = i / 40;
                assert(0 <= x < 40 && 0 <= y < 30);
                assert(y * 40 + x == i);
                assert(r.board.at(x, y) == r.board.tiles@[i]);
                assert(r.board.at(x, y) == (if r.board.on_border_xy(x, y) {
                    Tile::Wall
                } else {
                    Tile::Empty
                }));
            }
            assert(r.board.tiles@ =~= spec_wall_ring_tiles(40, 30));
            assert(r.model().players =~= Seq::<(PlayerId, Seq<Coord>)>::empty());
            assert(r.model() == spec_new_game());
        }
        r
    }

    /// Draws two stream words and maps them onto a board cell: `x` from the
    /// first word modulo the width, `y` from the second modulo the height.
    pub fn random_coord(&mut self) -> (c: Coord)
        requires
            old(self).board.wf(),
        ensures
            final(self).board == old(self).board,
            final(self).tick == old(self).tick,
            final(self).player_segments == old(self).player_segments,
            final(self).num_foods == old(self).num_foods,
            final(self).rng.seed == old(self).rng.seed,
            final(self).rng.word_pos == pos_plus(old(self).rng.word_pos, 2),
            final(self).board.in_bounds(c),
            c.x == (chacha_word(old(self).rng.seed@, old(self).rng.word_pos) as int) % (old(self).board.width as int),
            c.y == (chacha_word(old(self).rng.seed@, pos_plus(old(self).rng.word_pos, 1)) as int)
                % (old(self).board.height as int),
    {
        let w = self.board.width;
        let h = self.board.height;
        let rx = self.rng.next_u32();
        let ry = self.rng.next_u32();
        proof {
            lemma_pos_plus_assoc(old(self).rng.word_pos, 1, 1);
        }
        coord(rx as usize % w, ry as usize % h)
    }

    /// Places food on one empty cell, chosen by sampling random cells until
    /// an empty one is found. A full board would make that search hopeless;
    /// it signals a corrupted configuration rather than a recoverable
    /// condition, so it is excluded here. After a (practically unreachable)
    /// number of failed samples the search falls back to the first empty
    /// cell in row-major order, which keeps the function total and still
    /// deterministic.
    pub fn spawn_food(&mut self)
        requires
            old(self).wf(),
            old(self).board.has_empty(),
        ensures
            final(self).wf(),
            final(self).player_segments == old(self).player_segments,
            final(self).tick == old(self).tick,
            final(self).num_foods == old(self).num_foods + 1,
            final(self).rng.seed == old(self).rng.seed,
            final(self).board.width == old(self).board.width,
            final(self).board.height == old(self).board.height,
            exists|x: int, y: int|
                old(self).board.in_bounds_xy(x, y) && old(self).board.at(x, y) is Empty
                    && final(self).board.tiles@ == old(self).board.tiles@.update(
                    old(self).board.idx_xy(x, y),
                    Tile::Food,
                ),
            final(self).model() == spec_spawn_food(old(self).model()),
    {
        let ghost m = old(self).model();
        let mut attempts: usize = 0;
        while attempts < SPAWN_SAMPLE_ATTEMPTS
            invariant
                m == old(self).model(),
                self.wf(),
                self.board == old(self).board,
                self.player_segments == old(self).player_segments,
                self.tick == old(self).tick,
                self.num_foods == old(self).num_foods,
                self.rng.seed == old(self).rng.seed,
                attempts <= SPAWN_SAMPLE_ATTEMPTS,
                spec_sample_cell(
                    m.tiles,
                    m.width,
                    m.height,
                    m.seed,
                    m.cursor,
                    SPAWN_SAMPLE_ATTEMPTS as int,
                ) == spec_sample_cell(
                    m.tiles,
                    m.width,
                    m.height,
                    m.seed,
                    self.rng.word_pos,
                    SPAWN_SAMPLE_ATTEMPTS - attempts,
                ),
            decreases SPAWN_SAMPLE_ATTEMPTS - attempts,
        {
            let ghost mid = *self;
            let c = self.random_coord();
            let t = self.board.tile(c);
            proof {
                let f = SPAWN_SAMPLE_ATTEMPTS - attempts;
                assert(c.x as int == chacha_word(m.seed, mid.rng.word_pos) as int % m.width);
                assert(c.y as int == chacha_word(m.seed, pos_plus(mid.rng.word_pos, 1)) as int
                    % m.height);
                assert(m.tiles[c.y * m.width + c.x] == mid.board.tile_at(c));
                if mid.board.tile_at(c) is Empty {
                    assert(spec_sample_cell(
                        m.tiles,
                        m.width,
                        m.height,
                        m.seed,
                        mid.rng.word_pos,
                        f as int,
                    ) == (c, self.rng.word_pos));
                } else {
                    assert(spec_sample_cell(
                        m.tiles,
                        m.width,
                        m.height,
                        m.seed,
                        mid.rng.word_pos,
                        f as int,
                    ) == spec_sample_cell(
                        m.tiles,
                        m.width,
                        m.height,
                        m.seed,
                        self.rng.word_pos,
                        f - 1,
                    ));
                }
            }
            if let Tile::Empty = t {
                let ghost cur_after = self.rng.word_pos;
                self.place_food(c);
                proof {
                    assert(self.model().tiles == m.tiles.update(m.idx(c), Tile::Food));
                    assert(self.model().cursor == cur_after);
                    assert(self.model() == spec_spawn_food(m));
                }
                return ;
            }
            attempts = attempts + 1;
        }
        match self.board.find_empty_cell() {
            Some(c) => {
                proof {
                    assert(spec_sample_cell(
                        m.tiles,
                        m.width,
                        m.height,
                        m.seed,
                        self.rng.word_pos,
                        0,
                    ) == (c, self.rng.word_pos));
                }
                let ghost cur_after = self.rng.word_pos;
                self.place_food(c);
                proof {
                    assert(self.model().tiles == m.tiles.update(m.idx(c), Tile::Food));
                    assert(self.model().cursor == cur_after);
                    assert(self.model() == spec_spawn_food(m));
                }
            },
            None => {
                proof {
                    assert(false);
                }
            },
        }
    }

    /// Converts the empty cell `c` into food and counts it.
    fn place_food(&mut self, c: Coord)
        requires
            old(self).wf(),
            old(self).board.in_bounds(c),
            old(self).board.tile_at(c) is Empty,
        ensures
            final(self).wf(),
            final(self).player_segments == old(self).player_segments,
            final(self).tick == old(self).tick,
            final(self).rng == old(self).rng,
            final(self).num_foods == old(self).num_foods + 1,
            final(self).board.width == old(self).board.width,
            final(self).board.height == old(self).board.height,
            final(self).board.tiles@ == old(self).board.tiles@.update(
                old(self).board.idx_xy(c.x as int, c.y as int),
                Tile::Food,
            ),
    {
        proof {
            lemma_count_food_bounds(self.board.tiles@);
            lemma_grid_index_bounds(
                self.board.width as int,
                self.board.height as int,
                c.x as int,
                c.y as int,
            );
            lemma_count_food_update(
                self.board.tiles@,
                self.board.idx_xy(c.x as int, c.y as int),
                Tile::Food,
            );
        }
        self.board.set_tile(c, Tile::Food);
        self.num_foods = self.num_foods + 1;
        proof {
            lemma_update_free_cell(
                old(self).board,
                self.board,
                old(self).players(),
                c.x as int,
                c.y as int,
                Tile::Food,
            );
        }
    }

    /// The entry index of `pid`, if the player is alive.
    fn find_player(&self, pid: PlayerId) -> (r: Option<usize>)
        ensures
            match r {
                Some(i) => 0 <= i < self.players().len() && self.players()[i as int].0 == pid,
                None => !self.has_player(pid),
            },
    {
        let n = self.player_segments.len();
        let mut i: usize = 0;
        while i < n
            invariant
                n == self.players().len(),
                i <= n,
                forall|t: int| 0 <= t < i ==> (#[trigger] self.players()[t]).0 != pid,
            decreases n - i,
        {
            if self.player_segments[i].0 == pid {
                return Some(i);
            }
            i = i + 1;
        }
        None
    }

    /// Spawns a fresh single-segment worm for `pid`: one stream word picks
    /// its facing uniformly, then random cells are sampled until an empty
    /// one is found (with the same fallback as food placement). The id must
    /// be unspawned; ids are never reused.
    #[verifier::rlimit(100)]
    #[verifier::spinoff_prover]
    pub fn spawn_player(&mut self, pid: PlayerId)
        requires
            old(self).wf(),
            !old(self).has_player(pid),
            old(self).board.has_empty(),
        ensures
            final(self).wf(),
            final(self).has_player(pid),
            final(self).body_of(pid).len() == 1,
            final(self).facing(pid) == Direction::spec_from_u32(
                chacha_word(old(self).rng.seed@, old(self).rng.word_pos),
            ),
            final(self).tick == old(self).tick,
            final(self).num_foods == old(self).num_foods,
            final(self).rng.seed == old(self).rng.seed,
            final(self).board.width == old(self).board.width,
            final(self).board.height == old(self).board.height,
            exists|x: int, y: int|
                old(self).board.in_bounds_xy(x, y) && old(self).board.at(x, y) is Empty
                    && final(self).board.tiles@ == old(self).board.tiles@.update(
                    old(self).board.idx_xy(x, y),
                    Tile::WormSegment {
                        pid,
                        dir: Direction::spec_from_u32(
                            chacha_word(old(self).rng.seed@, old(self).rng.word_pos),
                        ),
                    },
                ),
            forall|p2: PlayerId|
                old(self).has_player(p2) ==> #[trigger] final(self).has_player(p2),
            forall|p2: PlayerId|
                #![trigger final(self).body_of(p2)]
                old(self).has_player(p2) ==> final(self).body_of(p2) =~= old(self).body_of(p2),
            forall|p2: PlayerId|
                #![trigger final(self).facing(p2)]
                old(self).has_player(p2) ==> final(self).facing(p2) == old(self).facing(p2),
            forall|p2: PlayerId|
                #[trigger] final(self).has_player(p2) ==> p2 == pid || old(self).has_player(p2),
            final(self).model() == spec_spawn_player(old(self).model(), pid),
    {
        let ghost orig = *self;
        let ghost m = orig.model();
        let r = self.rng.next_u32();
        let dir = Direction::from_u32(r);
        let n = self.player_segments.len();
        let mut pos: usize = 0;
        while pos < n && self.player_segments[pos].0.0 < pid.0
            invariant
                m == orig.model(),
                n == self.players().len(),
                self.player_segments == orig.player_segments,
                pos <= n,
                forall|t: int| 0 <= t < pos ==> (#[trigger] self.players()[t]).0.0 < pid.0,
                spec_insert_pos(m.players, pid, 0) == spec_insert_pos(m.players, pid, pos as int),
            decreases n - pos,
        {
            proof {
                assert(m.players[pos as int].0 == self.players()[pos as int].0);
                assert(spec_insert_pos(m.players, pid, pos as int) == spec_insert_pos(
                    m.players,
                    pid,
                    pos + 1,
                ));
            }
            pos = pos + 1;
        }
        proof {
            assert(m.players.len() == n);
            if (pos as int) < n {
                assert(m.players[pos as int].0 == self.players()[pos as int].0);
            }
            assert(spec_insert_pos(m.players, pid, pos as int) == pos as int);
            assert(spec_insert_pos(m.players, pid, 0) == pos as int);
        }
        proof {
            assert forall|t: int| pos <= t < n implies pid.0 < (#[trigger] self.players()[t]).0.0
                by {
                assert(sorted_pids(orig.players()));
                if (pos as int) < n {
                    assert(self.players()[pos as int].0.0 >= pid.0);
                    assert(self.players()[pos as int].0 != pid) by {
                        if self.players()[pos as int].0 == pid {
                            assert(has_pid(orig.players(), pid));
                        }
                    }
                    if t > pos {
                        assert(self.players()[pos as int].0.0 < self.players()[t].0.0);
                    }
                }
            }
        }
        let mut attempts: usize = 0;
        while attempts < SPAWN_SAMPLE_ATTEMPTS
            invariant
                orig == *old(self),
                m == orig.model(),
                self.board == orig.board,
                self.player_segments == orig.player_segments,
                self.tick == orig.tick,
                self.num_foods == orig.num_foods,
                self.rng.seed == orig.rng.seed,
                orig.wf(),
                !orig.has_player(pid),
                dir == Direction::spec_from_u32(chacha_word(orig.rng.seed@, orig.rng.word_pos)),
                pos <= orig.players().len(),
                forall|t: int| 0 <= t < pos ==> (#[trigger] orig.players()[t]).0.0 < pid.0,
                forall|t: int|
                    pos <= t < orig.players().len() ==> pid.0 < (#[trigger] orig.players()[t]).0.0,
                spec_insert_pos(m.players, pid, 0) == pos as int,
                attempts <= SPAWN_SAMPLE_ATTEMPTS,
                spec_sample_cell(
                    m.tiles,
                    m.width,
                    m.height,
                    m.seed,
                    pos_plus(m.cursor, 1),
                    SPAWN_SAMPLE_ATTEMPTS as int,
                ) == spec_sample_cell(
                    m.tiles,
                    m.width,
                    m.height,
                    m.seed,
                    self.rng.word_pos,
                    SPAWN_SAMPLE_ATTEMPTS - attempts,
                ),
            decreases SPAWN_SAMPLE_ATTEMPTS - attempts,
        {
            let ghost pre = *self;
            let c = self.random_coord();
            let t = self.board.tile(c);
            proof {
                let f = SPAWN_SAMPLE_ATTEMPTS - attempts;
                assert(c.x as int == chacha_word(m.seed, pre.rng.word_pos) as int % m.width);
                assert(c.y as int == chacha_word(m.seed, pos_plus(pre.rng.word_pos, 1)) as int
                    % m.height);
                assert(m.tiles[c.y * m.width + c.x] == pre.board.tile_at(c));
                if pre.board.tile_at(c) is Empty {
                    assert(spec_sample_cell(
                        m.tiles,
                        m.width,
                        m.height,
                        m.seed,
                        pre.rng.word_pos,
                        f as int,
                    ) == (c, self.rng.word_pos));
                } else {
                    assert(spec_sample_cell(
                        m.tiles,
                        m.width,
                        m.height,
                        m.seed,
                        pre.rng.word_pos,
                        f as int,
                    ) == spec_sample_cell(
                        m.tiles,
                        m.width,
                        m.height,
                        m.seed,
                        self.rng.word_pos,
                        f - 1,
                    ));
                }
            }
            if let Tile::Empty = t {
                let ghost mid = *self;
                self.place_player(pos, pid, dir, c);
                proof {
                    spawn_bridge(orig, mid, *self, pid);
                    assert(mid.model() == (GameModel {
                        cursor: mid.rng.word_pos,
                        ..m
                    }));
                    assert(self.model() == spec_spawn_player(m, pid));
                }
                return ;
            }
            attempts = attempts + 1;
        }
        match self.board.find_empty_cell() {
            Some(c) => {
                let ghost mid = *self;
                proof {
                    assert(spec_sample_cell(
                        m.tiles,
                        m.width,
                        m.height,
                        m.seed,
                        mid.rng.word_pos,
                        0,
                    ) == (c, mid.rng.word_pos));
                }
                self.place_player(pos, pid, dir, c);
                proof {
                    spawn_bridge(orig, mid, *self, pid);
                    assert(mid.model() == (GameModel {
                        cursor: mid.rng.word_pos,
                        ..m
                    }));
                    assert(self.model() == spec_spawn_player(m, pid));
                }
            },
            None => {
                proof {
                    assert(false);
                }
            },
        }
    }

    /// Inserts the single-segment worm of `pid` at the empty cell `c`, with
    /// its entry at list position `pos`.
    #[verifier::rlimit(100)]
    #[verifier::spinoff_prover]
    fn place_player(&mut self, pos: usize, pid: PlayerId, dir: Direction, c: Coord)
        requires
            old(self).wf(),
            !old(self).has_player(pid),
            pos <= old(self).players().len(),
            forall|t: int| 0 <= t < pos ==> (#[trigger] old(self).players()[t]).0.0 < pid.0,
            forall|t: int|
                pos <= t < old(self).players().len() ==> pid.0 < (#[trigger] old(self).players()[t]).0.0,
            old(self).board.in_bounds(c),
            old(self).board.tile_at(c) is Empty,
        ensures
            final(self).wf(),
            final(self).has_player(pid),
            final(self).body_of(pid).len() == 1,
            final(self).facing(pid) == dir,
            final(self).tick == old(self).tick,
            final(self).num_foods == old(self).num_foods,
            final(self).rng == old(self).rng,
            final(self).board.width == old(self).board.width,
            final(self).board.height == old(self).board.height,
            final(self).board.tiles@ == old(self).board.tiles@.update(
                old(self).board.idx_xy(c.x as int, c.y as int),
                Tile::WormSegment { pid, dir },
            ),
            forall|p2: PlayerId|
                old(self).has_player(p2) ==> #[trigger] final(self).has_player(p2),
            forall|p2: PlayerId|
                #![trigger final(self).body_of(p2)]
                old(self).has_player(p2) ==> final(self).body_of(p2) =~= old(self).body_of(p2),
            forall|p2: PlayerId|
                #![trigger final(self).facing(p2)]
                old(self).has_player(p2) ==> final(self).facing(p2) == old(self).facing(p2),
            forall|p2: PlayerId|
                #[trigger] final(self).has_player(p2) ==> p2 == pid || old(self).has_player(p2),
            final(self).model() == (GameModel {
                tiles: old(self).model().tiles.update(
                    old(self).model().idx(c),
                    Tile::WormSegment { pid, dir },
                ),
                players: old(self).model().players.insert(pos as int, (pid, seq![c])),
                ..old(self).model()
            }),
    {
        let ghost orig = *self;
        let ghost w = orig.board.width as int;
        let ghost h = orig.board.height as int;
        proof {
            lemma_grid_index_bounds(w, h, c.x as int, c.y as int);
            lemma_count_food_update(
                orig.board.tiles@,
                orig.board.idx_xy(c.x as int, c.y as int),
                Tile::WormSegment { pid, dir },
            );
        }
        self.board.set_tile(c, Tile::WormSegment { pid, dir });
        let mut body: Vec<Coord> = Vec::new();
        body.push(c);
        self.player_segments.insert(pos, (pid, body));
        proof {
            let entry = self.player_segments@[pos as int];
            assert(entry.0 == pid && entry.1@.len() == 1 && entry.1@[0] == c);
            lemma_insert_entry(orig.players(), pos as int, entry);
            lemma_spawn_cell(
                orig.board,
                self.board,
                orig.players(),
                self.players(),
                pos as int,
                entry,
                c,
                dir,
            );
            assert(self.facing(pid) == dir) by {
                assert(body_of_pid(self.players(), pid) == entry.1@);
                assert(entry.1@.last() == c);
                assert(self.board.tile_at(c) == Tile::WormSegment { pid, dir });
            }
            assert forall|p2: PlayerId| orig.has_player(p2) implies #[trigger] self.has_player(p2)
                && self.body_of(p2) =~= orig.body_of(p2) && self.facing(p2) == orig.facing(p2) by {
                lemma_pid_found(orig.players(), p2);
                let j0 = index_of_pid(orig.players(), p2);
                assert(body_ok(orig.board, orig.players(), j0));
                let head2 = orig.players()[j0].1@.last();
                assert(orig.board.tile_at(head2).seg_pid() == p2);
                assert(!(head2.x == c.x && head2.y == c.y)) by {
                    if head2.x == c.x && head2.y == c.y {
                        assert(head2 == c);
                        assert(orig.board.tile_at(c) is WormSegment);
                    }
                }
                lemma_grid_index_bounds(w, h, head2.x as int, head2.y as int);
                lemma_grid_index_injective(
                    w,
                    h,
                    head2.x as int,
                    head2.y as int,
                    c.x as int,
                    c.y as int,
                );
                assert(self.has_player(p2));
                assert(self.body_of(p2) == orig.body_of(p2));
                assert(self.facing(p2) == orig.facing(p2));
            }
            assert forall|p2: PlayerId|
                #![trigger self.body_of(p2)]
                orig.has_player(p2) implies self.body_of(p2) =~= orig.body_of(p2) by {
                assert(self.has_player(p2));
            }
            assert forall|p2: PlayerId|
                #![trigger self.facing(p2)]
                orig.has_player(p2) implies self.facing(p2) == orig.facing(p2) by {
                assert(self.has_player(p2));
            }
            lemma_model_players_insert(orig.players(), pos as int, entry);
            assert(entry.1@ =~= seq![c]);
            assert(self.model().players == orig.model().players.insert(
                pos as int,
                (pid, seq![c]),
            ));
            assert(self.model() == (GameModel {
                tiles: orig.model().tiles.update(
                    orig.model().idx(c),
                    Tile::WormSegment { pid, dir },
                ),
                players: orig.model().players.insert(pos as int, (pid, seq![c])),
                ..orig.model()
            }));
        }
    }

    /// Advances each living player's head once, in ascending id order. A
    /// player that moved without eating has its oldest cell trimmed (so its
    /// length is preserved, and never drops below one); a player that dies
    /// is left untouched beyond its event, its whole body waiting for death
    /// resolution. Movement mutates the shared board in place, so a player
    /// processed earlier in the pass is visible to later ones; the fixed id
    /// order is what keeps the outcome deterministic.
    #[verifier::rlimit(100)]
    #[verifier::spinoff_prover]
    fn advance_players(&mut self) -> (events: Vec<SnakeGameEvent>)
        requires
            old(self).consistent(),
        ensures
            final(self).consistent(),
            final(self).players().len() == old(self).players().len(),
            forall|t: int|
                0 <= t < old(self).players().len() ==> (#[trigger] final(self).players()[t]).0
                    == old(self).players()[t].0,
            final(self).tick == old(self).tick,
            final(self).num_foods == old(self).num_foods,
            final(self).rng == old(self).rng,
            final(self).board.width == old(self).board.width,
            final(self).board.height == old(self).board.height,
            count_food(final(self).board.tiles@) == count_food(old(self).board.tiles@)
                - count_ate_to(events@, events@.len() as int),
            events@.len() <= old(self).players().len(),
            forall|a: int, b: int|
                0 <= a < b < events@.len() ==> (#[trigger] events@[a]).pid() != (
                #[trigger] events@[b]).pid(),
            forall|a: int|
                0 <= a < events@.len() ==> has_pid(
                    old(self).players(),
                    (#[trigger] events@[a]).pid(),
                ),
            forall|t: int|
                0 <= t < old(self).players().len() ==> #[trigger] advance_outcome(
                    *old(self),
                    *final(self),
                    events@,
                    t,
                ),
            final(self).model() == spec_advance_to(
                old(self).model(),
                old(self).players().len() as int,
            ).0,
            events@ == spec_advance_to(old(self).model(), old(self).players().len() as int).1,
    {
        let ghost orig = *self;
        let mut events: Vec<SnakeGameEvent> = Vec::new();
        let n = self.player_segments.len();
        let mut j: usize = 0;
        while j < n
            invariant
                orig == *old(self),
                orig.consistent(),
                n == orig.players().len(),
                j <= n,
                self.consistent(),
                self.players().len() == n,
                forall|t: int|
                    0 <= t < n ==> (#[trigger] self.players()[t]).0 == orig.players()[t].0,
                forall|t: int| j <= t < n ==> #[trigger] self.players()[t] == orig.players()[t],
                forall|t: int|
                    #![trigger self.facing_idx(t)]
                    j <= t < n ==> self.facing_idx(t) == orig.facing_idx(t),
                self.tick == orig.tick,
                self.num_foods == orig.num_foods,
                self.rng == orig.rng,
                self.board.width == orig.board.width,
                self.board.height == orig.board.height,
                count_food(self.board.tiles@) == count_food(orig.board.tiles@) - count_ate_to(
                    events@,
                    events@.len() as int,
                ),
                events@.len() <= j,
                forall|a: int|
                    0 <= a < events@.len() ==> has_pid(
                        orig.players(),
                        (#[trigger] events@[a]).pid(),
                    ) && index_of_pid(orig.players(), events@[a].pid()) < j,
                forall|a: int, b: int|
                    0 <= a < b < events@.len() ==> (#[trigger] events@[a]).pid() != (
                    #[trigger] events@[b]).pid(),
                forall|t: int|
                    0 <= t < j ==> #[trigger] advance_outcome(orig, *self, events@, t),
                self.model() == spec_advance_to(orig.model(), j as int).0,
                events@ == spec_advance_to(orig.model(), j as int).1,
            decreases n - j,
        {
            let ghost pre = *self;
            let ghost jj = j as int;
            let ghost pid_j = pre.players()[jj].0;
            proof {
                assert(body_ok(pre.board, pre.players(), jj));
                lemma_pid_lookup(orig.players(), jj);
            }
            let mut entry = self.player_segments.remove(j);
            let blen = entry.1.len();
            let head = entry.1[blen - 1];
            let ghost body0 = entry.1@;
            let ghost d = pre.board.tile_at(head).seg_dir();
            let ghost w = pre.board.width as int;
            let ghost h = pre.board.height as int;
            let ghost dx2 = head.x + d.dx();
            let ghost dy2 = head.y + d.dy();
            let ghost destt = pre.board.at(dx2, dy2);
            proof {
                assert(head == body0.last());
                assert(entry.0 == pid_j);
                assert(pre.board.in_bounds(head) && !pre.board.on_border(head));
                assert(pre.board.tile_at(head) is WormSegment);
                assert(pre.board.tile_at(head).seg_pid() == pid_j);
                assert(pre.board.in_bounds_xy(dx2, dy2));
            }
            let (new_events, new_segment) = self.board.move_head(head);
            let mut ate = false;
            if new_events.len() > 0 {
                if let SnakeGameEvent::PlayerAteFood(_, _) = new_events[0] {
                    ate = true;
                }
            }
            let mut moved = false;
            if let Some(s) = new_segment {
                entry.1.push(s);
                moved = true;
            }
            let ghost entry1 = entry;
            let ghost board1 = self.board;
            // only a player that moved without eating is trimmed; a dying
            // worm keeps its whole body until death resolution clears it
            if moved && !ate {
                let tcoord = entry.1.remove(0);
                proof {
                    assert(tcoord == body0[0]);
                    assert(pre.board.in_bounds(tcoord));
                }
                self.board.set_tile(tcoord, Tile::Empty);
            }
            self.player_segments.insert(j, entry);
            let ghost old_events = events@;
            if new_events.len() > 0 {
                let e = new_events[0];
                events.push(e);
            }
            proof {
                let ps0 = pre.players();
                let entry_fin = self.players()[jj];
                assert(self.players() =~= ps0.update(jj, entry_fin));
                let ps_fin = ps0.update(jj, entry_fin);
                let preM = pre.model();
                let sdest = Coord { x: (head.x + d.dx()) as isize, y: (head.y + d.dy()) as isize };
                lemma_model_players_update(ps0, jj, entry_fin);
                assert(preM.players[jj] == (pid_j, body0));
                assert(preM.at(head) == pre.board.tile_at(head));
                assert(preM.at(head) == (Tile::WormSegment { pid: pid_j, dir: d }));
                assert(sdest.x as int == dx2 && sdest.y as int == dy2);
                assert(preM.at(sdest) == destt);
                assert(self.players() == ps_fin);
                assert(self.model().players == preM.players.update(jj, (pid_j, entry_fin.1@)));
                assert(self.model().cursor == preM.cursor && self.model().seed == preM.seed
                    && self.model().tick == preM.tick && self.model().num_foods
                    == preM.num_foods && self.model().width == preM.width && self.model().height
                    == preM.height);
                if destt is Empty {
                    // moved onto a free cell, no event, tail trimmed
                    let s = entry1.1@.last();
                    let ps1 = ps0.update(jj, entry1);
                    assert(entry1.1@ == body0.push(s));
                    assert(s.x == dx2 && s.y == dy2);
                    assert(extend_step(pre.board, board1, ps0, ps1, jj, s));
                    lemma_extend_head(pre.board, board1, ps0, ps1, jj, s);
                    assert(entry_fin.1@ =~= entry1.1@.subrange(1, entry1.1@.len() as int));
                    assert(trim_step(board1, self.board, ps1, ps_fin, jj));
                    lemma_trim_tail(board1, self.board, ps1, ps_fin, jj);
                    assert(consistent_with(self.board, self.players()));
                    assert(events@ == old_events);
                    lemma_grid_index_bounds(w, h, dx2, dy2);
                    lemma_count_food_update(
                        pre.board.tiles@,
                        pre.board.idx_xy(dx2, dy2),
                        Tile::WormSegment { pid: pid_j, dir: d },
                    );
                    lemma_grid_index_bounds(w, h, body0[0].x as int, body0[0].y as int);
                    lemma_count_food_update(
                        board1.tiles@,
                        board1.idx_xy(body0[0].x as int, body0[0].y as int),
                        Tile::Empty,
                    );
                    assert(count_food(self.board.tiles@) == count_food(pre.board.tiles@));
                    assert(s == sdest);
                    assert(body0.push(sdest)[0] == body0[0]);
                    assert(entry_fin.1@ == body0.push(sdest).subrange(
                        1,
                        body0.push(sdest).len() as int,
                    ));
                    assert(self.model().tiles == preM.tiles.update(
                        preM.idx(sdest),
                        Tile::WormSegment { pid: pid_j, dir: d },
                    ).update(preM.idx(body0[0]), Tile::Empty));
                    assert(spec_move_step(preM, jj).0 == self.model());
                    assert(spec_move_step(preM, jj).1 == Seq::<SnakeGameEvent>::empty());
                } else if destt is Food {
                    // moved and ate: the head grows, nothing is trimmed
                    let s = entry1.1@.last();
                    let ps1 = ps0.update(jj, entry1);
                    assert(entry1.1@ == body0.push(s));
                    assert(s.x == dx2 && s.y == dy2);
                    assert(extend_step(pre.board, board1, ps0, ps1, jj, s));
                    lemma_extend_head(pre.board, board1, ps0, ps1, jj, s);
                    assert(self.board == board1);
                    assert(entry_fin == entry1);
                    assert(ps_fin =~= ps1);
                    assert(consistent_with(self.board, self.players()));
                    lemma_grid_index_bounds(w, h, dx2, dy2);
                    lemma_count_food_update(
                        pre.board.tiles@,
                        pre.board.idx_xy(dx2, dy2),
                        Tile::WormSegment { pid: pid_j, dir: d },
                    );
                    lemma_events_push(old_events, events@.last());
                    assert(count_food(self.board.tiles@) == count_food(pre.board.tiles@) - 1);
                    assert(s == sdest);
                    assert(entry_fin.1@ == body0.push(sdest));
                    assert(self.model().tiles == preM.tiles.update(
                        preM.idx(sdest),
                        Tile::WormSegment { pid: pid_j, dir: d },
                    ));
                    assert(spec_move_step(preM, jj).0 == self.model());
                    assert(spec_move_step(preM, jj).1 == seq![
                        SnakeGameEvent::PlayerAteFood(pid_j, sdest),
                    ]);
                    assert(events@.last() == SnakeGameEvent::PlayerAteFood(pid_j, sdest));
                } else {
                    // wall or worm ahead: the player dies where it stands;
                    // nothing is mutated beyond the event, and resolution
                    // clears the whole body
                    assert(destt is Wall || destt is WormSegment);
                    assert(board1.tiles@ == pre.board.tiles@);
                    assert(board1.width == pre.board.width && board1.height == pre.board.height);
                    assert(entry1.1@ == body0);
                    assert(self.board.tiles@ == pre.board.tiles@);
                    assert(self.board.width == pre.board.width && self.board.height
                        == pre.board.height);
                    assert(entry_fin.1@ == body0);
                    assert(ps_fin =~= ps0);
                    lemma_consistent_congruence(pre.board, self.board, ps0);
                    assert(consistent_with(self.board, self.players()));
                    lemma_events_push(old_events, events@.last());
                    assert(self.model().players =~= preM.players);
                    assert(self.model().tiles == preM.tiles);
                    assert(spec_move_step(preM, jj).0 == self.model());
                    if destt is Wall {
                        assert(spec_move_step(preM, jj).1 == seq![
                            SnakeGameEvent::PlayerDied(
                                pid_j,
                                crate::board::DEATH_FOOD_PROB_WALL,
                            ),
                        ]);
                        assert(events@.last() == SnakeGameEvent::PlayerDied(
                            pid_j,
                            crate::board::DEATH_FOOD_PROB_WALL,
                        ));
                    } else {
                        assert(spec_move_step(preM, jj).1 == seq![
                            SnakeGameEvent::PlayerDied(
                                pid_j,
                                crate::board::DEATH_FOOD_PROB_COLLISION,
                            ),
                        ]);
                        assert(events@.last() == SnakeGameEvent::PlayerDied(
                            pid_j,
                            crate::board::DEATH_FOOD_PROB_COLLISION,
                        ));
                    }
                }
                // the model advanced by exactly one spec step
                assert(preM == spec_advance_to(orig.model(), jj).0);
                assert(old_events == spec_advance_to(orig.model(), jj).1);
                assert(spec_advance_to(orig.model(), jj + 1).0 == spec_move_step(preM, jj).0);
                assert(spec_advance_to(orig.model(), jj + 1).1 == old_events + spec_move_step(
                    preM,
                    jj,
                ).1);
                assert(events@ =~= old_events + spec_move_step(preM, jj).1);
                assert(self.model() == spec_advance_to(orig.model(), jj + 1).0);
                assert(events@ == spec_advance_to(orig.model(), jj + 1).1);
                // ids and untouched suffix
                assert forall|t: int| 0 <= t < n implies (#[trigger] self.players()[t]).0
                    == orig.players()[t].0 by {
                    if t != jj {
                        assert(self.players()[t] == pre.players()[t]);
                    }
                }
                assert forall|t: int| jj + 1 <= t < n implies #[trigger] self.players()[t]
                    == orig.players()[t] by {
                    assert(self.players()[t] == pre.players()[t]);
                }
                // cells of other players are untouched, so their facings hold
                assert forall|t: int| 0 <= t < n && t != jj implies self.facing_idx(t)
                    == pre.facing_idx(t) by {
                    assert(body_ok(pre.board, pre.players(), t));
                    let head2 = pre.players()[t].1@.last();
                    assert(pre.board.tile_at(head2).seg_pid() == pre.players()[t].0);
                    assert(pre.players()[t].0 != pid_j) by {
                        if t < jj {
                            assert(pre.players()[t].0.0 < pre.players()[jj].0.0);
                        } else {
                            assert(pre.players()[jj].0.0 < pre.players()[t].0.0);
                        }
                    }
                    assert(self.players()[t] == pre.players()[t]);
                    lemma_grid_index_bounds(w, h, head2.x as int, head2.y as int);
                    lemma_grid_index_bounds(w, h, dx2, dy2);
                    lemma_grid_index_injective(w, h, head2.x as int, head2.y as int, dx2, dy2);
                    lemma_grid_index_bounds(w, h, body0[0].x as int, body0[0].y as int);
                    lemma_grid_index_injective(
                        w,
                        h,
                        head2.x as int,
                        head2.y as int,
                        body0[0].x as int,
                        body0[0].y as int,
                    );
                    assert(head2 != body0[0]) by {
                        if head2 == body0[0] {
                            assert(pre.board.tile_at(body0[0]).seg_pid() == pid_j);
                        }
                    }
                    if destt is Empty || destt is Food {
                        assert(!(head2.x == dx2 && head2.y == dy2)) by {
                            if head2.x == dx2 && head2.y == dy2 {
                                assert(pre.board.at(dx2, dy2) is WormSegment);
                            }
                        }
                    }
                    assert(self.board.tile_at(head2) == pre.board.tile_at(head2));
                }
                // facing of the suffix also matches the original state
                assert forall|t: int|
                    #![trigger self.facing_idx(t)]
                    jj + 1 <= t < n implies self.facing_idx(t) == orig.facing_idx(t) by {
                    assert(self.facing_idx(t) == pre.facing_idx(t));
                }
                // event bookkeeping
                assert forall|a: int| 0 <= a < events@.len() implies has_pid(
                    orig.players(),
                    (#[trigger] events@[a]).pid(),
                ) && index_of_pid(orig.players(), events@[a].pid()) < jj + 1 by {
                    if a < old_events.len() {
                        assert(events@[a] == old_events[a]);
                    } else {
                        assert(events@[a].pid() == pid_j);
                        assert(index_of_pid(orig.players(), pid_j) == jj);
                    }
                }
                assert forall|a: int, b: int|
                    0 <= a < b < events@.len() implies (#[trigger] events@[a]).pid() != (
                #[trigger] events@[b]).pid() by {
                    if b >= old_events.len() {
                        assert(events@[b].pid() == pid_j);
                        assert(events@[a] == old_events[a]);
                        assert(index_of_pid(orig.players(), events@[a].pid()) < jj);
                        if events@[a].pid() == pid_j {
                            assert(index_of_pid(orig.players(), pid_j) == jj);
                        }
                    }
                }
                // no event of this pass belongs to a player not yet reached,
                // so per-player event predicates for earlier entries hold
                assert forall|t: int| 0 <= t < jj + 1 implies #[trigger] advance_outcome(
                    orig,
                    *self,
                    events@,
                    t,
                ) by {
                    let pid_t = orig.players()[t].0;
                    if t < jj {
                        assert(advance_outcome(orig, pre, old_events, t));
                        assert(self.players()[t] == pre.players()[t]);
                        assert(pid_t != pid_j) by {
                            assert(orig.players()[t].0.0 < orig.players()[jj].0.0);
                        }
                        if events@.len() > old_events.len() {
                            lemma_events_push(old_events, events@.last());
                            assert(events@ == old_events.push(events@.last()));
                            assert(ate_in(events@, pid_t) == ate_in(old_events, pid_t));
                            assert(died_in(events@, pid_t) == died_in(old_events, pid_t));
                        }
                        assert(self.facing_idx(t) == pre.facing_idx(t));
                    } else {
                        // this player's own outcome
                        assert(!ate_before(old_events, old_events.len() as int, pid_j)) by {
                            if ate_before(old_events, old_events.len() as int, pid_j) {
                                let b = choose|b: int|
                                    0 <= b < old_events.len() && ((#[trigger] old_events[b])
                                        matches SnakeGameEvent::PlayerAteFood(p, _) && p == pid_j);
                                assert(old_events[b].pid() == pid_j);
                                assert(index_of_pid(orig.players(), pid_j) < jj);
                            }
                        }
                        assert(!died_before(old_events, old_events.len() as int, pid_j)) by {
                            if died_before(old_events, old_events.len() as int, pid_j) {
                                let b = choose|b: int|
                                    0 <= b < old_events.len() && ((#[trigger] old_events[b])
                                        matches SnakeGameEvent::PlayerDied(p, _) && p == pid_j);
                                assert(old_events[b].pid() == pid_j);
                                assert(index_of_pid(orig.players(), pid_j) < jj);
                            }
                        }
                        if events@.len() > old_events.len() {
                            lemma_events_push(old_events, events@.last());
                        }
                        assert(orig.players()[jj].1@.len() == body0.len());
                        assert(orig.facing_idx(jj) == pre.facing_idx(jj));
                        if destt is Empty {
                            assert(!ate_in(events@, pid_j) && !died_in(events@, pid_j));
                            assert(self.players()[jj].1@.len() == body0.len());
                            assert(self.board.tile_at(entry1.1@.last()) == (Tile::WormSegment {
                                pid: pid_j,
                                dir: d,
                            })) by {
                                lemma_grid_index_bounds(w, h, dx2, dy2);
                                lemma_grid_index_bounds(
                                    w,
                                    h,
                                    body0[0].x as int,
                                    body0[0].y as int,
                                );
                                lemma_grid_index_injective(
                                    w,
                                    h,
                                    dx2,
                                    dy2,
                                    body0[0].x as int,
                                    body0[0].y as int,
                                );
                                assert(entry1.1@.last() != body0[0]);
                            }
                            assert(self.facing_idx(jj) == d);
                            assert(pre.facing_idx(jj) == d);
                        } else if destt is Food {
                            assert(ate_in(events@, pid_j) && !died_in(events@, pid_j));
                            assert(self.players()[jj].1@.len() == body0.len() + 1);
                            assert(self.board.tile_at(entry1.1@.last()) == (Tile::WormSegment {
                                pid: pid_j,
                                dir: d,
                            }));
                            assert(self.facing_idx(jj) == d);
                            assert(pre.facing_idx(jj) == d);
                        } else {
                            assert(died_in(events@, pid_j) && !ate_in(events@, pid_j));
                            assert(self.players()[jj].1@.len() == body0.len());
                        }
                    }
                }
            }
            j = j + 1;
        }
        proof {
            assert forall|t: int| 0 <= t < n implies #[trigger] advance_outcome(
                orig,
                *self,
                events@,
                t,
            ) by {}
        }
        events
    }

    /// Resolves one tick's events in order: a death clears the dead worm
    /// (each vacated cell independently converting to food with the event's
    /// carried probability), and a meal is deducted from the food count.
    #[verifier::rlimit(100)]
    #[verifier::spinoff_prover]
    fn resolve_events(&mut self, events: &Vec<SnakeGameEvent>)
        requires
            old(self).consistent(),
            forall|a: int, b: int|
                0 <= a < b < events@.len() ==> (#[trigger] events@[a]).pid() != (
                #[trigger] events@[b]).pid(),
            forall|a: int|
                0 <= a < events@.len() ==> has_pid(
                    old(self).players(),
                    (#[trigger] events@[a]).pid(),
                ),
            events@.len() <= old(self).players().len(),
            old(self).num_foods == count_food(old(self).board.tiles@) + count_ate_to(
                events@,
                events@.len() as int,
            ),
        ensures
            final(self).wf(),
            final(self).tick == old(self).tick,
            final(self).board.width == old(self).board.width,
            final(self).board.height == old(self).board.height,
            final(self).rng.seed == old(self).rng.seed,
            forall|p2: PlayerId|
                old(self).has_player(p2) && !died_in(events@, p2) ==> #[trigger] final(self).has_player(p2),
            forall|p2: PlayerId|
                #![trigger final(self).body_of(p2)]
                old(self).has_player(p2) && !died_in(events@, p2) ==> final(self).body_of(p2)
                    == old(self).body_of(p2),
            forall|p2: PlayerId|
                #![trigger final(self).facing(p2)]
                old(self).has_player(p2) && !died_in(events@, p2) ==> final(self).facing(p2) == old(
                    self,
                ).facing(p2),
            forall|p2: PlayerId|
                #[trigger] final(self).has_player(p2) ==> old(self).has_player(p2) && !died_in(
                    events@,
                    p2,
                ),
            final(self).model() == spec_resolve_to(old(self).model(), events@, events@.len() as int),
    {
        let ghost orig = *self;
        let n = events.len();
        let mut a: usize = 0;
        while a < n
            invariant
                orig == *old(self),
                orig.consistent(),
                n == events@.len(),
                a <= n,
                self.model() == spec_resolve_to(orig.model(), events@, a as int),
                forall|a2: int, b2: int|
                    0 <= a2 < b2 < n ==> (#[trigger] events@[a2]).pid() != (
                    #[trigger] events@[b2]).pid(),
                forall|a2: int|
                    0 <= a2 < n ==> has_pid(orig.players(), (#[trigger] events@[a2]).pid()),
                n <= orig.players().len(),
                self.consistent(),
                self.tick == orig.tick,
                self.board.width == orig.board.width,
                self.board.height == orig.board.height,
                self.rng.seed == orig.rng.seed,
                self.num_foods == count_food(self.board.tiles@) + (count_ate_to(events@, n as int)
                    - count_ate_to(events@, a as int)),
                forall|p2: PlayerId|
                    orig.has_player(p2) && !died_before(events@, a as int, p2)
                        ==> #[trigger] self.has_player(p2),
                forall|p2: PlayerId|
                    #![trigger self.body_of(p2)]
                    orig.has_player(p2) && !died_before(events@, a as int, p2) ==> self.body_of(p2)
                        == orig.body_of(p2),
                forall|p2: PlayerId|
                    #![trigger self.facing(p2)]
                    orig.has_player(p2) && !died_before(events@, a as int, p2) ==> self.facing(p2)
                        == orig.facing(p2),
                forall|p2: PlayerId|
                    #[trigger] self.has_player(p2) ==> orig.has_player(p2) && !died_before(
                        events@,
                        a as int,
                        p2,
                    ),
            decreases n - a,
        {
            let ghost mid = *self;
            let e = events[a];
            proof {
                lemma_count_ate_to_mono(events@, a + 1, n as int);
                lemma_count_ate_to_bounds(events@, a as int);
                lemma_count_ate_to_bounds(events@, n as int);
                lemma_died_before_step(events@, a as int);
            }
            match e {
                SnakeGameEvent::PlayerDied(p, prob) => {
                    proof {
                        assert(has_pid(orig.players(), p)) by {
                            assert(events@[a as int].pid() == p);
                        }
                        assert(!died_before(events@, a as int, p)) by {
                            if died_before(events@, a as int, p) {
                                let b = choose|b: int|
                                    0 <= b < a && ((#[trigger] events@[b]) matches
                                        SnakeGameEvent::PlayerDied(p2, _) && p2 == p);
                                assert(events@[b].pid() == p && events@[a as int].pid() == p);
                            }
                        }
                        assert(mid.has_player(p));
                        lemma_count_food_bounds(mid.board.tiles@);
                        lemma_players_bound(orig.board, orig.players());
                        assert(mid.num_foods + mid.board.tiles@.len() <= u64::MAX);
                    }
                    self.remove_player(p, prob);
                    proof {
                        assert(events@[a as int] == SnakeGameEvent::PlayerDied(p, prob));
                        assert(self.model() == spec_remove_player(mid.model(), p, prob));
                        assert(self.model() == spec_resolve_to(orig.model(), events@, a + 1));
                        assert(count_ate_to(events@, a + 1) == count_ate_to(events@, a as int));
                        assert(self.num_foods == count_food(self.board.tiles@) + (count_ate_to(
                            events@,
                            n as int,
                        ) - count_ate_to(events@, a + 1)));
                        assert forall|p2: PlayerId|
                            orig.has_player(p2) && !died_before(events@, a + 1, p2)
                                implies #[trigger] self.has_player(p2) by {
                            assert(p2 != p);
                            assert(mid.has_player(p2));
                        }
                        assert forall|p2: PlayerId|
                            #![trigger self.body_of(p2)]
                            orig.has_player(p2) && !died_before(events@, a + 1, p2)
                                implies self.body_of(p2) == orig.body_of(p2) by {
                            assert(p2 != p);
                            assert(mid.has_player(p2));
                            assert(self.body_of(p2) == mid.body_of(p2));
                        }
                        assert forall|p2: PlayerId|
                            #![trigger self.facing(p2)]
                            orig.has_player(p2) && !died_before(events@, a + 1, p2)
                                implies self.facing(p2) == orig.facing(p2) by {
                            assert(p2 != p);
                            assert(mid.has_player(p2));
                            assert(self.facing(p2) == mid.facing(p2));
                        }
                        assert forall|p2: PlayerId| #[trigger] self.has_player(p2)
                            implies orig.has_player(p2) && !died_before(events@, a + 1, p2) by {
                            assert(mid.has_player(p2) && p2 != p);
                        }
                    }
                },
                SnakeGameEvent::PlayerAteFood(_, _) => {
                    proof {
                        lemma_count_food_bounds(self.board.tiles@);
                        assert(count_ate_to(events@, a + 1) == count_ate_to(events@, a as int)
                            + 1);
                        assert(self.num_foods >= 1);
                    }
                    self.num_foods = self.num_foods - 1;
                    proof {
                        assert(events@[a as int] is PlayerAteFood);
                        assert(self.model() == (GameModel {
                            num_foods: mid.model().num_foods - 1,
                            ..mid.model()
                        }));
                        assert(self.model() == spec_resolve_to(orig.model(), events@, a + 1));
                        assert(self.players() == mid.players());
                        assert forall|p2: PlayerId|
                            orig.has_player(p2) && !died_before(events@, a + 1, p2)
                                implies #[trigger] self.has_player(p2) by {
                            assert(!died_before(events@, a as int, p2));
                            assert(mid.has_player(p2));
                        }
                        assert forall|p2: PlayerId|
                            #![trigger self.body_of(p2)]
                            orig.has_player(p2) && !died_before(events@, a + 1, p2)
                                implies self.body_of(p2) == orig.body_of(p2) by {
                            assert(!died_before(events@, a as int, p2));
                            assert(mid.has_player(p2));
                            assert(self.body_of(p2) == mid.body_of(p2));
                            assert(mid.body_of(p2) == orig.body_of(p2));
                        }
                        assert forall|p2: PlayerId|
                            #![trigger self.facing(p2)]
                            orig.has_player(p2) && !died_before(events@, a + 1, p2)
                                implies self.facing(p2) == orig.facing(p2) by {
                            assert(!died_before(events@, a as int, p2));
                            assert(mid.has_player(p2));
                            assert(self.facing(p2) == mid.facing(p2));
                            assert(mid.facing(p2) == orig.facing(p2));
                        }
                        assert forall|p2: PlayerId| #[trigger] self.has_player(p2)
                            implies orig.has_player(p2) && !died_before(events@, a + 1, p2) by {
                            assert(mid.has_player(p2));
                        }
                    }
                },
            }
            a = a + 1;
        }
        proof {
            assert(count_ate_to(events@, n as int) - count_ate_to(events@, n as int) == 0);
            assert(self.num_foods == count_food(self.board.tiles@));
        }
    }

    /// Replenishes food up to the target of one per living player plus two,
    /// placing each new food on a random empty cell. On a board left with
    /// no empty cell — a corrupted configuration, not a recoverable
    /// condition — replenishment stops short instead of searching forever.
    fn replenish_food(&mut self)
        requires
            old(self).wf(),
        ensures
            final(self).wf(),
            final(self).player_segments == old(self).player_segments,
            final(self).tick == old(self).tick,
            final(self).rng.seed == old(self).rng.seed,
            final(self).board.width == old(self).board.width,
            final(self).board.height == old(self).board.height,
            final(self).num_foods >= old(self).num_foods,
            final(self).num_foods >= final(self).players().len() + 2 || !final(self).board.has_empty(),
            forall|p2: PlayerId|
                #![trigger final(self).facing(p2)]
                old(self).has_player(p2) ==> final(self).facing(p2) == old(self).facing(p2),
            final(self).model() == spec_replenish(old(self).model()),
    {
        let ghost orig = *self;
        proof {
            lemma_players_bound(orig.board, orig.players());
        }
        let target = self.player_segments.len() as u64 + 2;
        while self.num_foods < target
            invariant
                orig == *old(self),
                orig.wf(),
                target == orig.players().len() + 2,
                self.wf(),
                self.player_segments == orig.player_segments,
                self.tick == orig.tick,
                self.rng.seed == orig.rng.seed,
                self.board.width == orig.board.width,
                self.board.height == orig.board.height,
                self.num_foods >= orig.num_foods,
                spec_replenish(orig.model()) == spec_replenish(self.model()),
                forall|p2: PlayerId|
                    #![trigger self.facing(p2)]
                    orig.has_player(p2) ==> self.facing(p2) == orig.facing(p2),
            ensures
                self.num_foods >= target || spec_first_empty_at(
                    self.board.tiles@,
                    self.board.width as int,
                    self.board.height as int,
                    0,
                    0,
                ) is None,
                self.num_foods >= target || !self.board.has_empty(),
            decreases target - self.num_foods,
        {
            match self.board.find_empty_cell() {
                Some(c) => {
                    let ghost mid = *self;
                    proof {
                        assert(self.board.has_empty()) by {
                            assert(self.board.in_bounds_xy(c.x as int, c.y as int)
                                && self.board.at(c.x as int, c.y as int) is Empty);
                        }
                    }
                    self.spawn_food();
                    proof {
                        assert(mid.model().players == orig.model().players);
                        assert(mid.model().food_target() == target);
                        assert(spec_first_empty_at(
                            mid.model().tiles,
                            mid.model().width,
                            mid.model().height,
                            0,
                            0,
                        ) == Some(c));
                        assert(spec_replenish(mid.model()) == spec_replenish(
                            spec_spawn_food(mid.model()),
                        ));
                        assert(self.model() == spec_spawn_food(mid.model()));
                        assert(spec_replenish(orig.model()) == spec_replenish(self.model()));
                        let (fx, fy) = choose|fx: int, fy: int|
                            mid.board.in_bounds_xy(fx, fy) && mid.board.at(fx, fy) is Empty
                                && self.board.tiles@ == mid.board.tiles@.update(
                                mid.board.idx_xy(fx, fy),
                                Tile::Food,
                            );
                        assert forall|p2: PlayerId|
                            #![trigger self.facing(p2)]
                            orig.has_player(p2) implies self.facing(p2) == orig.facing(p2) by {
                            assert(mid.has_player(p2));
                            lemma_pid_found(mid.players(), p2);
                            let j = index_of_pid(mid.players(), p2);
                            assert(body_ok(mid.board, mid.players(), j));
                            let head2 = mid.players()[j].1@.last();
                            assert(mid.board.tile_at(head2) is WormSegment);
                            assert(!(head2.x == fx && head2.y == fy));
                            lemma_grid_index_bounds(
                                mid.board.width as int,
                                mid.board.height as int,
                                head2.x as int,
                                head2.y as int,
                            );
                            lemma_grid_index_bounds(
                                mid.board.width as int,
                                mid.board.height as int,
                                fx,
                                fy,
                            );
                            lemma_grid_index_injective(
                                mid.board.width as int,
                                mid.board.height as int,
                                head2.x as int,
                                head2.y as int,
                                fx,
                                fy,
                            );
                            assert(self.board.tile_at(head2) == mid.board.tile_at(head2));
                            assert(self.body_of(p2) == mid.body_of(p2));
                            assert(self.facing(p2) == mid.facing(p2));
                            assert(mid.facing(p2) == orig.facing(p2));
                        }
                    }
                },
                None => {
                    break ;
                },
            }
        }
        proof {
            assert(self.model().players == orig.model().players);
            assert(self.model().food_target() == target);
            if self.num_foods >= target {
                assert(spec_replenish(self.model()) == self.model());
            } else {
                assert(spec_replenish(self.model()) == self.model());
            }
            assert(self.model() == spec_replenish(orig.model()));
        }
    }

    /// One authoritative simulation step: apply the buffered inputs, advance
    /// every worm once in ascending id order, resolve deaths and meals,
    /// replenish food toward the target of living players plus two, and
    /// advance the tick counter. Returns the tick's events. Should the
    /// board ever fill up completely mid-replenishment — a corrupted
    /// configuration — the step ends with the food count short of the
    /// target rather than searching forever; a caller that wants the fatal
    /// treatment can test the returned state for that condition.
    #[verifier::rlimit(100)]
    #[verifier::spinoff_prover]
    pub fn tick(&mut self, inputs: &Vec<(PlayerId, SnakePlayerInput)>) -> (events: Vec<
        SnakeGameEvent,
    >)
        requires
            old(self).wf(),
            inputs_wf(inputs@),
            old(self).tick < u64::MAX,
        ensures
            final(self).wf(),
            final(self).tick == old(self).tick + 1,
            final(self).board.width == old(self).board.width,
            final(self).board.height == old(self).board.height,
            final(self).rng.seed == old(self).rng.seed,
            final(self).num_foods >= final(self).players().len() + 2 || !final(self).board.has_empty(),
            forall|a: int, b: int|
                0 <= a < b < events@.len() ==> (#[trigger] events@[a]).pid() != (
                #[trigger] events@[b]).pid(),
            forall|a: int|
                0 <= a < events@.len() ==> old(self).has_player((#[trigger] events@[a]).pid()),
            forall|a: int|
                0 <= a < events@.len() ==> match (#[trigger] events@[a]) {
                    SnakeGameEvent::PlayerAteFood(p, _) => final(self).has_player(p) && final(self).body_of(p).len() == old(self).body_of(p).len() + 1,
                    SnakeGameEvent::PlayerDied(p, _) => !final(self).has_player(p),
                },
            forall|p2: PlayerId|
                old(self).has_player(p2) && !died_in(events@, p2) ==> #[trigger] final(self).has_player(p2),
            forall|p2: PlayerId| #[trigger] final(self).has_player(p2) ==> old(self).has_player(p2),
            forall|p2: PlayerId|
                #![trigger final(self).body_of(p2)]
                old(self).has_player(p2) && !died_in(events@, p2) && !ate_in(events@, p2) ==> final(self).body_of(p2).len() == old(self).body_of(p2).len(),
            forall|p2: PlayerId|
                #![trigger final(self).facing(p2)]
                old(self).has_player(p2) && !died_in(events@, p2) ==> final(self).facing(p2)
                    == applied_facing(old(self).facing(p2), inputs@, p2),
            final(self).model() == spec_tick(old(self).model(), inputs@).0,
            events@ == spec_tick(old(self).model(), inputs@).1,
    {
        let ghost s0 = *self;
        self.tick = self.tick + 1;
        let ghost sa = *self;
        self.apply_inputs(inputs);
        let ghost s1 = *self;
        let events = self.advance_players();
        let ghost s2 = *self;
        proof {
            assert(s1.players() == s0.players());
            assert(s2.num_foods == count_food(s2.board.tiles@) + count_ate_to(
                events@,
                events@.len() as int,
            ));
            assert forall|a: int| 0 <= a < events@.len() implies has_pid(
                s2.players(),
                (#[trigger] events@[a]).pid(),
            ) by {
                assert(has_pid(s1.players(), events@[a].pid()));
                lemma_pid_found(s1.players(), events@[a].pid());
                let j = index_of_pid(s1.players(), events@[a].pid());
                assert(s2.players()[j].0 == s1.players()[j].0);
                assert(has_pid(s2.players(), events@[a].pid()));
            }
        }
        self.resolve_events(&events);
        let ghost s3 = *self;
        self.replenish_food();
        proof {
            // the state advanced by exactly the model's tick function
            let m = s0.model();
            let m0 = GameModel { tick: (m.tick + 1) as u64, ..m };
            assert(sa.model() == m0);
            let m1 = spec_apply_to(m0, inputs@, inputs@.len() as int);
            assert(s1.model() == m1);
            assert(s1.players().len() as int == m1.players.len() as int);
            let r = spec_advance_to(m1, m1.players.len() as int);
            assert(s2.model() == r.0);
            assert(events@ == r.1);
            let m3 = spec_resolve_to(r.0, r.1, r.1.len() as int);
            assert(s3.model() == m3);
            assert(self.model() == spec_replenish(m3));
            assert(self.model() == spec_tick(m, inputs@).0);
            assert(events@ == spec_tick(m, inputs@).1);
            // per-player glue across the four phases
            assert forall|p2: PlayerId|
                s0.has_player(p2) && !died_in(events@, p2) implies #[trigger] self.has_player(
                p2,
            ) by {
                tick_player_glue(s0, s1, s2, s3, *self, events@, inputs@, p2);
            }
            assert forall|p2: PlayerId| #[trigger] self.has_player(p2) implies s0.has_player(
                p2,
            ) by {
                assert(s3.has_player(p2));
                assert(s2.has_player(p2));
                lemma_pid_found(s2.players(), p2);
                let j = index_of_pid(s2.players(), p2);
                assert(s1.players()[j].0 == s2.players()[j].0);
                assert(has_pid(s1.players(), p2));
            }
            assert forall|p2: PlayerId|
                #![trigger self.body_of(p2)]
                s0.has_player(p2) && !died_in(events@, p2) && !ate_in(events@, p2)
                    implies self.body_of(p2).len() == s0.body_of(p2).len() by {
                tick_player_glue(s0, s1, s2, s3, *self, events@, inputs@, p2);
            }
            assert forall|p2: PlayerId|
                #![trigger self.facing(p2)]
                s0.has_player(p2) && !died_in(events@, p2) implies self.facing(p2)
                    == applied_facing(s0.facing(p2), inputs@, p2) by {
                tick_player_glue(s0, s1, s2, s3, *self, events@, inputs@, p2);
            }
            assert forall|a: int|
                0 <= a < events@.len() implies match (#[trigger] events@[a]) {
                SnakeGameEvent::PlayerAteFood(p, _) => self.has_player(p) && self.body_of(
                    p,
                ).len() == s0.body_of(p).len() + 1,
                SnakeGameEvent::PlayerDied(p, _) => !self.has_player(p),
            } by {
                let p = events@[a].pid();
                if events@[a] is PlayerAteFood {
                    assert(ate_in(events@, p)) by {
                        assert(0 <= a < events@.len() && (events@[a] matches
                            SnakeGameEvent::PlayerAteFood(pp, _) && pp == p));
                    }
                    assert(!died_in(events@, p)) by {
                        if died_in(events@, p) {
                            let b = choose|b: int|
                                0 <= b < events@.len() && ((#[trigger] events@[b]) matches
                                    SnakeGameEvent::PlayerDied(pp, _) && pp == p);
                            assert(events@[b].pid() == p);
                            assert(b != a);
                        }
                    }
                    assert(has_pid(s1.players(), p));
                    assert(s0.has_player(p));
                    tick_player_glue(s0, s1, s2, s3, *self, events@, inputs@, p);
                } else {
                    assert(died_in(events@, p)) by {
                        assert(0 <= a < events@.len() && (events@[a] matches
                            SnakeGameEvent::PlayerDied(pp, _) && pp == p));
                    }
                    assert(!s3.has_player(p));
                    assert(!self.has_player(p));
                }
            }
        }
        events
    }

    /// Builds a complete, self-contained copy of the state: the snapshot a
    /// newly joined observer continues the simulation from.
    pub fn snapshot(&self) -> (r: SnakeGameState)
        ensures
            same_game(r, *self),
    {
        let mut tiles: Vec<Tile> = Vec::new();
        let mut i: usize = 0;
        while i < self.board.tiles.len()
            invariant
                i <= self.board.tiles@.len(),
                tiles@.len() == i,
                forall|k: int| 0 <= k < i ==> #[trigger] tiles@[k] == self.board.tiles@[k],
            decreases self.board.tiles@.len() - i,
        {
            tiles.push(self.board.tiles[i]);
            i = i + 1;
        }
        let mut players: Vec<(PlayerId, Vec<Coord>)> = Vec::new();
        let mut j: usize = 0;
        while j < self.player_segments.len()
            invariant
                j <= self.players().len(),
                players@.len() == j,
                forall|t: int|
                    0 <= t < j ==> (#[trigger] players@[t]).0 == self.players()[t].0
                        && players@[t].1@ == self.players()[t].1@,
            decreases self.players().len() - j,
        {
            let mut body: Vec<Coord> = Vec::new();
            let mut k: usize = 0;
            while k < self.player_segments[j].1.len()
                invariant
                    j < self.players().len(),
                    k <= self.players()[j as int].1@.len(),
                    body@.len() == k,
                    forall|t: int|
                        0 <= t < k ==> #[trigger] body@[t] == self.players()[j as int].1@[t],
                decreases self.players()[j as int].1@.len() - k,
            {
                let c = self.player_segments[j].1[k];
                body.push(c);
                k = k + 1;
            }
            proof {
                assert(body@ =~= self.players()[j as int].1@);
            }
            let pid = self.player_segments[j].0;
            players.push((pid, body));
            j = j + 1;
        }
        proof {
            assert(tiles@ =~= self.board.tiles@);
        }
        SnakeGameState {
            rng: self.rng,
            tick: self.tick,
            board: Board { width: self.board.width, height: self.board.height, tiles },
            player_segments: players,
            num_foods: self.num_foods,
        }
    }

    /// Removes a player, clearing every cell its body occupied. Each cleared
    /// cell independently becomes food when the stream word drawn for it
    /// falls below `food_probability`, and empty otherwise; one word is
    /// drawn per cell regardless. Absent players are ignored.
    #[verifier::rlimit(60)]
    pub fn remove_player(&mut self, pid: PlayerId, food_probability: u32)
        requires
            old(self).consistent(),
            old(self).num_foods + old(self).board.tiles@.len() <= u64::MAX,
        ensures
            final(self).consistent(),
            !final(self).has_player(pid),
            final(self).tick == old(self).tick,
            final(self).board.width == old(self).board.width,
            final(self).board.height == old(self).board.height,
            final(self).rng.seed == old(self).rng.seed,
            !old(self).has_player(pid) ==> final(self).board == old(self).board
                && final(self).player_segments == old(self).player_segments
                && final(self).rng == old(self).rng
                && final(self).num_foods == old(self).num_foods,
            old(self).has_player(pid) ==> {
                let i = index_of_pid(old(self).players(), pid);
                let body = old(self).body_of(pid);
                let p0 = old(self).rng.word_pos;
                &&& final(self).players() == old(self).players().remove(i)
                &&& final(self).rng.word_pos == pos_plus(p0, body.len() as int)
                &&& forall|k: int|
                    0 <= k < body.len() ==> final(self).board.tile_at(#[trigger] body[k])
                        == spec_death_tile(old(self).rng.seed@, p0, food_probability, k)
                &&& forall|x: int, y: int|
                    old(self).board.in_bounds_xy(x, y) && !prefix_contains(
                        body,
                        body.len() as int,
                        x,
                        y,
                    ) ==> final(self).board.at(x, y) == #[trigger] old(self).board.at(x, y)
                &&& final(self).num_foods - old(self).num_foods == count_food(
                    final(self).board.tiles@,
                ) - count_food(old(self).board.tiles@)
                &&& old(self).num_foods <= final(self).num_foods <= old(self).num_foods
                    + body.len()
            },
            forall|p2: PlayerId|
                old(self).has_player(p2) && p2 != pid ==> #[trigger] final(self).has_player(p2),
            forall|p2: PlayerId|
                #![trigger final(self).body_of(p2)]
                old(self).has_player(p2) && p2 != pid ==> final(self).body_of(p2)
                    == old(self).body_of(p2),
            forall|p2: PlayerId|
                #![trigger final(self).facing(p2)]
                old(self).has_player(p2) && p2 != pid ==> final(self).facing(p2)
                    == old(self).facing(p2),
            final(self).model() == spec_remove_player(old(self).model(), pid, food_probability),
    {
        let ghost orig = *self;
        proof {
            lemma_model_lookup(orig.players(), pid);
        }
        match self.find_player(pid) {
            None => {
                proof {
                    assert(self.model() == spec_remove_player(
                        orig.model(),
                        pid,
                        food_probability,
                    ));
                }
            },
            Some(i) => {
                proof {
                    lemma_pid_lookup(orig.players(), i as int);
                    assert(body_ok(orig.board, orig.players(), i as int));
                    lemma_distinct_cells_bound(orig.board, orig.players()[i as int].1@);
                    lemma_remove_entry(orig.players(), i as int);
                }
                let entry = self.player_segments.remove(i);
                let body = entry.1;
                let n = body.len();
                let ghost w = orig.board.width as int;
                let ghost h = orig.board.height as int;
                let ghost p0 = orig.rng.word_pos;
                let mut k: usize = 0;
                while k < n
                    invariant
                        orig.consistent(),
                        body_ok(orig.board, orig.players(), i as int),
                        0 <= i < orig.players().len(),
                        orig.players()[i as int].0 == pid,
                        n == body@.len(),
                        k <= n,
                        n <= orig.board.tiles@.len(),
                        orig.num_foods + orig.board.tiles@.len() <= u64::MAX,
                        w == orig.board.width as int,
                        h == orig.board.height as int,
                        p0 == orig.rng.word_pos,
                        body@ == orig.players()[i as int].1@,
                        self.player_segments@ == orig.players().remove(i as int),
                        self.tick == orig.tick,
                        self.num_foods == orig.num_foods + (count_food(self.board.tiles@)
                            - count_food(orig.board.tiles@)),
                        orig.num_foods <= self.num_foods <= orig.num_foods + k,
                        self.board.width == orig.board.width,
                        self.board.height == orig.board.height,
                        self.board.wf(),
                        self.rng.seed == orig.rng.seed,
                        self.rng.word_pos == pos_plus(p0, k as int),
                        self.board.tiles@ == spec_cleared_tiles(
                            orig.board.tiles@,
                            w,
                            body@,
                            orig.rng.seed@,
                            p0,
                            food_probability,
                            k as int,
                        ),
                        self.num_foods == orig.num_foods + spec_death_food_count(
                            orig.rng.seed@,
                            p0,
                            food_probability,
                            k as int,
                        ),
                        forall|t: int|
                            0 <= t < k ==> self.board.tile_at(#[trigger] body@[t])
                                == spec_death_tile(orig.rng.seed@, p0, food_probability, t),
                        forall|x: int, y: int|
                            orig.board.in_bounds_xy(x, y) && !prefix_contains(body@, k as int, x, y)
                                ==> self.board.at(x, y) == #[trigger] orig.board.at(x, y),
                    decreases n - k,
                {
                    let ghost pre = *self;
                    let c = body[k];
                    proof {
                        assert(orig.board.in_bounds(c) && !orig.board.on_border(c));
                        assert(!prefix_contains(body@, k as int, c.x as int, c.y as int)) by {
                            if prefix_contains(body@, k as int, c.x as int, c.y as int) {
                                let t = choose|t: int|
                                    0 <= t < k && (#[trigger] body@[t]).x == c.x && body@[t].y
                                        == c.y;
                                assert(body@[t] == body@[k as int]);
                            }
                        }
                        assert(pre.board.at(c.x as int, c.y as int) == orig.board.at(
                            c.x as int,
                            c.y as int,
                        ));
                        lemma_grid_index_bounds(w, h, c.x as int, c.y as int);
                        lemma_count_food_bounds(pre.board.tiles@);
                    }
                    let word = self.rng.next_u32();
                    let t = if word < food_probability {
                        Tile::Food
                    } else {
                        Tile::Empty
                    };
                    self.board.set_tile(c, t);
                    if word < food_probability {
                        self.num_foods = self.num_foods + 1;
                    }
                    proof {
                        lemma_pos_plus_assoc(p0, k as int, 1);
                        lemma_count_food_update(
                            pre.board.tiles@,
                            pre.board.idx_xy(c.x as int, c.y as int),
                            t,
                        );
                        assert(t == spec_death_tile(orig.rng.seed@, p0, food_probability, k as int));
                        assert(self.board.tiles@ == spec_cleared_tiles(
                            orig.board.tiles@,
                            w,
                            body@,
                            orig.rng.seed@,
                            p0,
                            food_probability,
                            k + 1,
                        ));
                        assert(self.num_foods == orig.num_foods + spec_death_food_count(
                            orig.rng.seed@,
                            p0,
                            food_probability,
                            k + 1,
                        ));
                        assert(self.board.tile_at(body@[k as int]) == spec_death_tile(
                            orig.rng.seed@,
                            p0,
                            food_probability,
                            k as int,
                        ));
                        assert forall|t2: int| 0 <= t2 < k implies self.board.tile_at(
                            #[trigger] body@[t2],
                        ) == spec_death_tile(orig.rng.seed@, p0, food_probability, t2) by {
                            assert(body_ok(orig.board, orig.players(), i as int));
                            assert(body@[t2] != body@[k as int]);
                            assert(orig.board.in_bounds(body@[t2]));
                            lemma_grid_index_bounds(w, h, body@[t2].x as int, body@[t2].y as int);
                            lemma_grid_index_injective(
                                w,
                                h,
                                body@[t2].x as int,
                                body@[t2].y as int,
                                c.x as int,
                                c.y as int,
                            );
                        }
                        assert forall|x: int, y: int|
                            orig.board.in_bounds_xy(x, y) && !prefix_contains(
                                body@,
                                k + 1,
                                x,
                                y,
                            ) implies self.board.at(x, y) == #[trigger] orig.board.at(x, y) by {
                            assert(!(x == c.x && y == c.y));
                            assert(!prefix_contains(body@, k as int, x, y)) by {
                                if prefix_contains(body@, k as int, x, y) {
                                    let t2 = choose|t2: int|
                                        0 <= t2 < k && (#[trigger] body@[t2]).x == x && body@[t2].y
                                            == y;
                                    assert(0 <= t2 < k + 1 && body@[t2].x == x && body@[t2].y == y);
                                }
                            }
                            lemma_grid_index_bounds(w, h, x, y);
                            lemma_grid_index_injective(w, h, x, y, c.x as int, c.y as int);
                        }
                    }
                    k = k + 1;
                }
                proof {
                    lemma_pid_lookup(orig.players(), i as int);
                    lemma_remove_entry(orig.players(), i as int);
                    lemma_model_players_remove(orig.players(), i as int);
                    let m = orig.model();
                    assert(mindex_of_pid(m.players, pid) == i as int);
                    assert(m.players[i as int].1 == body@);
                    assert(self.model().players == m.players.remove(i as int));
                    assert(self.model() == spec_remove_player(m, pid, food_probability));
                    let ps2 = orig.players().remove(i as int);
                    assert(self.board.walled()) by {
                        assert forall|x: int, y: int|
                            self.board.in_bounds_xy(x, y) && self.board.on_border_xy(
                                x,
                                y,
                            ) implies #[trigger] self.board.at(x, y) is Wall by {
                            assert(!prefix_contains(body@, n as int, x, y)) by {
                                if prefix_contains(body@, n as int, x, y) {
                                    let t = choose|t: int|
                                        0 <= t < n && (#[trigger] body@[t]).x == x && body@[t].y
                                            == y;
                                    assert(!orig.board.on_border(body@[t]));
                                }
                            }
                            assert(self.board.at(x, y) == orig.board.at(x, y));
                        }
                    }
                    assert forall|j: int| 0 <= j < ps2.len() implies #[trigger] body_ok(
                        self.board,
                        ps2,
                        j,
                    ) by {
                        let j0 = if j < i as int {
                            j
                        } else {
                            j + 1
                        };
                        assert(ps2[j] == orig.players()[j0]);
                        assert(body_ok(orig.board, orig.players(), j0));
                        let body2 = ps2[j].1@;
                        let pid2 = ps2[j].0;
                        assert(pid2 != pid) by {
                            if j0 < i as int {
                                assert(orig.players()[j0].0.0 < orig.players()[i as int].0.0);
                            } else {
                                assert(orig.players()[i as int].0.0 < orig.players()[j0].0.0);
                            }
                        }
                        assert forall|k2: int| 0 <= k2 < body2.len() implies self.board.tile_at(
                            #[trigger] body2[k2],
                        ) == orig.board.tile_at(body2[k2]) by {
                            assert(orig.board.tile_at(body2[k2]).seg_pid() == pid2);
                            assert(!prefix_contains(
                                body@,
                                n as int,
                                body2[k2].x as int,
                                body2[k2].y as int,
                            )) by {
                                if prefix_contains(
                                    body@,
                                    n as int,
                                    body2[k2].x as int,
                                    body2[k2].y as int,
                                ) {
                                    let t = choose|t: int|
                                        0 <= t < n && (#[trigger] body@[t]).x == body2[k2].x
                                            && body@[t].y == body2[k2].y;
                                    assert(body@[t] == body2[k2]);
                                    assert(orig.board.tile_at(body@[t]).seg_pid() == pid);
                                }
                            }
                        }
                    }
                    assert forall|x: int, y: int|
                        self.board.in_bounds_xy(x, y) && (#[trigger] self.board.at(x, y))
                            is WormSegment implies has_pid(ps2, self.board.at(x, y).seg_pid())
                        && body_of_pid(ps2, self.board.at(x, y).seg_pid()).contains(
                        (Coord { x: x as isize, y: y as isize }),
                    ) by {
                        assert(!prefix_contains(body@, n as int, x, y)) by {
                            if prefix_contains(body@, n as int, x, y) {
                                let t = choose|t: int|
                                    0 <= t < n && (#[trigger] body@[t]).x == x && body@[t].y == y;
                                assert(self.board.tile_at(body@[t]) == spec_death_tile(
                                    orig.rng.seed@,
                                    p0,
                                    food_probability,
                                    t,
                                ));
                            }
                        }
                        assert(self.board.at(x, y) == orig.board.at(x, y));
                        let p2 = orig.board.at(x, y).seg_pid();
                        assert(has_pid(orig.players(), p2) && body_of_pid(
                            orig.players(),
                            p2,
                        ).contains((Coord { x: x as isize, y: y as isize })));
                        assert(p2 != pid) by {
                            if p2 == pid {
                                lemma_pid_found(orig.players(), pid);
                                let cc = Coord { x: x as isize, y: y as isize };
                                let t = choose|t: int|
                                    0 <= t < body@.len() && #[trigger] body@[t] == cc;
                                assert(prefix_contains(body@, n as int, x, y));
                            }
                        }
                        assert(has_pid(ps2, self.board.at(x, y).seg_pid()));
                        assert(body_of_pid(ps2, self.board.at(x, y).seg_pid()).contains(
                            (Coord { x: x as isize, y: y as isize }),
                        ));
                    }
                    assert forall|p2: PlayerId|
                        orig.has_player(p2) && p2 != pid implies #[trigger] has_pid(ps2, p2)
                        && body_of_pid(ps2, p2) == body_of_pid(orig.players(), p2) && self.facing(
                        p2,
                    ) == orig.facing(p2) by {
                        lemma_pid_found(orig.players(), p2);
                        let j0 = index_of_pid(orig.players(), p2);
                        assert(body_ok(orig.board, orig.players(), j0));
                        let head2 = orig.players()[j0].1@.last();
                        assert(orig.board.tile_at(head2).seg_pid() == p2);
                        assert(!prefix_contains(body@, n as int, head2.x as int, head2.y as int))
                            by {
                            if prefix_contains(body@, n as int, head2.x as int, head2.y as int) {
                                let t = choose|t: int|
                                    0 <= t < n && (#[trigger] body@[t]).x == head2.x && body@[t].y
                                        == head2.y;
                                assert(body@[t] == head2);
                                assert(orig.board.tile_at(body@[t]).seg_pid() == pid);
                            }
                        }
                        assert(self.board.tile_at(head2) == orig.board.tile_at(head2));
                    }
                    assert forall|p2: PlayerId|
                        #![trigger self.body_of(p2)]
                        orig.has_player(p2) && p2 != pid implies self.body_of(p2) == orig.body_of(
                        p2,
                    ) by {
                        assert(has_pid(ps2, p2));
                    }
                    assert forall|p2: PlayerId|
                        #![trigger self.facing(p2)]
                        orig.has_player(p2) && p2 != pid implies self.facing(p2) == orig.facing(
                        p2,
                    ) by {
                        assert(has_pid(ps2, p2));
                    }
                }
            },
        }
    }

    /// Applies every pending input through `change_direction`, in input
    /// order, before any movement.
    fn apply_inputs(&mut self, inputs: &Vec<(PlayerId, SnakePlayerInput)>)
        requires
            old(self).consistent(),
            inputs_wf(inputs@),
        ensures
            final(self).consistent(),
            final(self).player_segments == old(self).player_segments,
            final(self).tick == old(self).tick,
            final(self).num_foods == old(self).num_foods,
            final(self).rng == old(self).rng,
            final(self).board.width == old(self).board.width,
            final(self).board.height == old(self).board.height,
            count_food(final(self).board.tiles@) == count_food(old(self).board.tiles@),
            forall|p2: PlayerId|
                #![trigger final(self).facing(p2)]
                old(self).has_player(p2) ==> final(self).facing(p2) == applied_facing(
                    old(self).facing(p2),
                    inputs@,
                    p2,
                ),
            final(self).model() == spec_apply_to(old(self).model(), inputs@, inputs@.len() as int),
    {
        let ghost orig = *self;
        let n = inputs.len();
        let mut a: usize = 0;
        while a < n
            invariant
                orig == *old(self),
                orig.consistent(),
                inputs_wf(inputs@),
                n == inputs@.len(),
                a <= n,
                self.model() == spec_apply_to(orig.model(), inputs@, a as int),
                self.consistent(),
                self.player_segments == orig.player_segments,
                self.tick == orig.tick,
                self.num_foods == orig.num_foods,
                self.rng == orig.rng,
                self.board.width == orig.board.width,
                self.board.height == orig.board.height,
                count_food(self.board.tiles@) == count_food(orig.board.tiles@),
                forall|p2: PlayerId|
                    #![trigger self.facing(p2)]
                    orig.has_player(p2) ==> self.facing(p2) == (if input_before(
                        inputs@,
                        a as int,
                        p2,
                    ) && input_dir(inputs@, p2) != orig.facing(p2).spec_opposite() {
                        input_dir(inputs@, p2)
                    } else {
                        orig.facing(p2)
                    }),
            decreases n - a,
        {
            let ghost mid = *self;
            let (pid_a, inp) = inputs[a];
            proof {
                lemma_input_lookup(inputs@, a as int);
                assert(forall|b: int| 0 <= b < a ==> (#[trigger] inputs@[b]).0.0 < pid_a.0);
                assert(!input_before(inputs@, a as int, pid_a)) by {
                    if input_before(inputs@, a as int, pid_a) {
                        let b = choose|b: int|
                            0 <= b < a && (#[trigger] inputs@[b]).0 == pid_a;
                        assert(inputs@[b].0.0 < pid_a.0);
                    }
                }
            }
            match inp {
                SnakePlayerInput::ChangeDirection(d) => {
                    self.change_direction(pid_a, d);
                    proof {
                        assert(inputs@[a as int] == (pid_a, inp));
                        assert(self.model() == spec_change_direction(mid.model(), pid_a, d));
                        assert(self.model() == spec_apply_to(orig.model(), inputs@, a + 1));
                        assert(mid.players() == orig.players());
                        assert forall|p2: PlayerId|
                            #![trigger self.facing(p2)]
                            orig.has_player(p2) implies self.facing(p2) == (if input_before(
                            inputs@,
                            a + 1,
                            p2,
                        ) && input_dir(inputs@, p2) != orig.facing(p2).spec_opposite() {
                            input_dir(inputs@, p2)
                        } else {
                            orig.facing(p2)
                        }) by {
                            assert(mid.has_player(p2));
                            if p2 == pid_a {
                                assert(input_dir(inputs@, pid_a) == d);
                                assert(input_before(inputs@, a + 1, pid_a));
                                assert(mid.facing(pid_a) == orig.facing(pid_a));
                                assert(self.facing(pid_a) == (if d == mid.facing(
                                    pid_a,
                                ).spec_opposite() {
                                    mid.facing(pid_a)
                                } else {
                                    d
                                }));
                            } else {
                                assert(self.facing(p2) == mid.facing(p2));
                                assert(input_before(inputs@, a + 1, p2) <==> input_before(
                                    inputs@,
                                    a as int,
                                    p2,
                                )) by {
                                    if input_before(inputs@, a + 1, p2) {
                                        let b = choose|b: int|
                                            0 <= b < a + 1 && (#[trigger] inputs@[b]).0 == p2;
                                        assert(b != a);
                                        assert(input_before(inputs@, a as int, p2));
                                    }
                                }
                            }
                        }
                    }
                },
            }
            a = a + 1;
        }
        proof {
            assert forall|p2: PlayerId|
                #![trigger self.facing(p2)]
                orig.has_player(p2) implies self.facing(p2) == applied_facing(
                orig.facing(p2),
                inputs@,
                p2,
            ) by {}
        }
    }

    /// Applies one `ChangeDirection` request: if `pid` is alive and the
    /// requested direction is not the exact reverse of its current facing,
    /// the head tile's stored facing becomes the request; otherwise nothing
    /// changes. In particular a worm can never reverse onto its own neck.
    pub fn change_direction(&mut self, pid: PlayerId, dir: Direction)
        requires
            old(self).consistent(),
        ensures
            final(self).consistent(),
            final(self).player_segments == old(self).player_segments,
            final(self).tick == old(self).tick,
            final(self).num_foods == old(self).num_foods,
            final(self).rng == old(self).rng,
            final(self).board.width == old(self).board.width,
            final(self).board.height == old(self).board.height,
            count_food(final(self).board.tiles@) == count_food(old(self).board.tiles@),
            !old(self).has_player(pid) ==> final(self).board == old(self).board,
            old(self).has_player(pid) ==> {
                let head = old(self).body_of(pid).last();
                let cur = old(self).facing(pid);
                &&& (dir == cur.spec_opposite() ==> final(self).board == old(self).board)
                &&& (dir != cur.spec_opposite() ==> final(self).board.tiles@ == old(self).board.tiles@.update(
                    old(self).board.idx_xy(head.x as int, head.y as int),
                    Tile::WormSegment { pid, dir },
                ))
                &&& final(self).facing(pid) == (if dir == cur.spec_opposite() {
                    cur
                } else {
                    dir
                })
                &&& forall|x: int, y: int|
                    old(self).board.in_bounds_xy(x, y) && !(x == head.x && y == head.y)
                        ==> final(self).board.at(x, y) == #[trigger] old(self).board.at(x, y)
            },
            forall|p2: PlayerId|
                old(self).has_player(p2) && p2 != pid ==> #[trigger] final(self).facing(p2) == old(self).facing(p2),
            final(self).model() == spec_change_direction(old(self).model(), pid, dir),
    {
        let ghost pre = *self;
        proof {
            lemma_model_lookup(pre.players(), pid);
        }
        match self.find_player(pid) {
            None => {
                proof {
                    assert forall|p2: PlayerId|
                        pre.has_player(p2) && p2 != pid implies #[trigger] self.facing(p2)
                        == pre.facing(p2) by {}
                    assert(!mhas_pid(pre.model().players, pid));
                    assert(self.model() == spec_change_direction(pre.model(), pid, dir));
                }
            },
            Some(i) => {
                proof {
                    lemma_pid_lookup(pre.players(), i as int);
                    assert(body_ok(pre.board, pre.players(), i as int));
                }
                let blen = self.player_segments[i].1.len();
                let head = self.player_segments[i].1[blen - 1];
                proof {
                    assert(head == pre.body_of(pid).last());
                }
                let t = self.board.tile(head);
                if let Tile::WormSegment { pid: pid2, dir: dir2 } = t {
                    let opp = dir2.opposite();
                    if !(dir == opp) {
                        proof {
                            lemma_grid_index_bounds(
                                self.board.width as int,
                                self.board.height as int,
                                head.x as int,
                                head.y as int,
                            );
                            lemma_count_food_update(
                                self.board.tiles@,
                                self.board.idx_xy(head.x as int, head.y as int),
                                Tile::WormSegment { pid, dir },
                            );
                        }
                        self.board.set_tile(head, Tile::WormSegment { pid, dir });
                        proof {
                            lemma_set_head_dir(
                                pre.board,
                                self.board,
                                pre.players(),
                                i as int,
                                dir,
                            );
                            let w = pre.board.width as int;
                            let h = pre.board.height as int;
                            assert forall|x: int, y: int|
                                pre.board.in_bounds_xy(x, y) && !(x == head.x && y == head.y)
                                    implies self.board.at(x, y) == pre.board.at(x, y) by {
                                lemma_grid_index_bounds(w, h, x, y);
                                lemma_grid_index_bounds(w, h, head.x as int, head.y as int);
                                lemma_grid_index_injective(w, h, x, y, head.x as int, head.y as int);
                            }
                            assert(self.facing(pid) == dir);
                            assert(self.model() == spec_change_direction(pre.model(), pid, dir))
                                by {
                                let m = pre.model();
                                assert(mindex_of_pid(m.players, pid) == i as int);
                                assert(m.players[i as int].1 == pre.players()[i as int].1@);
                                assert(m.at(head) == pre.board.tile_at(head));
                                assert(self.model().tiles == m.tiles.update(
                                    m.idx(head),
                                    Tile::WormSegment { pid, dir },
                                ));
                                assert(self.model().players == m.players);
                            }
                            assert forall|p2: PlayerId|
                                pre.has_player(p2) && p2 != pid implies #[trigger] self.facing(p2)
                                == pre.facing(p2) by {
                                lemma_pid_found(pre.players(), p2);
                                let j = index_of_pid(pre.players(), p2);
                                assert(body_ok(pre.board, pre.players(), j));
                                let head2 = pre.players()[j].1@.last();
                                assert(pre.board.tile_at(head2).seg_pid() == p2);
                                assert(!(head2.x == head.x && head2.y == head.y)) by {
                                    if head2.x == head.x && head2.y == head.y {
                                        assert(head2 == head);
                                        assert(pre.board.tile_at(head).seg_pid() == pid);
                                    }
                                }
                            }
                        }
                    } else {
                        proof {
                            assert forall|p2: PlayerId|
                                pre.has_player(p2) && p2 != pid implies #[trigger] self.facing(p2)
                                == pre.facing(p2) by {}
                            assert(self.model() == spec_change_direction(pre.model(), pid, dir))
                                by {
                                let m = pre.model();
                                assert(mindex_of_pid(m.players, pid) == i as int);
                                assert(m.players[i as int].1 == pre.players()[i as int].1@);
                                assert(m.at(head) == pre.board.tile_at(head));
                            }
                        }
                    }
                }
            },
        }
    }
}

} // verus!
