//! The session actor's decision core: the single logical owner of one game,
//! fed connect, input, timer and failure events one at a time, answering
//! each with the outbound messages to enqueue. All transport stays outside;
//! a send failure is reported back as a failure event for the affected peer.

use vstd::prelude::*;
use crate::game::{
    has_input, has_pid, index_of_input, index_of_pid, input_of, inputs_wf, lemma_input_found,
    lemma_input_lookup, lemma_pid_found, lemma_pid_lookup, same_game, SnakeGameState,
};
use crate::messages::{PlayerId, SnakePlayerInput};
use crate::board::Tile;
use crate::model::{
    lemma_death_food_count_zero, mhas_pid, spec_new_game, spec_remove_player, spec_tick,
};

verus! {

/// A server-to-client message: the full-state baseline a joiner receives
/// (and, in this design, every peer re-receives on a join), the per-tick
/// input broadcast clients replay for prediction, and the leave notice.
#[derive(Clone, Debug, PartialEq)]
pub enum ServerToClient {
    Initialize { pid: PlayerId, world: SnakeGameState },
    DoTick { tick: u64, inputs: Vec<(PlayerId, SnakePlayerInput)> },
    PlayerDisconnected { pid: PlayerId },
}

/// A client-to-server message: the only request a client may make.
#[derive(Copy, Clone, Debug, PartialEq, Eq, Structural)]
pub enum ClientToServer {
    InputAtTick { tick: u64, input: SnakePlayerInput },
}

/// One outbound delivery the actor asks its transport to make.
#[derive(Clone, Debug, PartialEq)]
pub struct ServerAction {
    pub to: PlayerId,
    pub msg: ServerToClient,
}

/// The last input a drained receive batch holds for `pid` among its first
/// `a` entries, if any: later entries win.
pub open spec fn last_input_to(
    rec: Seq<(PlayerId, ClientToServer)>,
    a: int,
    pid: PlayerId,
) -> Option<SnakePlayerInput>
    decreases a,
{
    if a <= 0 {
        Option::None
    } else if rec[a - 1].0 == pid {
        match rec[a - 1].1 {
            ClientToServer::InputAtTick { input, .. } => Option::Some(input),
        }
    } else {
        last_input_to(rec, a - 1, pid)
    }
}

/// Connection ids are kept strictly ascending: they are handed out
/// monotonically and never reused.
pub open spec fn conn_sorted(cs: Seq<PlayerId>) -> bool {
    forall|i: int, j: int| 0 <= i < j < cs.len() ==> (#[trigger] cs[i]).0 < (#[trigger] cs[j]).0
}

/// Whether `pid` is a live connection.
pub open spec fn has_conn(cs: Seq<PlayerId>, pid: PlayerId) -> bool {
    exists|i: int| 0 <= i < cs.len() && (#[trigger] cs[i]) == pid
}

/// The single-writer session state: the id counter, the authoritative game,
/// the connected peers and the pending last-write-wins input per player.
#[derive(Clone, Debug)]
pub struct ServerGameState {
    pub next_pid: PlayerId,
    pub game_state: SnakeGameState,
    pub connections: Vec<PlayerId>,
    pub player_inputs: Vec<(PlayerId, SnakePlayerInput)>,
}

impl ServerGameState {
    /// Actor well-formedness: a well-formed game, sorted connections and
    /// inputs, and every id ever handed out below the counter — so a fresh
    /// id can never collide with a live player, connection or input.
    pub open spec fn wf(self) -> bool {
        &&& self.game_state.wf()
        &&& conn_sorted(self.connections@)
        &&& inputs_wf(self.player_inputs@)
        &&& forall|k: int|
            0 <= k < self.connections@.len() ==> (#[trigger] self.connections@[k]).0
                < self.next_pid.0
        &&& forall|k: int|
            0 <= k < self.player_inputs@.len() ==> (#[trigger] self.player_inputs@[k]).0.0
                < self.next_pid.0
        &&& forall|j: int|
            0 <= j < self.game_state.players().len() ==> (
            #[trigger] self.game_state.players()[j]).0.0 < self.next_pid.0
    }

    /// A fresh session: id counter at zero, a fresh game, nobody connected.
    pub fn new() -> (r: ServerGameState)
        ensures
            r.wf(),
            r.next_pid == (PlayerId(0)),
            r.connections@.len() == 0,
            r.player_inputs@.len() == 0,
            r.game_state.players().len() == 0,
            r.game_state.tick == 0,
            r.game_state.num_foods == 0,
            r.game_state.board.width == 40,
            r.game_state.board.height == 30,
            r.game_state.rng.seed@ == crate::serializable_chacha::seed_of_u64(0xdeadbeefdeadbeef),
            r.game_state.rng.word_pos == 0,
            forall|x: int, y: int|
                r.game_state.board.in_bounds_xy(x, y) ==> #[trigger] r.game_state.board.at(x, y)
                    == (if r.game_state.board.on_border_xy(x, y) {
                    Tile::Wall
                } else {
                    Tile::Empty
                }),
            r.game_state.model() == spec_new_game(),
    {
        ServerGameState {
            next_pid: PlayerId(0),
            game_state: SnakeGameState::new(),
            connections: Vec::new(),
            player_inputs: Vec::new(),
        }
    }

    /// Admits a new connection: allocates the next id (never reused), spawns
    /// its worm, and asks the transport to send the new peer — and every
    /// already-connected peer — an `Initialize` baseline carrying the same
    /// post-spawn snapshot under the receiver's own id.
    pub fn on_player_connected(&mut self) -> (r: (PlayerId, Vec<ServerAction>))
        requires
            old(self).wf(),
            old(self).next_pid.0 < usize::MAX,
            old(self).game_state.board.has_empty(),
        ensures
            final(self).wf(),
            r.0 == old(self).next_pid,
            final(self).next_pid.0 == old(self).next_pid.0 + 1,
            final(self).game_state.has_player(r.0),
            final(self).connections@ == old(self).connections@.push(r.0),
            final(self).player_inputs == old(self).player_inputs,
            r.1@.len() == old(self).connections@.len() + 1,
            ({
                &&& r.1@[0].to == r.0
                &&& r.1@[0].msg matches ServerToClient::Initialize { pid, world } && pid == r.0
                    && same_game(world, final(self).game_state)
            }),
            forall|k: int|
                1 <= k < r.1@.len() ==> ({
                    &&& (#[trigger] r.1@[k]).to == old(self).connections@[k - 1]
                    &&& r.1@[k].msg matches ServerToClient::Initialize { pid, world } && pid == old(
                        self,
                    ).connections@[k - 1] && same_game(world, final(self).game_state)
                }),
    {
        let ghost orig = *self;
        let pid = self.next_pid;
        self.next_pid = PlayerId(pid.0 + 1);
        proof {
            assert(!self.game_state.has_player(pid)) by {
                if has_pid(self.game_state.players(), pid) {
                    let j = choose|j: int|
                        0 <= j < self.game_state.players().len() && (
                        #[trigger] self.game_state.players()[j]).0 == pid;
                    assert(self.game_state.players()[j].0.0 < pid.0);
                }
            }
        }
        self.game_state.spawn_player(pid);
        let mut actions: Vec<ServerAction> = Vec::new();
        let snap = self.game_state.snapshot();
        actions.push(
            ServerAction { to: pid, msg: ServerToClient::Initialize { pid, world: snap } },
        );
        let n = self.connections.len();
        let mut k: usize = 0;
        while k < n
            invariant
                n == self.connections@.len(),
                k <= n,
                self.connections@ == orig.connections@,
                actions@.len() == k + 1,
                ({
                    &&& actions@[0].to == pid
                    &&& actions@[0].msg matches ServerToClient::Initialize { pid: p0, world }
                        && p0 == pid && same_game(world, self.game_state)
                }),
                forall|t: int|
                    1 <= t < k + 1 ==> ({
                        &&& (#[trigger] actions@[t]).to == orig.connections@[t - 1]
                        &&& actions@[t].msg matches ServerToClient::Initialize { pid: pt, world }
                            && pt == orig.connections@[t - 1] && same_game(world, self.game_state)
                    }),
                self.game_state.wf(),
            decreases n - k,
        {
            let to = self.connections[k];
            let w = self.game_state.snapshot();
            actions.push(
                ServerAction { to, msg: ServerToClient::Initialize { pid: to, world: w } },
            );
            k = k + 1;
        }
        self.connections.push(pid);
        proof {
            assert forall|a: int, b: int|
                0 <= a < b < self.connections@.len() implies (#[trigger] self.connections@[a]).0
                < (#[trigger] self.connections@[b]).0 by {
                if b < orig.connections@.len() {
                    assert(self.connections@[a] == orig.connections@[a]);
                    assert(self.connections@[b] == orig.connections@[b]);
                } else {
                    assert(self.connections@[b] == pid);
                    assert(self.connections@[a] == orig.connections@[a]);
                    assert(orig.connections@[a].0 < pid.0);
                }
            }
            assert forall|j: int|
                0 <= j < self.game_state.players().len() implies (
            #[trigger] self.game_state.players()[j]).0.0 < self.next_pid.0 by {
                let p = self.game_state.players()[j].0;
                lemma_pid_lookup(self.game_state.players(), j);
                assert(self.game_state.has_player(p));
                if p != pid {
                    assert(orig.game_state.has_player(p));
                    lemma_pid_found(orig.game_state.players(), p);
                    let j0 = index_of_pid(orig.game_state.players(), p);
                    assert(orig.game_state.players()[j0].0.0 < pid.0);
                }
            }
        }
        (pid, actions)
    }

    /// Records or replaces the pending input of one player, keeping the
    /// list keyed by ascending id.
    fn upsert_input(&mut self, pid: PlayerId, input: SnakePlayerInput)
        requires
            inputs_wf(old(self).player_inputs@),
            pid.0 < old(self).next_pid.0,
        ensures
            final(self).game_state == old(self).game_state,
            final(self).connections == old(self).connections,
            final(self).next_pid == old(self).next_pid,
            inputs_wf(final(self).player_inputs@),
            forall|p: PlayerId|
                #![trigger has_input(final(self).player_inputs@, p)]
                has_input(final(self).player_inputs@, p) <==> (has_input(
                    old(self).player_inputs@,
                    p,
                ) || p == pid),
            forall|p: PlayerId|
                #![trigger input_of(final(self).player_inputs@, p)]
                has_input(final(self).player_inputs@, p) ==> input_of(
                    final(self).player_inputs@,
                    p,
                ) == (if p == pid {
                    input
                } else {
                    input_of(old(self).player_inputs@, p)
                }),
            forall|k: int|
                0 <= k < final(self).player_inputs@.len() ==> ((
                #[trigger] final(self).player_inputs@[k]).0 == pid || has_input(
                    old(self).player_inputs@,
                    final(self).player_inputs@[k].0,
                )),
    {
        let ghost orig = old(self).player_inputs@;
        let n = self.player_inputs.len();
        let mut i: usize = 0;
        while i < n && self.player_inputs[i].0.0 < pid.0
            invariant
                *self == *old(self),
                n == self.player_inputs@.len(),
                i <= n,
                forall|t: int| 0 <= t < i ==> (#[trigger] self.player_inputs@[t]).0.0 < pid.0,
            decreases n - i,
        {
            i = i + 1;
        }
        proof {
            assert forall|t: int| i <= t < n implies pid.0 <= (
            #[trigger] self.player_inputs@[t]).0.0 by {
                if (i as int) < n {
                    assert(inputs_wf(orig));
                    if t > i {
                        assert(orig[i as int].0.0 < orig[t].0.0);
                    }
                }
            }
        }
        if i < n && self.player_inputs[i].0.0 == pid.0 {
            proof {
                assert(self.player_inputs@[i as int].0 == pid);
            }
            self.player_inputs[i] = (pid, input);
            proof {
                let ps2 = self.player_inputs@;
                assert forall|a: int, b: int| 0 <= a < b < ps2.len() implies (
                #[trigger] ps2[a]).0.0 < (#[trigger] ps2[b]).0.0 by {
                    assert(ps2[a].0 == orig[a].0 && ps2[b].0 == orig[b].0);
                }
                assert forall|p: PlayerId|
                    #![trigger has_input(ps2, p)]
                    has_input(ps2, p) <==> (has_input(orig, p) || p == pid) by {
                    if has_input(ps2, p) {
                        let t = choose|t: int|
                            0 <= t < ps2.len() && (#[trigger] ps2[t]).0 == p;
                        assert(orig[t].0 == p);
                        assert(has_input(orig, p));
                    }
                    if has_input(orig, p) {
                        let t = choose|t: int| 0 <= t < orig.len() && (#[trigger] orig[t]).0 == p;
                        assert(ps2[t].0 == p);
                        assert(has_input(ps2, p));
                    }
                    if p == pid {
                        assert(ps2[i as int].0 == p);
                        assert(has_input(ps2, p));
                    }
                }
                assert forall|p: PlayerId|
                    #![trigger input_of(ps2, p)]
                    has_input(ps2, p) implies input_of(ps2, p) == (if p == pid {
                    input
                } else {
                    input_of(orig, p)
                }) by {
                    lemma_input_found(ps2, p);
                    let t = index_of_input(ps2, p);
                    if p == pid {
                        assert(orig[t].0 == p);
                        lemma_input_lookup(orig, t);
                        lemma_input_lookup(orig, i as int);
                        assert(t == i as int);
                    } else {
                        assert(orig[t].0 == p);
                        assert(has_input(orig, p));
                        lemma_input_lookup(orig, t);
                        assert(ps2[t].1 == orig[t].1);
                    }
                }
            }
        } else {
            proof {
                assert(!has_input(orig, pid)) by {
                    if has_input(orig, pid) {
                        let t = choose|t: int| 0 <= t < orig.len() && (#[trigger] orig[t]).0 == pid;
                        if t < i {
                            assert(orig[t].0.0 < pid.0);
                        } else {
                            assert(pid.0 <= orig[t].0.0);
                            assert(orig[t].0.0 == pid.0);
                            assert(t >= i);
                            if (i as int) < n {
                                assert(t == i as int || orig[i as int].0.0 < orig[t].0.0);
                            }
                        }
                    }
                }
            }
            self.player_inputs.insert(i, (pid, input));
            proof {
                let ps2 = self.player_inputs@;
                assert(ps2 == orig.insert(i as int, (pid, input)));
                assert forall|a: int, b: int| 0 <= a < b < ps2.len() implies (
                #[trigger] ps2[a]).0.0 < (#[trigger] ps2[b]).0.0 by {
                    let a0 = if a < i {
                        a
                    } else {
                        a - 1
                    };
                    let b0 = if b < i {
                        b
                    } else {
                        b - 1
                    };
                    if a == i && b > i {
                        assert(ps2[b] == orig[b0]);
                        assert(pid.0 <= orig[b0].0.0 && orig[b0].0 != pid);
                    } else if b == i {
                        assert(ps2[a] == orig[a0]);
                    } else if a < i && b > i {
                        assert(ps2[a] == orig[a0] && ps2[b] == orig[b0]);
                        assert(orig[a0].0.0 < pid.0);
                        assert(pid.0 <= orig[b0].0.0 && orig[b0].0 != pid);
                    } else {
                        assert(ps2[a] == orig[a0] && ps2[b] == orig[b0]);
                    }
                }
                assert forall|p: PlayerId|
                    #![trigger has_input(ps2, p)]
                    has_input(ps2, p) <==> (has_input(orig, p) || p == pid) by {
                    if has_input(ps2, p) {
                        let t = choose|t: int|
                            0 <= t < ps2.len() && (#[trigger] ps2[t]).0 == p;
                        if t != i {
                            let t0 = if t < i {
                                t
                            } else {
                                t - 1
                            };
                            assert(ps2[t] == orig[t0]);
                            assert(has_input(orig, p));
                        }
                    }
                    if has_input(orig, p) {
                        let t = choose|t: int| 0 <= t < orig.len() && (#[trigger] orig[t]).0 == p;
                        let t2 = if t < i {
                            t
                        } else {
                            t + 1
                        };
                        assert(ps2[t2] == orig[t]);
                        assert(has_input(ps2, p));
                    }
                    if p == pid {
                        assert(ps2[i as int].0 == p);
                        assert(has_input(ps2, p));
                    }
                }
                assert forall|p: PlayerId|
                    #![trigger input_of(ps2, p)]
                    has_input(ps2, p) implies input_of(ps2, p) == (if p == pid {
                    input
                } else {
                    input_of(orig, p)
                }) by {
                    lemma_input_found(ps2, p);
                    let t = index_of_input(ps2, p);
                    if p == pid {
                        lemma_input_lookup(ps2, i as int);
                        assert(t == i as int);
                    } else {
                        assert(t != i);
                        let t0 = if t < i {
                            t
                        } else {
                            t - 1
                        };
                        assert(ps2[t] == orig[t0]);
                        assert(has_input(orig, p));
                        lemma_input_lookup(orig, t0);
                        assert(input_of(orig, p) == orig[t0].1);
                    }
                }
                assert forall|k: int| 0 <= k < ps2.len() implies ((#[trigger] ps2[k]).0 == pid
                    || has_input(orig, ps2[k].0)) by {
                    if k != i {
                        let k0 = if k < i {
                            k
                        } else {
                            k - 1
                        };
                        assert(ps2[k] == orig[k0]);
                        assert(has_input(orig, ps2[k].0));
                    }
                }
            }
        }
    }

    /// A copy of the pending inputs, for a broadcast payload.
    fn copy_inputs(&self) -> (r: Vec<(PlayerId, SnakePlayerInput)>)
        ensures
            r@ == self.player_inputs@,
    {
        let mut r: Vec<(PlayerId, SnakePlayerInput)> = Vec::new();
        let mut t: usize = 0;
        while t < self.player_inputs.len()
            invariant
                t <= self.player_inputs@.len(),
                r@.len() == t,
                forall|k: int| 0 <= k < t ==> #[trigger] r@[k] == self.player_inputs@[k],
            decreases self.player_inputs@.len() - t,
        {
            let e = self.player_inputs[t];
            r.push(e);
            t = t + 1;
        }
        proof {
            assert(r@ =~= self.player_inputs@);
        }
        r
    }

    /// One simulation period: drain the received batch into the pending
    /// inputs (last write per player wins), broadcast `DoTick` with the
    /// pre-step tick number and the inputs every client must replay, and
    /// only then advance the authoritative simulation. With nobody
    /// connected, time stands still.
    pub fn on_do_tick(&mut self, received: &Vec<(PlayerId, ClientToServer)>) -> (r: Vec<
        ServerAction,
    >)
        requires
            old(self).wf(),
            old(self).game_state.tick < u64::MAX,
            forall|t: int|
                0 <= t < received@.len() ==> (#[trigger] received@[t]).0.0 < old(self).next_pid.0,
        ensures
            final(self).wf(),
            final(self).next_pid == old(self).next_pid,
            final(self).connections == old(self).connections,
            old(self).connections@.len() == 0 ==> final(self).game_state == old(self).game_state
                && final(self).player_inputs == old(self).player_inputs && r@.len() == 0,
            old(self).connections@.len() > 0 ==> ({
                &&& forall|p: PlayerId|
                    #![trigger has_input(final(self).player_inputs@, p)]
                    has_input(final(self).player_inputs@, p) <==> (has_input(
                        old(self).player_inputs@,
                        p,
                    ) || last_input_to(received@, received@.len() as int, p) is Some)
                &&& forall|p: PlayerId|
                    #![trigger input_of(final(self).player_inputs@, p)]
                    has_input(final(self).player_inputs@, p) ==> input_of(
                        final(self).player_inputs@,
                        p,
                    ) == (match last_input_to(received@, received@.len() as int, p) {
                        Option::Some(inp) => inp,
                        Option::None => input_of(old(self).player_inputs@, p),
                    })
                &&& r@.len() == old(self).connections@.len()
                &&& forall|k: int|
                    0 <= k < r@.len() ==> ({
                        &&& (#[trigger] r@[k]).to == old(self).connections@[k]
                        &&& r@[k].msg matches ServerToClient::DoTick { tick, inputs } && tick
                            == old(self).game_state.tick && inputs@ == final(self).player_inputs@
                    })
                &&& final(self).game_state.tick == old(self).game_state.tick + 1
                &&& final(self).game_state.model() == spec_tick(
                    old(self).game_state.model(),
                    final(self).player_inputs@,
                ).0
            }),
    {
        let ghost orig = *self;
        if self.connections.len() == 0 {
            return Vec::new();
        }
        let nrec = received.len();
        let mut t: usize = 0;
        while t < nrec
            invariant
                orig == *old(self),
                orig.wf(),
                nrec == received@.len(),
                t <= nrec,
                forall|t2: int|
                    0 <= t2 < received@.len() ==> (#[trigger] received@[t2]).0.0 < orig.next_pid.0,
                self.game_state == orig.game_state,
                self.connections == orig.connections,
                self.next_pid == orig.next_pid,
                inputs_wf(self.player_inputs@),
                forall|p: PlayerId|
                    #![trigger has_input(self.player_inputs@, p)]
                    has_input(self.player_inputs@, p) <==> (has_input(orig.player_inputs@, p)
                        || last_input_to(received@, t as int, p) is Some),
                forall|p: PlayerId|
                    #![trigger input_of(self.player_inputs@, p)]
                    has_input(self.player_inputs@, p) ==> input_of(self.player_inputs@, p) == (
                    match last_input_to(received@, t as int, p) {
                        Option::Some(inp) => inp,
                        Option::None => input_of(orig.player_inputs@, p),
                    }),
                forall|k: int|
                    0 <= k < self.player_inputs@.len() ==> (#[trigger] self.player_inputs@[k]).0.0
                        < orig.next_pid.0,
            decreases nrec - t,
        {
            let ghost mid = *self;
            let (pid, msg) = received[t];
            match msg {
                ClientToServer::InputAtTick { tick: _, input } => {
                    self.upsert_input(pid, input);
                    proof {
                        assert forall|p: PlayerId|
                            #![trigger has_input(self.player_inputs@, p)]
                            has_input(self.player_inputs@, p) <==> (has_input(
                            orig.player_inputs@,
                            p,
                        ) || last_input_to(received@, t + 1, p) is Some) by {
                            if p == pid {
                                assert(last_input_to(received@, t + 1, p) is Some);
                                assert(has_input(self.player_inputs@, p));
                            } else {
                                assert(last_input_to(received@, t + 1, p) == last_input_to(
                                    received@,
                                    t as int,
                                    p,
                                ));
                                assert(has_input(self.player_inputs@, p) == has_input(
                                    mid.player_inputs@,
                                    p,
                                ));
                            }
                        }
                        assert forall|p: PlayerId|
                            #![trigger input_of(self.player_inputs@, p)]
                            has_input(self.player_inputs@, p) implies input_of(
                            self.player_inputs@,
                            p,
                        ) == (match last_input_to(received@, t + 1, p) {
                            Option::Some(inp) => inp,
                            Option::None => input_of(orig.player_inputs@, p),
                        }) by {
                            if p == pid {
                                assert(input_of(self.player_inputs@, p) == input);
                            } else {
                                assert(input_of(self.player_inputs@, p) == input_of(
                                    mid.player_inputs@,
                                    p,
                                ));
                                assert(has_input(mid.player_inputs@, p));
                            }
                        }
                        assert forall|k: int| 0 <= k < self.player_inputs@.len() implies (
                        #[trigger] self.player_inputs@[k]).0.0 < orig.next_pid.0 by {
                            if self.player_inputs@[k].0 != pid {
                                assert(has_input(mid.player_inputs@, self.player_inputs@[k].0));
                                let t2 = choose|t2: int|
                                    0 <= t2 < mid.player_inputs@.len() && (
                                    #[trigger] mid.player_inputs@[t2]).0
                                        == self.player_inputs@[k].0;
                                assert(mid.player_inputs@[t2].0.0 < orig.next_pid.0);
                            }
                        }
                    }
                },
            }
            t = t + 1;
        }
        let mut actions: Vec<ServerAction> = Vec::new();
        let ncon = self.connections.len();
        let mut k: usize = 0;
        while k < ncon
            invariant
                ncon == self.connections@.len(),
                k <= ncon,
                self.connections@ == orig.connections@,
                self.game_state == orig.game_state,
                actions@.len() == k,
                forall|k2: int|
                    0 <= k2 < k ==> ({
                        &&& (#[trigger] actions@[k2]).to == orig.connections@[k2]
                        &&& actions@[k2].msg matches ServerToClient::DoTick { tick, inputs }
                            && tick == orig.game_state.tick && inputs@ == self.player_inputs@
                    }),
            decreases ncon - k,
        {
            let to = self.connections[k];
            let payload = self.copy_inputs();
            actions.push(
                ServerAction {
                    to,
                    msg: ServerToClient::DoTick { tick: self.game_state.tick, inputs: payload },
                },
            );
            k = k + 1;
        }
        let ghost pre_step = *self;
        let _ = self.game_state.tick(&self.player_inputs);
        proof {
            assert(pre_step.game_state.model() == orig.game_state.model());
            assert(self.game_state.model() == spec_tick(
                orig.game_state.model(),
                self.player_inputs@,
            ).0);
            assert forall|j: int| 0 <= j < self.game_state.players().len() implies (
            #[trigger] self.game_state.players()[j]).0.0 < self.next_pid.0 by {
                let p = self.game_state.players()[j].0;
                lemma_pid_lookup(self.game_state.players(), j);
                assert(self.game_state.has_player(p));
                assert(pre_step.game_state.has_player(p));
                lemma_pid_found(orig.game_state.players(), p);
                let j0 = index_of_pid(orig.game_state.players(), p);
                assert(orig.game_state.players()[j0].0.0 < orig.next_pid.0);
            }
        }
        actions
    }

    /// Handles a failed delivery: the peer is gone. Its worm is removed
    /// with conversion probability zero (cells simply clear), its pending
    /// input and channel entry are dropped, and every remaining peer is
    /// told `PlayerDisconnected`. No other peer's delivery is affected.
    pub fn on_send_failure(&mut self, pid: PlayerId) -> (r: Vec<ServerAction>)
        requires
            old(self).wf(),
        ensures
            final(self).wf(),
            final(self).next_pid == old(self).next_pid,
            !final(self).game_state.has_player(pid),
            !has_conn(final(self).connections@, pid),
            !has_input(final(self).player_inputs@, pid),
            r@.len() == final(self).connections@.len(),
            forall|k: int|
                0 <= k < r@.len() ==> ({
                    &&& (#[trigger] r@[k]).to == final(self).connections@[k]
                    &&& r@[k].msg matches ServerToClient::PlayerDisconnected { pid: p } && p == pid
                }),
            forall|p: PlayerId|
                #![trigger has_conn(final(self).connections@, p)]
                has_conn(final(self).connections@, p) <==> (has_conn(old(self).connections@, p)
                    && p != pid),
            final(self).game_state.model() == spec_remove_player(
                old(self).game_state.model(),
                pid,
                0,
            ),
            final(self).game_state.num_foods == old(self).game_state.num_foods,
            final(self).game_state.tick == old(self).game_state.tick,
            forall|p: PlayerId|
                old(self).game_state.has_player(p) && p != pid ==> #[trigger] final(self).game_state.has_player(p) && final(self).game_state.body_of(p) == old(
                    self,
                ).game_state.body_of(p) && final(self).game_state.facing(p) == old(
                    self,
                ).game_state.facing(p),
    {
        let ghost orig = *self;
        proof {
            crate::board::lemma_count_food_bounds(self.game_state.board.tiles@);
        }
        self.game_state.remove_player(pid, 0);
        proof {
            let gm = orig.game_state.model();
            assert(self.game_state.model() == spec_remove_player(gm, pid, 0));
            crate::game::lemma_model_lookup(orig.game_state.players(), pid);
            if orig.game_state.has_player(pid) {
                let di = crate::model::mindex_of_pid(gm.players, pid);
                lemma_death_food_count_zero(gm.seed, gm.cursor, gm.players[di].1.len() as int);
                assert(self.game_state.model().num_foods == gm.num_foods);
            } else {
                assert(!mhas_pid(gm.players, pid));
            }
            assert(self.game_state.num_foods == orig.game_state.num_foods);
        }
        // drop the pending input, if any
        let ni = self.player_inputs.len();
        let mut i: usize = 0;
        while i < ni && self.player_inputs[i].0.0 < pid.0
            invariant
                self.player_inputs == orig.player_inputs,
                ni == self.player_inputs@.len(),
                i <= ni,
                forall|t: int| 0 <= t < i ==> (#[trigger] self.player_inputs@[t]).0.0 < pid.0,
            decreases ni - i,
        {
            i = i + 1;
        }
        if i < ni && self.player_inputs[i].0.0 == pid.0 {
            let _ = self.player_inputs.remove(i);
        }
        proof {
            let ps2 = self.player_inputs@;
            let ps0 = orig.player_inputs@;
            assert forall|a: int, b: int| 0 <= a < b < ps2.len() implies (#[trigger] ps2[a]).0.0
                < (#[trigger] ps2[b]).0.0 by {
                if ps2 != ps0 {
                    let a0 = if a < i {
                        a
                    } else {
                        a + 1
                    };
                    let b0 = if b < i {
                        b
                    } else {
                        b + 1
                    };
                    assert(ps2[a] == ps0[a0] && ps2[b] == ps0[b0]);
                }
            }
            assert(!has_input(ps2, pid)) by {
                if has_input(ps2, pid) {
                    let t = choose|t: int| 0 <= t < ps2.len() && (#[trigger] ps2[t]).0 == pid;
                    if ps2 == ps0 {
                        if t < i {
                            assert(ps0[t].0.0 < pid.0);
                        } else {
                            assert(inputs_wf(ps0));
                            if (i as int) < ni && t > i {
                                assert(ps0[i as int].0.0 < ps0[t].0.0);
                            }
                        }
                    } else {
                        let t0 = if t < i {
                            t
                        } else {
                            t + 1
                        };
                        assert(ps2[t] == ps0[t0]);
                        assert(inputs_wf(ps0));
                        assert(ps0[i as int].0.0 == pid.0);
                        if t0 < i {
                            assert(ps0[t0].0.0 < pid.0);
                        } else {
                            assert(t0 > i);
                            assert(ps0[i as int].0.0 < ps0[t0].0.0);
                        }
                    }
                }
            }
            assert forall|k: int| 0 <= k < ps2.len() implies (#[trigger] ps2[k]).0.0
                < orig.next_pid.0 by {
                if ps2 != ps0 {
                    let k0 = if k < i {
                        k
                    } else {
                        k + 1
                    };
                    assert(ps2[k] == ps0[k0]);
                }
            }
        }
        // drop the connection entry, if any
        let nc = self.connections.len();
        let mut c: usize = 0;
        while c < nc && self.connections[c].0 < pid.0
            invariant
                self.connections == orig.connections,
                nc == self.connections@.len(),
                c <= nc,
                forall|t: int| 0 <= t < c ==> (#[trigger] self.connections@[t]).0 < pid.0,
            decreases nc - c,
        {
            c = c + 1;
        }
        if c < nc && self.connections[c].0 == pid.0 {
            let _ = self.connections.remove(c);
        }
        proof {
            let cs2 = self.connections@;
            let cs0 = orig.connections@;
            assert forall|a: int, b: int| 0 <= a < b < cs2.len() implies (#[trigger] cs2[a]).0 < (
            #[trigger] cs2[b]).0 by {
                if cs2 != cs0 {
                    let a0 = if a < c {
                        a
                    } else {
                        a + 1
                    };
                    let b0 = if b < c {
                        b
                    } else {
                        b + 1
                    };
                    assert(cs2[a] == cs0[a0] && cs2[b] == cs0[b0]);
                }
            }
            assert forall|p: PlayerId|
                #![trigger has_conn(cs2, p)]
                has_conn(cs2, p) <==> (has_conn(cs0, p) && p != pid) by {
                if has_conn(cs2, p) {
                    let t = choose|t: int| 0 <= t < cs2.len() && (#[trigger] cs2[t]) == p;
                    if cs2 == cs0 {
                        assert(has_conn(cs0, p));
                        if p == pid {
                            assert(conn_sorted(cs0));
                            if t < c {
                                assert(cs0[t].0 < pid.0);
                            } else if (c as int) < nc && t > c {
                                assert(cs0[c as int].0 < cs0[t].0);
                            }
                        }
                    } else {
                        let t0 = if t < c {
                            t
                        } else {
                            t + 1
                        };
                        assert(cs2[t] == cs0[t0]);
                        assert(has_conn(cs0, p));
                        if p == pid {
                            assert(conn_sorted(cs0));
                            assert(cs0[c as int].0 == pid.0);
                            if t0 < c {
                                assert(cs0[t0].0 < pid.0);
                            } else {
                                assert(t0 > c);
                                assert(cs0[c as int].0 < cs0[t0].0);
                            }
                        }
                    }
                }
                if has_conn(cs0, p) && p != pid {
                    let t = choose|t: int| 0 <= t < cs0.len() && (#[trigger] cs0[t]) == p;
                    if cs2 == cs0 {
                        assert(has_conn(cs2, p));
                    } else {
                        assert(cs0[c as int].0 == pid.0);
                        assert(cs0[c as int] == pid) by {
                            assert(cs0[c as int] == (PlayerId(cs0[c as int].0)));
                        }
                        assert(t != c);
                        let t2 = if t < c {
                            t
                        } else {
                            t - 1
                        };
                        assert(cs2[t2] == cs0[t]);
                        assert(has_conn(cs2, p));
                    }
                }
            }
            assert forall|k: int| 0 <= k < cs2.len() implies (#[trigger] cs2[k]).0
                < orig.next_pid.0 by {
                if cs2 != cs0 {
                    let k0 = if k < c {
                        k
                    } else {
                        k + 1
                    };
                    assert(cs2[k] == cs0[k0]);
                }
            }
        }
        // notify the remaining peers
        let mut actions: Vec<ServerAction> = Vec::new();
        let nc2 = self.connections.len();
        let mut k: usize = 0;
        while k < nc2
            invariant
                nc2 == self.connections@.len(),
                k <= nc2,
                actions@.len() == k,
                forall|k2: int|
                    0 <= k2 < k ==> ({
                        &&& (#[trigger] actions@[k2]).to == self.connections@[k2]
                        &&& actions@[k2].msg matches ServerToClient::PlayerDisconnected { pid: p }
                            && p == pid
                    }),
            decreases nc2 - k,
        {
            let to = self.connections[k];
            actions.push(
                ServerAction { to, msg: ServerToClient::PlayerDisconnected { pid } },
            );
            k = k + 1;
        }
        actions
    }
}

} // verus!
