use snake_engine::actor::{ClientToServer, ServerGameState, ServerToClient};
use snake_engine::geom::Direction;
use snake_engine::messages::{PlayerId, SnakePlayerInput};

#[test]
fn connect_allocates_monotonic_ids_and_rebaselines_everyone() {
    let mut s = ServerGameState::new();
    let (pid0, actions0) = s.on_player_connected();
    assert_eq!(pid0, PlayerId(0));
    assert_eq!(actions0.len(), 1);
    assert_eq!(actions0[0].to, PlayerId(0));
    match &actions0[0].msg {
        ServerToClient::Initialize { pid, world } => {
            assert_eq!(*pid, PlayerId(0));
            assert_eq!(*world, s.game_state);
        },
        m => panic!("unexpected message {:?}", m),
    }
    let (pid1, actions1) = s.on_player_connected();
    assert_eq!(pid1, PlayerId(1));
    // the new peer hears first, then every prior peer under its own id
    assert_eq!(actions1.len(), 2);
    assert_eq!(actions1[0].to, PlayerId(1));
    assert_eq!(actions1[1].to, PlayerId(0));
    match &actions1[1].msg {
        ServerToClient::Initialize { pid, world } => {
            assert_eq!(*pid, PlayerId(0));
            assert_eq!(*world, s.game_state);
        },
        m => panic!("unexpected message {:?}", m),
    }
    assert_eq!(s.connections, vec![PlayerId(0), PlayerId(1)]);
}

#[test]
fn do_tick_broadcasts_before_stepping_with_last_write_wins() {
    let mut s = ServerGameState::new();
    let (pid0, _) = s.on_player_connected();
    let (pid1, _) = s.on_player_connected();
    let tick_before = s.game_state.tick;
    let received = vec![
        (
            pid0,
            ClientToServer::InputAtTick {
                tick: 0,
                input: SnakePlayerInput::ChangeDirection(Direction::Up),
            },
        ),
        (
            pid1,
            ClientToServer::InputAtTick {
                tick: 0,
                input: SnakePlayerInput::ChangeDirection(Direction::Left),
            },
        ),
        (
            pid0,
            ClientToServer::InputAtTick {
                tick: 0,
                input: SnakePlayerInput::ChangeDirection(Direction::Down),
            },
        ),
    ];
    let actions = s.on_do_tick(&received);
    assert_eq!(s.game_state.tick, tick_before + 1);
    assert_eq!(actions.len(), 2);
    for (k, a) in actions.iter().enumerate() {
        assert_eq!(a.to, s.connections[k]);
        match &a.msg {
            ServerToClient::DoTick { tick, inputs } => {
                // the broadcast carries the pre-step tick number
                assert_eq!(*tick, tick_before);
                // and the folded inputs: the later entry for pid0 won
                assert_eq!(
                    *inputs,
                    vec![
                        (pid0, SnakePlayerInput::ChangeDirection(Direction::Down)),
                        (pid1, SnakePlayerInput::ChangeDirection(Direction::Left)),
                    ]
                );
            },
            m => panic!("unexpected message {:?}", m),
        }
    }
}

#[test]
fn do_tick_without_connections_stands_still() {
    let mut s = ServerGameState::new();
    let before = s.game_state.clone();
    let actions = s.on_do_tick(&Vec::new());
    assert!(actions.is_empty());
    assert_eq!(s.game_state, before);
}

#[test]
fn pending_inputs_persist_across_ticks() {
    let mut s = ServerGameState::new();
    let (pid0, _) = s.on_player_connected();
    let received = vec![(
        pid0,
        ClientToServer::InputAtTick {
            tick: 0,
            input: SnakePlayerInput::ChangeDirection(Direction::Up),
        },
    )];
    s.on_do_tick(&received);
    // nothing new received: the old input is still broadcast
    let actions = s.on_do_tick(&Vec::new());
    match &actions[0].msg {
        ServerToClient::DoTick { inputs, .. } => {
            assert_eq!(
                *inputs,
                vec![(pid0, SnakePlayerInput::ChangeDirection(Direction::Up))]
            );
        },
        m => panic!("unexpected message {:?}", m),
    }
}

#[test]
fn send_failure_removes_peer_and_notifies_the_rest() {
    let mut s = ServerGameState::new();
    let (pid0, _) = s.on_player_connected();
    let (pid1, _) = s.on_player_connected();
    let received = vec![(
        pid0,
        ClientToServer::InputAtTick {
            tick: 0,
            input: SnakePlayerInput::ChangeDirection(Direction::Up),
        },
    )];
    s.on_do_tick(&received);
    let actions = s.on_send_failure(pid0);
    assert_eq!(s.connections, vec![pid1]);
    assert!(s.player_inputs.iter().all(|e| e.0 != pid0));
    assert!(s.game_state.player_segments.iter().all(|e| e.0 != pid0));
    assert_eq!(actions.len(), 1);
    assert_eq!(actions[0].to, pid1);
    match &actions[0].msg {
        ServerToClient::PlayerDisconnected { pid } => assert_eq!(*pid, pid0),
        m => panic!("unexpected message {:?}", m),
    }
    // the freed id is never reused
    let (pid2, _) = s.on_player_connected();
    assert_eq!(pid2, PlayerId(2));
}
