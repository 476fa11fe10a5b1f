use std::collections::VecDeque;

use angry_snakes::game::{step_position, ClientInfo, Game, GameEvent, InputOutcome, TickAction};
use angry_snakes::protocol::{ClientMessage, Direction, MapPiece, ServerMessage, TurnDirection};
use angry_snakes::tick_buffer::TickBuffer;

fn client(
    id: usize,
    conn: u64,
    position: (usize, usize),
    direction: Direction,
    tail: Vec<(usize, usize)>,
    tail_len: usize,
) -> ClientInfo {
    ClientInfo {
        name: format!("snake-{id}"),
        msg_count: 0,
        position,
        tail: VecDeque::from(tail),
        tail_len,
        death: 0,
        direction,
        id,
        conn,
    }
}

fn lobby_with(clients: Vec<ClientInfo>, apples: Vec<(usize, usize)>) -> Game {
    let next_id = clients.iter().map(|c| c.id + 1).max().unwrap_or(0);
    Game {
        id: 0,
        tb: TickBuffer::new(),
        id_counter: next_id,
        clients,
        watchers: Vec::new(),
        interval_ms: 1000,
        map: vec![MapPiece::Empty; 20 * 14],
        map_size: (20, 14),
        tick: 0,
        apples,
    }
}

#[test]
fn fresh_lobby_state() {
    let g = Game::new(7);
    assert_eq!(g.id, 7);
    assert_eq!(g.tick, 0);
    assert_eq!(g.interval_ms, 1000);
    assert_eq!(g.map_size, (20, 14));
    assert!(g.clients.is_empty());
    assert!(g.watchers.is_empty());
    assert_eq!(g.apples.len(), 1);
    let (ax, ay) = g.apples[0];
    assert!(ax < 20 && ay < 14);
    assert_eq!(g.map.len(), 20 * 14);
    assert!(g.map.iter().all(|p| *p == MapPiece::Empty));
}

#[test]
fn toroidal_wrap_all_edges() {
    assert_eq!(step_position((0, 5), Direction::Left, 20, 14), (19, 5));
    assert_eq!(step_position((19, 5), Direction::Right, 20, 14), (0, 5));
    assert_eq!(step_position((3, 0), Direction::Up, 20, 14), (3, 13));
    assert_eq!(step_position((3, 13), Direction::Down, 20, 14), (3, 0));
    assert_eq!(step_position((4, 5), Direction::Right, 20, 14), (5, 5));
    assert_eq!(step_position((4, 5), Direction::Up, 20, 14), (4, 4));
}

#[test]
fn join_assigns_ids_and_free_cells() {
    let mut g = Game::new(0);
    let a = g.join(1, String::from("Alice"));
    let b = g.join(2, String::from("Bob"));
    assert_eq!(a, 0);
    assert_eq!(b, 1);
    assert_eq!(g.clients.len(), 2);
    assert_eq!(g.clients[0].name, "Alice");
    assert_eq!(g.clients[1].name, "Bob");
    assert_eq!(g.clients[0].tail_len, 2);
    assert_eq!(g.clients[0].death, 0);
    assert!(g.clients[0].tail.is_empty());
    assert_ne!(g.clients[0].position, g.clients[1].position);
}

#[test]
fn rejoining_connection_replaces_client() {
    let mut g = Game::new(0);
    g.join(9, String::from("first"));
    g.join(9, String::from("second"));
    assert_eq!(g.clients.len(), 1);
    assert_eq!(g.clients[0].name, "second");
    assert_eq!(g.clients[0].id, 1);
}

#[test]
fn apple_growth_increments_target_once() {
    let mut g = lobby_with(
        vec![client(0, 1, (4, 5), Direction::Right, vec![], 2)],
        vec![(5, 5)],
    );
    let u = g.handle_tick();
    assert_eq!(g.tick, 1);
    assert_eq!(g.clients[0].position, (5, 5));
    assert_eq!(g.clients[0].tail_len, 3);
    assert_eq!(g.clients[0].death, 0);
    // the eaten apple's cell shows the head that ate it
    assert_eq!(g.map[5 + 5 * 20], MapPiece::SnakeHead(0));
    // exactly one replacement apple was attempted, off the snake
    assert_eq!(g.apples.len(), 1);
    assert_ne!(g.apples[0], (5, 5));
    assert_ne!(g.apples[0], (4, 5));
    assert_eq!(u.map_size, (20, 14));
    assert_eq!(u.clients.len(), 1);
    assert_eq!(u.clients[0].tail_len, 3);
}

#[test]
fn missed_apple_stays() {
    let mut g = lobby_with(
        vec![client(0, 1, (4, 5), Direction::Left, vec![], 2)],
        vec![(9, 9)],
    );
    g.handle_tick();
    assert_eq!(g.apples, vec![(9, 9)]);
    assert_eq!(g.clients[0].tail_len, 2);
    assert_eq!(g.map[9 + 9 * 20], MapPiece::Apple);
}

#[test]
fn head_on_collision_kills_both() {
    let mut g = lobby_with(
        vec![
            client(0, 1, (4, 5), Direction::Right, vec![], 2),
            client(1, 2, (6, 5), Direction::Left, vec![], 2),
        ],
        vec![(0, 0)],
    );
    g.handle_tick();
    assert_eq!(g.clients[0].death, 1);
    assert_eq!(g.clients[1].death, 1);
    assert_eq!(g.clients[0].tail_len, 2);
    assert!(g.clients[0].tail.is_empty());
    assert!(g.clients[1].tail.is_empty());
}

#[test]
fn tail_collision_kills_only_the_head_owner() {
    // B moves right from (6, 5): its tail then covers (6, 5) and (5, 5).
    // A moves right from (4, 5) onto (5, 5), into B's tail.
    let mut g = lobby_with(
        vec![
            client(0, 1, (4, 5), Direction::Right, vec![], 2),
            client(1, 2, (6, 5), Direction::Right, vec![(5, 5)], 2),
        ],
        vec![(0, 0)],
    );
    g.handle_tick();
    assert_eq!(g.clients[0].death, 1);
    assert_eq!(g.clients[1].death, 0);
    assert_eq!(g.clients[1].position, (7, 5));
}

#[test]
fn first_input_applies_later_ones_warn() {
    let mut g = lobby_with(
        vec![client(0, 1, (4, 5), Direction::Right, vec![], 2)],
        vec![(0, 0)],
    );
    let r1 = g.handle_message(1, ClientMessage::Turn(TurnDirection::Clockwise));
    assert_eq!(r1, InputOutcome::Accepted);
    assert_eq!(g.clients[0].direction, Direction::Down);
    let r2 = g.handle_message(1, ClientMessage::Turn(TurnDirection::Clockwise));
    assert_eq!(r2, InputOutcome::Excess { warn: true });
    assert_eq!(g.clients[0].direction, Direction::Down);
    let r3 = g.handle_message(1, ClientMessage::Turn(TurnDirection::Clockwise));
    assert_eq!(r3, InputOutcome::Excess { warn: false });
    for _ in 0..6 {
        g.handle_message(1, ClientMessage::Turn(TurnDirection::Clockwise));
    }
    let r10 = g.handle_message(1, ClientMessage::Turn(TurnDirection::Clockwise));
    assert_eq!(r10, InputOutcome::Excess { warn: true });
    assert_eq!(g.clients[0].msg_count, 10);
}

#[test]
fn unknown_connection_is_ignored() {
    let mut g = lobby_with(
        vec![client(0, 1, (4, 5), Direction::Right, vec![], 2)],
        vec![(0, 0)],
    );
    let r = g.handle_message(99, ClientMessage::Turn(TurnDirection::Clockwise));
    assert_eq!(r, InputOutcome::Unknown);
    assert_eq!(g.clients[0].direction, Direction::Right);
}

#[test]
fn broadcast_carries_previous_frame_and_resets_counters() {
    let mut g = lobby_with(
        vec![client(0, 1, (4, 5), Direction::Right, vec![], 2)],
        vec![(9, 9)],
    );
    g.handle_tick();
    g.handle_message(1, ClientMessage::Turn(TurnDirection::Clockwise));
    assert_eq!(g.clients[0].msg_count, 1);
    let start = g.prepare_broadcast();
    assert_eq!(g.clients[0].msg_count, 0);
    assert_eq!(start.interval_ms, 990);
    assert_eq!(start.frames.len(), 1);
    let (conn, frame) = &start.frames[0];
    assert_eq!(*conn, 1);
    let ServerMessage::Tick { map, map_size, your_position, your_direction } = frame;
    assert_eq!(*map_size, (20, 14));
    assert_eq!(map.len(), 20 * 14);
    assert_eq!(*your_position, (5, 5));
    assert_eq!(*your_direction, Direction::Down);
    assert_eq!(map[9 + 9 * 20], MapPiece::Apple);
}

#[test]
fn interval_shrinks_to_floor() {
    let mut g = Game::new(0);
    g.prepare_broadcast();
    assert_eq!(g.interval_ms, 990);
    g.interval_ms = 210;
    g.prepare_broadcast();
    assert_eq!(g.interval_ms, 200);
    g.prepare_broadcast();
    assert_eq!(g.interval_ms, 200);
}

#[test]
fn tick_identifiers_rotate_per_broadcast() {
    let mut g = Game::new(0);
    let first = g.tb.current();
    let start = g.prepare_broadcast();
    assert_eq!(start.tick_id, first);
}

#[test]
fn failed_clients_are_removed() {
    let mut g = Game::new(0);
    g.join(1, String::from("a"));
    g.join(2, String::from("b"));
    g.join(3, String::from("c"));
    g.remove_failed(&vec![2]);
    assert_eq!(g.clients.len(), 2);
    assert_eq!(g.clients[0].conn, 1);
    assert_eq!(g.clients[1].conn, 3);
}

#[test]
fn watchers_register_once_and_drop_when_closed() {
    let mut g = Game::new(0);
    g.watch(5);
    g.watch(5);
    g.watch(8);
    assert_eq!(g.watcher_list(), vec![5, 8]);
    g.remove_watchers(&vec![5]);
    assert_eq!(g.watcher_list(), vec![8]);
}

#[test]
fn idle_means_no_clients_and_no_watchers() {
    let mut g = Game::new(0);
    assert!(g.is_idle());
    g.watch(5);
    assert!(!g.is_idle());
    g.remove_watchers(&vec![5]);
    g.join(1, String::from("a"));
    assert!(!g.is_idle());
}

#[test]
fn end_to_end_turn_shows_in_next_frame() {
    let mut g = Game::new(1);
    let act = g.tick(GameEvent::Join { conn: 1, name: String::from("Alice") });
    let TickAction::Joined { client_id } = act else {
        panic!("join event must register a client");
    };
    assert_eq!(client_id, 0);
    let f0 = g.clients[0].direction;
    let act = g.tick(GameEvent::Input {
        conn: 1,
        msg: ClientMessage::Turn(TurnDirection::Clockwise),
    });
    let TickAction::Heard { outcome } = act else {
        panic!("input event must be counted");
    };
    assert_eq!(outcome, InputOutcome::Accepted);
    let act = g.tick(GameEvent::Timer);
    let TickAction::Broadcast { start } = act else {
        panic!("the timer must open the broadcast phase");
    };
    let (conn, frame) = &start.frames[0];
    assert_eq!(*conn, 1);
    let ServerMessage::Tick { your_direction, .. } = frame;
    assert_eq!(*your_direction, f0.turn(TurnDirection::Clockwise));
}

#[test]
fn empty_lobby_still_ticks() {
    let mut g = lobby_with(vec![], vec![(2, 3)]);
    let u = g.handle_tick();
    assert_eq!(g.tick, 1);
    assert_eq!(g.apples, vec![(2, 3)]);
    assert_eq!(g.map[2 + 3 * 20], MapPiece::Apple);
    assert!(u.clients.is_empty());
    assert_eq!(u.map.len(), 20 * 14);
}

#[test]
fn watch_event_registers() {
    let mut g = Game::new(0);
    let act = g.tick(GameEvent::Watch { conn: 4 });
    assert!(matches!(act, TickAction::Watching));
    assert_eq!(g.watcher_list(), vec![4]);
}
