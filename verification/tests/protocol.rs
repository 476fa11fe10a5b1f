use angry_snakes::battle;
use angry_snakes::protocol::{handshake_name, ClientMessage, Direction, TurnDirection};

#[test]
fn rotation_table() {
    assert_eq!(Direction::Left.turn(TurnDirection::Clockwise), Direction::Up);
    assert_eq!(Direction::Up.turn(TurnDirection::Clockwise), Direction::Right);
    assert_eq!(Direction::Right.turn(TurnDirection::Clockwise), Direction::Down);
    assert_eq!(Direction::Down.turn(TurnDirection::Clockwise), Direction::Left);
    assert_eq!(Direction::Left.turn(TurnDirection::CounterClockwise), Direction::Down);
    assert_eq!(Direction::Down.turn(TurnDirection::CounterClockwise), Direction::Right);
    assert_eq!(Direction::Right.turn(TurnDirection::CounterClockwise), Direction::Up);
    assert_eq!(Direction::Up.turn(TurnDirection::CounterClockwise), Direction::Left);
}

#[test]
fn rotation_inverse_on_every_facing() {
    for f in [Direction::Left, Direction::Right, Direction::Up, Direction::Down] {
        assert_eq!(f.turn(TurnDirection::Clockwise).turn(TurnDirection::CounterClockwise), f);
        assert_eq!(f.turn(TurnDirection::CounterClockwise).turn(TurnDirection::Clockwise), f);
    }
}

#[test]
fn four_clockwise_turns_cycle() {
    for f in [Direction::Left, Direction::Right, Direction::Up, Direction::Down] {
        let g = f
            .turn(TurnDirection::Clockwise)
            .turn(TurnDirection::Clockwise)
            .turn(TurnDirection::Clockwise)
            .turn(TurnDirection::Clockwise);
        assert_eq!(g, f);
    }
}

#[test]
fn direction_from_index_cycles() {
    assert_eq!(Direction::from(0usize), Direction::Left);
    assert_eq!(Direction::from(1usize), Direction::Right);
    assert_eq!(Direction::from(2usize), Direction::Up);
    assert_eq!(Direction::from(3usize), Direction::Down);
    assert_eq!(Direction::from(6usize), Direction::Up);
}

#[test]
fn handshake_accepts_only_set_name() {
    assert_eq!(
        handshake_name(ClientMessage::SetName(String::from("Alice"))),
        Some(String::from("Alice"))
    );
    assert_eq!(handshake_name(ClientMessage::Turn(TurnDirection::Clockwise)), None);
}

#[test]
fn battle_table_differs_on_down() {
    // The battle-mode vocabulary swaps the two rotations out of Down, so
    // the clockwise/counter-clockwise pair is not inverse there.
    assert_eq!(
        battle::Direction::Down.turn(battle::TurnDirection::Clockwise),
        battle::Direction::Right
    );
    assert_eq!(
        battle::Direction::Down.turn(battle::TurnDirection::CounterClockwise),
        battle::Direction::Left
    );
    let f = battle::Direction::Left;
    assert_eq!(
        f.turn(battle::TurnDirection::Clockwise).turn(battle::TurnDirection::CounterClockwise),
        f
    );
}
