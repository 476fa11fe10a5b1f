use angry_snakes::client::{get_map, path_to_apple, turn_for, wrap_dec_by_one, wrap_inc_by_one};
use angry_snakes::protocol::{Direction, MapPiece, TurnDirection};

#[test]
fn get_map_reshapes_row_by_row() {
    let flat = vec![
        MapPiece::Apple,
        MapPiece::Empty,
        MapPiece::Snake(0),
        MapPiece::SnakeHead(0),
    ];
    let rows = get_map(flat, (2, 2));
    assert_eq!(rows.len(), 2);
    assert_eq!(rows[0], vec![MapPiece::Apple, MapPiece::Empty]);
    assert_eq!(rows[1], vec![MapPiece::Snake(0), MapPiece::SnakeHead(0)]);
}

#[test]
fn wrapping_goes_through_the_integer_range() {
    // The bot plans with wrapping subtraction before the modulus, so a
    // step left of column 0 on a 20-wide grid aims at usize::MAX % 20.
    assert_eq!(wrap_dec_by_one(0, 20), 15);
    assert_eq!(wrap_dec_by_one(7, 20), 6);
    assert_eq!(wrap_inc_by_one(19, 20), 0);
    assert_eq!(wrap_inc_by_one(7, 20), 8);
}

#[test]
fn turn_table_matches_headings() {
    assert_eq!(turn_for(Direction::Right, Direction::Up), Some(TurnDirection::CounterClockwise));
    assert_eq!(turn_for(Direction::Right, Direction::Down), Some(TurnDirection::Clockwise));
    assert_eq!(turn_for(Direction::Right, Direction::Right), None);
    assert_eq!(turn_for(Direction::Right, Direction::Left), None);
}

#[test]
fn bot_turns_toward_adjacent_apple() {
    // 3x3 board, all empty but an apple at (1, 0). The bot sits at (0, 1)
    // facing Right, so it plans from (1, 1); the unique one-step route
    // goes up into the apple, a counter-clockwise turn from Right.
    let mut rows = vec![vec![MapPiece::Empty; 3]; 3];
    rows[0][1] = MapPiece::Apple;
    let r = path_to_apple(&rows, (3, 3), (0, 1), Direction::Right);
    assert_eq!(r, Some(TurnDirection::CounterClockwise));
}

#[test]
fn bot_goes_straight_when_the_apple_is_ahead() {
    let mut rows = vec![vec![MapPiece::Empty; 5]; 5];
    rows[2][4] = MapPiece::Apple;
    // Planning from (2, 2) facing Right: the cheapest route keeps heading
    // right, and no single rotation expresses "straight on".
    let r = path_to_apple(&rows, (5, 5), (1, 2), Direction::Right);
    assert_eq!(r, None);
}
