//! The battle-mode wire vocabulary spoken by the bot client. It mirrors the
//! engine's protocol but carries no owner ids in its cells, and its rotation
//! table maps both turns out of `Down` differently, so the two rotations are
//! not mutual inverses on that one facing.

use vstd::prelude::*;

verus! {

/// A relative rotation applied to a facing.
#[derive(Clone, Copy, PartialEq, Eq, Structural, Debug)]
pub enum TurnDirection {
    Clockwise,
    CounterClockwise,
}

/// The cardinal direction a snake's head is moving in.
#[derive(Clone, Copy, PartialEq, Eq, Hash, Structural, Debug)]
pub enum Direction {
    Left,
    Right,
    Up,
    Down,
}

impl Direction {
    /// The facing reached by applying one rotation. Out of `Down` both
    /// rotations are swapped relative to the engine's table: `Clockwise`
    /// yields `Right` and `CounterClockwise` yields `Left`.
    pub open spec fn turn_spec(self, rhs: TurnDirection) -> Direction {
        match (self, rhs) {
            (Direction::Left, TurnDirection::Clockwise) => Direction::Up,
            (Direction::Left, TurnDirection::CounterClockwise) => Direction::Down,
            (Direction::Right, TurnDirection::Clockwise) => Direction::Down,
            (Direction::Right, TurnDirection::CounterClockwise) => Direction::Up,
            (Direction::Up, TurnDirection::Clockwise) => Direction::Right,
            (Direction::Up, TurnDirection::CounterClockwise) => Direction::Left,
            (Direction::Down, TurnDirection::Clockwise) => Direction::Right,
            (Direction::Down, TurnDirection::CounterClockwise) => Direction::Left,
        }
    }

    /// Apply a rotation to this facing.
    pub fn turn(self, rhs: TurnDirection) -> (r: Direction)
        ensures
            r == self.turn_spec(rhs),
    {
        match (self, rhs) {
            (Direction::Left, TurnDirection::Clockwise) => Direction::Up,
            (Direction::Left, TurnDirection::CounterClockwise) => Direction::Down,
            (Direction::Right, TurnDirection::Clockwise) => Direction::Down,
            (Direction::Right, TurnDirection::CounterClockwise) => Direction::Up,
            (Direction::Up, TurnDirection::Clockwise) => Direction::Right,
            (Direction::Up, TurnDirection::CounterClockwise) => Direction::Left,
            (Direction::Down, TurnDirection::Clockwise) => Direction::Right,
            (Direction::Down, TurnDirection::CounterClockwise) => Direction::Left,
        }
    }

    /// The facing assigned to a numeric index: indices cycle through the
    /// four variants.
    pub open spec fn from_index_spec(value: usize) -> Direction {
        if value % 4 == 0 {
            Direction::Left
        } else if value % 4 == 1 {
            Direction::Right
        } else if value % 4 == 2 {
            Direction::Up
        } else {
            Direction::Down
        }
    }
}

impl core::convert::From<usize> for Direction {
    fn from(value: usize) -> (r: Direction) {
        let rem: usize = value % 4;
        if rem == 0 {
            Direction::Left
        } else if rem == 1 {
            Direction::Right
        } else if rem == 2 {
            Direction::Up
        } else {
            Direction::Down
        }
    }
}

impl vstd::std_specs::convert::FromSpecImpl<usize> for Direction {
    open spec fn obeys_from_spec() -> bool {
        true
    }

    open spec fn from_spec(value: usize) -> Direction {
        Direction::from_index_spec(value)
    }
}

/// On `Left` and `Up`, rotating clockwise and then counter-clockwise
/// returns to the original facing. This table is not inverse-consistent on
/// the other two facings: `Down` then `Clockwise` gives `Right`, and
/// `Right` then `CounterClockwise` gives `Up`.
pub proof fn lemma_turn_partial_inverse(f: Direction)
    requires
        f == Direction::Left || f == Direction::Up,
    ensures
        f.turn_spec(TurnDirection::Clockwise).turn_spec(TurnDirection::CounterClockwise) == f,
{
}

/// A message sent by a player connection to the engine.
#[derive(Debug)]
pub enum ClientMessage {
    /// The handshake message carrying the display name.
    SetName(String),
    /// A request to rotate the player's facing.
    Turn(TurnDirection),
}

/// The frame streamed to every player once per tick.
#[derive(Debug)]
pub enum ServerMessage {
    Tick { map: Grid, map_size: (usize, usize) },
}

/// The flat cell grid, row by row: index `x + y * width`.
pub type Grid = Vec<MapPiece>;

/// The contents of one grid cell.
#[derive(Clone, Copy, PartialEq, Eq, Structural, Debug)]
pub enum MapPiece {
    Snake,
    SnakeHead,
    Apple,
    Empty,
}

} // verus!
