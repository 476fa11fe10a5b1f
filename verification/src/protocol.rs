//! Wire vocabulary shared between the engine and its players and watchers:
//! facings, relative turns, inbound and outbound messages, and the flat cell
//! grid that every frame carries.

use vstd::prelude::*;

verus! {

/// A relative rotation applied to a facing.
#[derive(Clone, Copy, PartialEq, Eq, Structural, Debug)]
pub enum TurnDirection {
    Clockwise,
    CounterClockwise,
}

/// The cardinal direction a snake's head is moving in.
#[derive(Clone, Copy, PartialEq, Eq, Hash, Structural, Debug)]
pub enum Direction {
    Left,
    Right,
    Up,
    Down,
}

impl Direction {
    /// The facing reached by applying one rotation: Clockwise and
    /// CounterClockwise rotate among the four facings in one fixed cycle
    /// (Left, Up, Right, Down) and are mutual inverses.
    pub open spec fn turn_spec(self, rhs: TurnDirection) -> Direction {
        match (self, rhs) {
            (Direction::Left, TurnDirection::Clockwise) => Direction::Up,
            (Direction::Left, TurnDirection::CounterClockwise) => Direction::Down,
            (Direction::Right, TurnDirection::Clockwise) => Direction::Down,
            (Direction::Right, TurnDirection::CounterClockwise) => Direction::Up,
            (Direction::Up, TurnDirection::Clockwise) => Direction::Right,
            (Direction::Up, TurnDirection::CounterClockwise) => Direction::Left,
            (Direction::Down, TurnDirection::Clockwise) => Direction::Left,
            (Direction::Down, TurnDirection::CounterClockwise) => Direction::Right,
        }
    }

    /// Apply a rotation to this facing.
    pub fn turn(self, rhs: TurnDirection) -> (r: Direction)
        ensures
            r == self.turn_spec(rhs),
    {
        match (self, rhs) {
            (Direction::Left, TurnDirection::Clockwise) => Direction::Up,
            (Direction::Left, TurnDirection::CounterClockwise) => Direction::Down,
            (Direction::Right, TurnDirection::Clockwise) => Direction::Down,
            (Direction::Right, TurnDirection::CounterClockwise) => Direction::Up,
            (Direction::Up, TurnDirection::Clockwise) => Direction::Right,
            (Direction::Up, TurnDirection::CounterClockwise) => Direction::Left,
            (Direction::Down, TurnDirection::Clockwise) => Direction::Left,
            (Direction::Down, TurnDirection::CounterClockwise) => Direction::Right,
        }
    }

    /// The facing assigned to a numeric index, used when drawing a random
    /// initial facing: indices cycle through the four variants.
    pub open spec fn from_index_spec(value: usize) -> Direction {
        if value % 4 == 0 {
            Direction::Left
        } else if value % 4 == 1 {
            Direction::Right
        } else if value % 4 == 2 {
            Direction::Up
        } else {
            Direction::Down
        }
    }
}

impl core::convert::From<usize> for Direction {
    fn from(value: usize) -> (r: Direction) {
        let rem: usize = value % 4;
        if rem == 0 {
            Direction::Left
        } else if rem == 1 {
            Direction::Right
        } else if rem == 2 {
            Direction::Up
        } else {
            Direction::Down
        }
    }
}

impl vstd::std_specs::convert::FromSpecImpl<usize> for Direction {
    open spec fn obeys_from_spec() -> bool {
        true
    }

    open spec fn from_spec(value: usize) -> Direction {
        Direction::from_index_spec(value)
    }
}

/// Rotating a facing clockwise and then counter-clockwise returns to the
/// original facing, and likewise in the other order: the two rotations are
/// mutual inverses on every facing.
pub proof fn lemma_turn_inverse(f: Direction)
    ensures
        f.turn_spec(TurnDirection::Clockwise).turn_spec(TurnDirection::CounterClockwise) == f,
        f.turn_spec(TurnDirection::CounterClockwise).turn_spec(TurnDirection::Clockwise) == f,
{
}

/// A message sent by a player connection to the engine.
#[derive(Debug)]
pub enum ClientMessage {
    /// The handshake message carrying the display name; ignored if sent
    /// after the handshake.
    SetName(String),
    /// A request to rotate the player's facing.
    Turn(TurnDirection),
}

/// The personalized frame streamed to every player once per tick.
#[derive(Debug)]
pub enum ServerMessage {
    Tick {
        map: Grid,
        map_size: (usize, usize),
        your_position: (usize, usize),
        your_direction: Direction,
    },
}

/// The flat cell grid, row by row: index `x + y * width`.
pub type Grid = Vec<MapPiece>;

/// The contents of one grid cell.
#[derive(Clone, Copy, PartialEq, Eq, Structural, Debug)]
pub enum MapPiece {
    /// A tail segment owned by the client with the given id.
    Snake(usize),
    /// A snake head owned by the client with the given id.
    SnakeHead(usize),
    Apple,
    Empty,
}

/// The spectator frame broadcast to every watcher once per tick.
#[derive(Debug)]
pub struct WatchUpdate {
    pub map: Grid,
    pub map_size: (usize, usize),
    pub clients: Vec<PlayerData>,
}

/// The per-player summary carried by a spectator frame.
#[derive(Debug)]
pub struct PlayerData {
    pub name: String,
    pub position: (usize, usize),
    pub tail_len: usize,
    pub death: usize,
    pub id: usize,
}

/// The display name carried by a well-formed handshake: the first inbound
/// message on a player connection must be `SetName`; anything else aborts
/// the connection before it reaches the engine.
pub fn handshake_name(msg: ClientMessage) -> (r: Option<String>)
    ensures
        match msg {
            ClientMessage::SetName(name) => (r matches Some(n) && n == name),
            _ => r is None,
        },
{
    match msg {
        ClientMessage::SetName(name) => Some(name),
        _ => None,
    }
}

} // verus!
