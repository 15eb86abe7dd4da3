use vstd::prelude::*;

use crate::grid::Coord;
use crate::rng::choose_u8;

verus! {

/// The session-wide game state.
#[derive(Clone, Copy, PartialEq, Eq, Structural, Debug)]
pub enum GameState {
    WaitingPlayers,
    InGame,
    Win,
}

/// The phase of the current turn: the acting player must either roll the
/// die or spend the rolled steps moving.
#[derive(Clone, Copy, PartialEq, Eq, Structural, Debug)]
pub enum TurnPhase {
    Rolling,
    Moving { steps_taken: u8 },
}

/// An ordered event broadcast by the authority to every presentation
/// process.
#[derive(Clone, Copy, PartialEq, Eq, Structural, Debug)]
pub enum GameEvent {
    GameStateChange(GameState),
    TurnPhaseChange(TurnPhase),
    CurrentTurnChange(usize),
    StartMoveAnimation { client_id: u64, fail: bool, move_to: Coord },
}

/// Roll the die: a uniform draw from the weighted face set {1, 2, 2, 3, 3,
/// 4}, so the middle values come up twice as often as the ends.
pub fn roll_die() -> (value: u8)
    ensures
        1 <= value <= 4,
{
    let mut faces: Vec<u8> = Vec::new();
    faces.push(1);
    faces.push(2);
    faces.push(2);
    faces.push(3);
    faces.push(3);
    faces.push(4);
    let drawn = choose_u8(&faces);
    proof {
        assert(drawn is Some);
        assert(forall|i: int| 0 <= i < faces@.len() ==> 1 <= #[trigger] faces@[i] <= 4);
    }
    match drawn {
        Some(value) => value,
        None => 1,
    }
}

/// Whether a server configuration is acceptable: a non-privileged port, one
/// to four players, and a barrier count between 15 and 20.
pub fn valid_server_config(port: u16, max_players: u8, tiles: u8) -> (ok: bool)
    ensures
        ok <==> (1024 <= port && 1 <= max_players <= 4 && 15 <= tiles <= 20),
{
    1024 <= port && 1 <= max_players && max_players <= 4 && 15 <= tiles && tiles <= 20
}

} // verus!
