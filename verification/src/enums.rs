//! Status and role enumerations of the data model.

#![allow(non_camel_case_types)]

use vstd::prelude::*;

verus! {

/// Lifecycle state of a game.  A game is created WAITING_FOR_PLAYERS,
/// becomes ACTIVE when started, and FINISHED when the ring collapses to a
/// single member or the owner stops it.  PAUSED exists in the schema but no
/// operation transitions into or out of it.
#[derive(Clone, Copy, Debug, PartialEq, Eq, Structural)]
pub enum GameStatus {
    WAITING_FOR_PLAYERS,
    ACTIVE,
    FINISHED,
    PAUSED,
}

/// Status of a membership row.  ALIVE is the only initial state; the status
/// moves monotonically to DEAD (killed) or LEFT_GAME (voluntary departure)
/// and never leaves either.
#[derive(Clone, Copy, Debug, PartialEq, Eq, Structural)]
pub enum PlayerStatus {
    DEAD,
    ALIVE,
    LEFT_GAME,
}

/// Lifecycle status of one assignment edge.  CURRENT edges form the ring;
/// a closed edge records why it ended.
#[derive(Clone, Copy, Debug, PartialEq, Eq, Structural)]
pub enum TargetStatus {
    CURRENT,
    KILL_SUCCESS,
    TARGET_LEFT,
    REASSIGNED,
    GAME_END,
}

/// Role of a registered player.
#[derive(Clone, Copy, Debug, PartialEq, Eq, Structural)]
pub enum Role {
    USER,
    ADMIN,
}

impl Default for Role {
    fn default() -> (r: Self)
        ensures
            r == Role::USER,
    {
        Role::USER
    }
}

impl Default for GameStatus {
    fn default() -> (r: Self)
        ensures
            r == GameStatus::WAITING_FOR_PLAYERS,
    {
        GameStatus::WAITING_FOR_PLAYERS
    }
}

} // verus!
