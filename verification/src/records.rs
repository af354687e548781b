//! The persisted records of the data model and the read-model structs
//! that queries return.

use vstd::prelude::*;
use crate::enums::{GameStatus, PlayerStatus, Role, TargetStatus};

verus! {

/// A registered player.  `id` is dense: the i-th stored player has id i+1.
#[derive(Debug)]
pub struct Player {
    pub id: i32,
    pub nickname: String,
    pub email: String,
    /// External auth subject id.
    pub uid: String,
    pub role: Role,
    pub picture: Option<String>,
    pub registered_at: i64,
}

/// A game.  `code` is the unique 8-character join code; `status` is the
/// only field mutated after creation, plus the start and end timestamps
/// when the game starts or finishes.
#[derive(Debug)]
pub struct Game {
    pub id: i32,
    pub name: Option<String>,
    pub owner: i32,
    pub code: String,
    pub status: GameStatus,
    pub created_at: i64,
    pub start_time: Option<i64>,
    pub end_time: Option<i64>,
}

/// One membership row: a player's participation in one game, under a
/// generated codename.
#[derive(Debug)]
pub struct PlayerGame {
    pub player: i32,
    pub game: i32,
    pub codename: String,
    pub status: PlayerStatus,
    pub joined_at: i64,
}

/// One directed assignment edge of a game's ring: `assassin` hunts
/// `target` while `status` is CURRENT; a closed edge keeps its terminal
/// status and end timestamp.
#[derive(Debug)]
pub struct Assignment {
    pub assassin: i32,
    pub target: i32,
    pub game: i32,
    pub status: TargetStatus,
    pub start_time: i64,
    pub end_time: Option<i64>,
}

/// A member's public face inside a game's info listing.
#[derive(Debug)]
pub struct GamePlayerInfo {
    pub nickname: String,
    pub picture: Option<String>,
}

/// The info a member may read about a game.
#[derive(Debug)]
pub struct GameInfo {
    pub game_name: String,
    pub admin_nickname: String,
    pub players: Vec<GamePlayerInfo>,
}

/// All codenames of a game, as shown to its members.
#[derive(Debug)]
pub struct Codenames {
    pub codenames: Vec<String>,
}

/// A player's cross-game summary.
#[derive(Debug)]
pub struct UserInfo {
    pub nickname: String,
    pub email: String,
    pub picture: Option<String>,
    pub active: bool,
    pub curr_lobby_code: Option<String>,
    pub total_kills: usize,
}

/// A member's own view inside one game.
#[derive(Debug)]
pub struct AgentInfo {
    pub codename: String,
    pub target: Option<String>,
    pub target_picture: Option<String>,
    pub alive: bool,
    pub kills: usize,
}

/// Request body of game creation.
#[derive(Debug)]
pub struct GameCreationInfo {
    pub game_name: String,
}

/// Response body of a status query.
#[derive(Debug)]
pub struct StatusResult {
    pub game_status: GameStatus,
}

/// Request body of registration.
#[derive(Debug)]
pub struct RegisterInfo {
    pub nickname: String,
}

/// The identities a verified token vouches for.
#[derive(Debug)]
pub struct Identity {
    pub email: Vec<String>,
}

/// Provider block of a verified token.
#[derive(Debug)]
pub struct Firebase {
    pub identities: Identity,
    pub sign_in_provider: String,
}

/// The claims of a verified bearer token: the authenticated identity every
/// operation receives.
#[derive(Debug)]
pub struct UserClaims {
    pub iss: String,
    pub aud: String,
    pub auth_time: usize,
    pub user_id: String,
    pub sub: String,
    pub iat: usize,
    pub exp: usize,
    pub email: String,
    pub email_verified: bool,
    pub firebase: Firebase,
}

/// Process configuration, read by the embedding program and passed in.
#[derive(Debug)]
pub struct Config {
    pub host: String,
    pub port: u32,
    pub postgres_url: String,
    pub enable_bunyan: bool,
}

} // verus!
