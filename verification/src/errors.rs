//! Domain and transport-facing error types.
//!
//! `ModelError` is the closed set of domain errors the engine returns; each
//! has a stable string code.  `ApiError` classifies a domain error for a
//! transport layer (bad request, not found, unauthorized, server error) and
//! carries the code as payload.

use vstd::prelude::*;

verus! {

/// A typed domain error.  Every engine operation returns one of these
/// instead of panicking; `error_code` yields the stable wire code.
#[derive(Clone, Debug, PartialEq, Eq, Structural)]
pub enum ModelError {
    /// The player already has an alive membership in another unfinished game.
    AlreadyInAnotherGame,
    /// The player already has a membership row in the requested game.
    AlreadyInRequestedGame,
    /// A storage-layer failure.
    DatabaseError,
    /// The caller is not a member of the requested game.
    NotInGame,
    /// The game is not in the lifecycle state the operation needs.
    GameNotStarted,
    /// No game carries the requested code.
    GameNotFound,
    /// The caller has no CURRENT outgoing assignment edge.
    NoCurrentTarget,
    /// A player with this auth subject is already registered.
    AlreadyRegistered,
    /// The auth subject resolves to no registered player.
    NotRegistered,
    /// An unclassified failure.
    UnknownError,
}

/// The stable wire code of each domain error.
pub open spec fn model_error_code(e: ModelError) -> Seq<char> {
    match e {
        ModelError::AlreadyInAnotherGame => "ALREADY_IN_ANOTHER_GAME"@,
        ModelError::AlreadyInRequestedGame => "ALREADY_IN_REQUESTED_GAME"@,
        ModelError::DatabaseError => "DATABASE_ERROR"@,
        ModelError::NotInGame => "NOT_IN_GAME"@,
        ModelError::GameNotStarted => "GAME_NOT_STARTED"@,
        ModelError::GameNotFound => "GAME_NOT_FOUND"@,
        ModelError::NoCurrentTarget => "NO_CURRENT_TARGET"@,
        ModelError::AlreadyRegistered => "ALREADY_REGISTERED"@,
        ModelError::NotRegistered => "NOT_REGISTERED"@,
        ModelError::UnknownError => "UNKNOWN"@,
    }
}

impl ModelError {
    /// The stable string code surfaced to callers.
    pub fn error_code(&self) -> (r: String)
        ensures
            r@ == model_error_code(*self),
    {
        match self {
            Self::AlreadyInAnotherGame => "ALREADY_IN_ANOTHER_GAME".to_owned(),
            Self::AlreadyInRequestedGame => "ALREADY_IN_REQUESTED_GAME".to_owned(),
            Self::DatabaseError => "DATABASE_ERROR".to_owned(),
            Self::NotInGame => "NOT_IN_GAME".to_owned(),
            Self::GameNotStarted => "GAME_NOT_STARTED".to_owned(),
            Self::GameNotFound => "GAME_NOT_FOUND".to_owned(),
            Self::NoCurrentTarget => "NO_CURRENT_TARGET".to_owned(),
            Self::AlreadyRegistered => "ALREADY_REGISTERED".to_owned(),
            Self::NotRegistered => "NOT_REGISTERED".to_owned(),
            Self::UnknownError => "UNKNOWN".to_owned(),
        }
    }
}

/// A transport-facing classification of an error, carrying the domain code.
#[derive(Debug)]
pub enum ApiError {
    BadRequest(String),
    UserNotFound(String),
    Unauthorized(String),
    InternalServerError(String),
}

/// Whether a domain error is the caller's fault (a 4xx-class response)
/// rather than an infrastructure failure.
pub open spec fn is_domain_rule_error(e: ModelError) -> bool {
    !(e == ModelError::DatabaseError || e == ModelError::UnknownError)
}

impl ApiError {
    /// The human-readable name of the classification.
    pub fn name(&self) -> (r: String)
        ensures
            r@ == match *self {
                ApiError::BadRequest(_) => "Bad Request"@,
                ApiError::UserNotFound(_) => "User Not Found"@,
                ApiError::Unauthorized(_) => "Unauthorized"@,
                ApiError::InternalServerError(_) => "Internal Server Error"@,
            },
    {
        match self {
            Self::BadRequest(_) => "Bad Request".to_owned(),
            Self::UserNotFound(_) => "User Not Found".to_owned(),
            Self::Unauthorized(_) => "Unauthorized".to_owned(),
            Self::InternalServerError(_) => "Internal Server Error".to_owned(),
        }
    }

    /// The carried domain error code.
    pub fn error_code(&self) -> (r: String)
        ensures
            r@ == match *self {
                ApiError::BadRequest(s) => s@,
                ApiError::UserNotFound(s) => s@,
                ApiError::Unauthorized(s) => s@,
                ApiError::InternalServerError(s) => s@,
            },
    {
        match self {
            Self::BadRequest(c) => c.clone(),
            Self::UserNotFound(c) => c.clone(),
            Self::Unauthorized(c) => c.clone(),
            Self::InternalServerError(c) => c.clone(),
        }
    }

    /// The HTTP status class of the classification.
    pub fn status_code(&self) -> (r: u16)
        ensures
            r == match *self {
                ApiError::BadRequest(_) => 400u16,
                ApiError::UserNotFound(_) => 404u16,
                ApiError::Unauthorized(_) => 401u16,
                ApiError::InternalServerError(_) => 500u16,
            },
    {
        match self {
            Self::BadRequest(_) => 400,
            Self::UserNotFound(_) => 404,
            Self::Unauthorized(_) => 401,
            Self::InternalServerError(_) => 500,
        }
    }

    /// Classifies a domain error: rule violations become BadRequest,
    /// infrastructure failures become InternalServerError; the payload is
    /// always the domain error's stable code.
    pub fn from_model(e: ModelError) -> (r: ApiError)
        ensures
            is_domain_rule_error(e) ==> (r matches ApiError::BadRequest(c) && c@
                == model_error_code(e)),
            !is_domain_rule_error(e) ==> (r matches ApiError::InternalServerError(c) && c@
                == model_error_code(e)),
    {
        match e {
            ModelError::DatabaseError | ModelError::UnknownError => ApiError::InternalServerError(
                e.error_code(),
            ),
            _ => ApiError::BadRequest(e.error_code()),
        }
    }
}

} // verus!
