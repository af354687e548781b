//! Game and assassination-ring engine.
//!
//! The engine keeps, per game, a directed cycle ("ring") of CURRENT
//! assignment edges over the alive members: every alive player hunts exactly
//! one target and is hunted by exactly one assassin.  Operations (create,
//! join, start, kill, leave, stop, queries) mutate an in-memory store of
//! player, game, membership and assignment records, and every mutating
//! operation is proved to preserve the store's structural invariants:
//! unique game codes, one membership row per player and game, at most one
//! alive membership per player across unfinished games, and a single ring
//! over the alive members of every active game.
//!
//! Each operation is one atomic transaction over the store: concurrent
//! callers serialize on the store (an embedding program holds it behind a
//! lock or a single owner), so the invariants hold after every call, and a
//! run of calls models any serialized interleaving of requests.
//! Timestamps enter as explicit tick arguments and randomness only through
//! the identifier generator and the ring shuffle, so everything else is
//! deterministic in the store's state.

pub mod enums;
pub mod errors;
pub mod records;
pub mod genstring;
pub mod ring;
pub mod engine;
pub mod laws;
