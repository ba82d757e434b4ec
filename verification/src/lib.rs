//! Rule-validation and state-transition engine for a 2-4 player
//! Rummikub-style tile match.
//!
//! The engine is the sole authority deciding whether a proposed move is
//! legal and how the match state evolves.  It owns the tile-pool
//! lifecycle, player hands, meld (set/run) structural legality, turn
//! progression, the opening (minimum initial meld) gate, joker
//! retrieval, and end-of-match scoring.  Callers are adversarial: every
//! transition is validated with exact, deterministic rules, and a
//! rejected action leaves the state completely unmodified.
//!
//! Economic settlement, randomness sourcing, state replication and
//! caller authentication are out of scope: the engine consumes a seed,
//! an already-verified identity, and plain values only.

pub mod constants;
pub mod errors;
pub mod tiles;
pub mod meld;
pub mod player;
pub mod game;
pub mod pool;
pub mod play;
