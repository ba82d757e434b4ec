//! The enumerable reasons for which an action is rejected.
//!
//! Every error is surfaced synchronously; there are no internal
//! retries and no partial success.

use vstd::prelude::*;

verus! {

/// Typed rejection reason returned by every fallible engine operation.
#[derive(Clone, Copy, PartialEq, Eq, Structural, Debug)]
pub enum RummikubError {
    /// A match must be created for 2 to 4 players.
    InvalidPlayerCount,
    /// A player tried to join after the match left the waiting state.
    GameAlreadyStarted,
    /// A player tried to join a match that already has all its players.
    GameFull,
    /// The action requires a match that is in progress.
    GameNotInProgress,
    /// The pool holds fewer tiles than the action needs.
    NotEnoughTiles,
    /// The player's hand is at capacity.
    TooManyTiles,
    /// The acting identity is a player, but it is not their turn.
    NotPlayerTurn,
    /// The acting identity is not a player of this match.
    PlayerNotInGame,
    /// A claimed hand-tile index is out of range or repeated.
    InvalidTileIndex,
    /// A first play must reach the minimum initial meld value.
    InitialMeldTooLow,
    /// A meld needs at least 3 tiles.
    MeldTooSmall,
    /// A set is malformed: wrong size or mismatched numbers.
    InvalidSet,
    /// Two real tiles of a set share a color.
    DuplicateColorInSet,
    /// Legacy reason for runs whose numbers do not line up.
    NonConsecutiveRun,
    /// An empty sentinel tile appeared inside a meld.
    EmptyTileInMeld,
    /// A set needs at least one real (numbered) tile.
    SetMustHaveRealTile,
    /// A set cannot carry more proxies than it has missing colors.
    TooManyJokersInSet,
    /// A run is malformed: mixed colors or a number below 1.
    InvalidRun,
    /// Two real tiles of a run carry the same number.
    DuplicateNumberInRun,
    /// A run needs at least one real (numbered) tile.
    RunMustHaveRealTile,
    /// The jokers of a run must fill its interior gaps exactly.
    InvalidJokerPlacement,
    /// The sequence 1-13 is linear: a run never passes 13.
    RunCannotWrap,
    /// Joker retrieval is only open to a player who has opened.
    CannotRetrieveJokerBeforeOpening,
    /// A joker retrieval must play at least one genuine hand tile.
    MustPlayTileWithJoker,
    /// A retrieval named a table meld that does not exist.
    InvalidMeldIndex,
    /// A retrieval named a tile position outside its meld.
    InvalidTilePosition,
    /// The targeted meld slot does not hold a joker.
    NotAJoker,
    /// The offered hand tile is not a legal substitute for the joker.
    InvalidJokerReplacement,
    /// Every joker retrieved this turn must reappear in the new table.
    MustPlayRetrievedJoker,
    /// Before opening, pre-existing table melds must stay untouched.
    CannotRearrangeBeforeOpening,
    /// The proposed table does not conserve the tile count.
    TableTileCountMismatch,
    /// The randomness callback arrived in a state that cannot use it.
    InvalidGameState,
    /// The prize can only be claimed once the match is finished.
    GameNotFinished,
    /// Only the recorded winner may claim the prize.
    NotTheWinner,
    /// The prize pool was already paid out.
    PrizeAlreadyClaimed,
}

} // verus!
