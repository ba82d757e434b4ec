//! Fixed rule parameters of the match.

use vstd::prelude::*;

verus! {

/// Largest number of players a match may be created for.
pub const MAX_PLAYERS: usize = 4;

/// Smallest number of players a match may be created for.
pub const MIN_PLAYERS: usize = 2;

/// Number of tiles dealt to each player when they join.
pub const TILES_PER_PLAYER: usize = 14;

/// 4 copies of the numbers 1-13 in each of 4 colors, plus 2 jokers.
pub const TOTAL_TILES: usize = 106;

/// Capacity of a player's hand.
pub const HAND_CAPACITY: usize = 21;

/// Minimum summed tile value of a player's first (opening) play.
pub const MIN_INITIAL_MELD: u16 = 30;

/// Point value a joker contributes wherever tile values are summed.
pub const JOKER_SCORE: u16 = 30;

/// Entry stake collected from each joining player, in lamports.
pub const ENTRY_FEE_LAMPORTS: u64 = 100_000_000;

/// House fee taken from the prize pool, in basis points out of 10000.
pub const HOUSE_FEE_BPS: u64 = 500;

} // verus!
