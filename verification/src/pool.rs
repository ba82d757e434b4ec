//! Tile-pool lifecycle: deterministic construction of the 106 tiles
//! and the two seeded shuffles.
//!
//! Both shuffles run the same reverse Fisher-Yates pass; they differ
//! only in where the swap index at step `i` comes from.  The
//! bootstrap variant drives a linear-congruential generator from a
//! caller-supplied 64-bit seed (explicitly weak); the verified-random
//! variant derives the index from 4 bytes of an externally supplied
//! 32-byte seed, selected by `(i % 8) * 4` and read little-endian.
//! Both permutations are pinned bit-exactly by spec functions, and
//! both are proved to permute the pool: the multiset of tiles is
//! unchanged.

use vstd::prelude::*;
use vstd::pervasive::VecAdditionalExecFns;
use vstd::seq_lib::group_to_multiset_ensures;
use crate::constants::{MAX_PLAYERS, MIN_PLAYERS, TOTAL_TILES};
use crate::errors::RummikubError;
use crate::game::{GameState, GameStatus};
use crate::player::PlayerId;
use crate::tiles::{Tile, TileColor, TileType};

verus! {

broadcast use group_to_multiset_ensures;

/// The color generated at color index `c` (0 to 3).
pub open spec fn color_of_index(c: int) -> TileColor {
    if c == 0 {
        TileColor::Red
    } else if c == 1 {
        TileColor::Blue
    } else if c == 2 {
        TileColor::Black
    } else {
        TileColor::Orange
    }
}

/// Tile `i` of the freshly generated pool: four rounds of the four
/// colors' numbers 1 to 13, then the two jokers.
pub open spec fn initial_tile(i: int) -> Tile {
    if i >= 104 {
        Tile { tile_type: TileType::Joker }
    } else {
        Tile {
            tile_type: TileType::Number {
                color: color_of_index((i / 13) % 4),
                number: ((i % 13) + 1) as u8,
            },
        }
    }
}

/// The freshly generated pool in its fixed deterministic order.
pub open spec fn initial_pool() -> Seq<Tile> {
    Seq::new(TOTAL_TILES as nat, |i: int| initial_tile(i))
}

/// `s` with the tiles at `i` and `j` exchanged.
pub open spec fn swapped(s: Seq<Tile>, i: int, j: int) -> Seq<Tile> {
    s.update(i, s[j]).update(j, s[i])
}

/// One step of the linear-congruential generator driving the
/// bootstrap shuffle: multiplier 1664525, increment 1013904223,
/// wrapping 64-bit arithmetic.
pub open spec fn lcg_next(state: u64) -> u64 {
    vstd::wrapping::u64_specs::wrapping_add(
        vstd::wrapping::u64_specs::wrapping_mul(state, 1664525),
        1013904223,
    )
}

/// The bootstrap Fisher-Yates pass from index `i` down to 1: at each
/// step the generator advances and position `i` is swapped with the
/// fresh value reduced mod `i + 1`.
pub open spec fn lcg_shuffle_from(s: Seq<Tile>, rng: u64, i: int) -> Seq<Tile>
    decreases i,
{
    if i <= 0 {
        s
    } else {
        let r2 = lcg_next(rng);
        lcg_shuffle_from(swapped(s, i, (r2 as int) % (i + 1)), r2, i - 1)
    }
}

/// The whole bootstrap shuffle of `s` under `seed`.
pub open spec fn lcg_shuffle(s: Seq<Tile>, seed: u64) -> Seq<Tile> {
    lcg_shuffle_from(s, seed, s.len() - 1)
}

/// The unsigned 32-bit value read little-endian from the 4 seed
/// bytes at offset `(i % 8) * 4`.  Only 8 distinct 4-byte windows
/// exist for the whole pass; this known entropy limit is kept for
/// bit-exact compatibility.
pub open spec fn seed_word(seed: Seq<u8>, i: int) -> int {
    let o = (i % 8) * 4;
    seed[o] + seed[o + 1] * 0x100 + seed[o + 2] * 0x10000 + seed[o + 3] * 0x1000000
}

/// The verified-random Fisher-Yates pass from index `i` down to 1.
pub open spec fn vrf_shuffle_from(s: Seq<Tile>, seed: Seq<u8>, i: int) -> Seq<Tile>
    decreases i,
{
    if i <= 0 {
        s
    } else {
        vrf_shuffle_from(swapped(s, i, seed_word(seed, i) % (i + 1)), seed, i - 1)
    }
}

/// The whole verified-random shuffle of `s` under the 32-byte seed.
pub open spec fn vrf_shuffle(s: Seq<Tile>, seed: Seq<u8>) -> Seq<Tile> {
    vrf_shuffle_from(s, seed, s.len() - 1)
}

// ---------------------------------------------------------------------
// Permutation laws.
// ---------------------------------------------------------------------

/// A swap leaves the multiset of tiles unchanged.
proof fn lemma_swap_multiset(s: Seq<Tile>, i: int, j: int)
    requires
        0 <= i < s.len(),
        0 <= j < s.len(),
    ensures
        swapped(s, i, j).len() == s.len(),
        swapped(s, i, j).to_multiset() == s.to_multiset(),
{
    if i == j {
        assert(swapped(s, i, j) =~= s);
    } else {
        let s1 = s.update(i, s[j]);
        assert(s1[j] == s[j]);
        assert(s.contains(s[i]));
        assert(s.to_multiset().count(s[i]) > 0);
        assert(s1.update(j, s[i]).to_multiset() =~= s.to_multiset());
    }
}

/// Law: the bootstrap Fisher-Yates pass is a permutation.
pub proof fn lemma_lcg_shuffle_permutes(s: Seq<Tile>, rng: u64, i: int)
    requires
        i < s.len(),
    ensures
        lcg_shuffle_from(s, rng, i).len() == s.len(),
        lcg_shuffle_from(s, rng, i).to_multiset() == s.to_multiset(),
    decreases i,
{
    if i > 0 {
        let r2 = lcg_next(rng);
        let j = (r2 as int) % (i + 1);
        assert(0 <= j <= i);
        lemma_swap_multiset(s, i, j);
        lemma_lcg_shuffle_permutes(swapped(s, i, j), r2, i - 1);
    }
}

/// Law: the verified-random Fisher-Yates pass is a permutation.
pub proof fn lemma_vrf_shuffle_permutes(s: Seq<Tile>, seed: Seq<u8>, i: int)
    requires
        i < s.len(),
    ensures
        vrf_shuffle_from(s, seed, i).len() == s.len(),
        vrf_shuffle_from(s, seed, i).to_multiset() == s.to_multiset(),
    decreases i,
{
    if i > 0 {
        let j = seed_word(seed, i) % (i + 1);
        assert(0 <= j <= i);
        lemma_swap_multiset(s, i, j);
        lemma_vrf_shuffle_permutes(swapped(s, i, j), seed, i - 1);
    }
}

/// A permutation of well-formed tiles is made of well-formed tiles.
proof fn lemma_permutation_keeps_wf(a: Seq<Tile>, b: Seq<Tile>)
    requires
        a.to_multiset() == b.to_multiset(),
        forall|i: int| 0 <= i < a.len() ==> (#[trigger] a[i]).wf(),
    ensures
        forall|i: int| 0 <= i < b.len() ==> (#[trigger] b[i]).wf(),
{
    assert forall|i: int| 0 <= i < b.len() implies (#[trigger] b[i]).wf() by {
        assert(b.contains(b[i]));
        assert(b.to_multiset().count(b[i]) > 0);
        assert(a.to_multiset().count(b[i]) > 0);
        assert(a.contains(b[i]));
        let j = choose|j: int| 0 <= j < a.len() && a[j] == b[i];
        assert(a[j].wf());
    }
}

// ---------------------------------------------------------------------
// Executable pool operations.
// ---------------------------------------------------------------------

/// Exchange the tiles at `i` and `j`.
fn swap_tiles(v: &mut Vec<Tile>, i: usize, j: usize)
    requires
        i < old(v)@.len(),
        j < old(v)@.len(),
    ensures
        final(v)@ == swapped(old(v)@, i as int, j as int),
{
    let a = v[i];
    let b = v[j];
    v.set(i, b);
    v.set(j, a);
}

impl GameState {
    /// Bootstrap shuffle: permute the pool by a reverse Fisher-Yates
    /// pass driven by a caller-seeded linear-congruential generator.
    /// This variant is explicitly weak; the verified-randomness
    /// variant is the real shuffle.
    pub fn shuffle_tiles(&mut self, seed: u64) -> (r: Result<(), RummikubError>)
        requires
            old(self).wf(),
        ensures
            final(self).wf(),
            r is Ok,
            final(self).tile_pool@ == lcg_shuffle(old(self).tile_pool@, seed),
            final(self).tile_pool@.to_multiset() == old(self).tile_pool@.to_multiset(),
            final(self).tile_pool@.len() == old(self).tile_pool@.len(),
            *final(self) == (GameState { tile_pool: final(self).tile_pool, ..*old(self) }),
    {
        let ghost orig = self.tile_pool@;
        let len = self.tile_pool.len();
        proof {
            lemma_lcg_shuffle_permutes(orig, seed, orig.len() - 1);
        }
        if len == 0 {
            return Ok(());
        }
        let mut rng: u64 = seed;
        let mut i: usize = len - 1;
        while i >= 1
            invariant
                self.tile_pool@.len() == len,
                len == orig.len(),
                i < len,
                lcg_shuffle_from(orig, seed, len - 1) == lcg_shuffle_from(
                    self.tile_pool@,
                    rng,
                    i as int,
                ),
                self.tile_pool@.to_multiset() == orig.to_multiset(),
                *self == (GameState { tile_pool: self.tile_pool, ..*old(self) }),
            decreases i,
        {
            rng = rng.wrapping_mul(1664525).wrapping_add(1013904223);
            let j = (rng % (i as u64 + 1)) as usize;
            proof {
                assert(j <= i);
                lemma_swap_multiset(self.tile_pool@, i as int, j as int);
            }
            swap_tiles(&mut self.tile_pool, i, j);
            i = i - 1;
        }
        proof {
            lemma_permutation_keeps_wf(orig, self.tile_pool@);
        }
        Ok(())
    }

    /// The verified-randomness shuffle: the same reverse Fisher-Yates
    /// pass, with the swap index at step `i` read little-endian from
    /// the 4 seed bytes at offset `(i % 8) * 4`, reduced mod `i + 1`.
    pub fn shuffle_tiles_with_randomness(&mut self, randomness: [u8; 32]) -> (r: Result<
        (),
        RummikubError,
    >)
        requires
            old(self).wf(),
        ensures
            final(self).wf(),
            r is Ok,
            final(self).tile_pool@ == vrf_shuffle(old(self).tile_pool@, randomness@),
            final(self).tile_pool@.to_multiset() == old(self).tile_pool@.to_multiset(),
            final(self).tile_pool@.len() == old(self).tile_pool@.len(),
            *final(self) == (GameState { tile_pool: final(self).tile_pool, ..*old(self) }),
    {
        let ghost orig = self.tile_pool@;
        let len = self.tile_pool.len();
        proof {
            lemma_vrf_shuffle_permutes(orig, randomness@, orig.len() - 1);
        }
        if len == 0 {
            return Ok(());
        }
        let mut i: usize = len - 1;
        while i >= 1
            invariant
                self.tile_pool@.len() == len,
                len == orig.len(),
                i < len,
                vrf_shuffle_from(orig, randomness@, len - 1) == vrf_shuffle_from(
                    self.tile_pool@,
                    randomness@,
                    i as int,
                ),
                self.tile_pool@.to_multiset() == orig.to_multiset(),
                *self == (GameState { tile_pool: self.tile_pool, ..*old(self) }),
            decreases i,
        {
            let o = (i % 8) * 4;
            let b0 = randomness[o] as u64;
            let b1 = randomness[o + 1] as u64;
            let b2 = randomness[o + 2] as u64;
            let b3 = randomness[o + 3] as u64;
            let word = b0 + b1 * 0x100 + b2 * 0x10000 + b3 * 0x1000000;
            proof {
                assert(word as int == seed_word(randomness@, i as int));
            }
            let j = (word % (i as u64 + 1)) as usize;
            proof {
                assert(j <= i);
                lemma_swap_multiset(self.tile_pool@, i as int, j as int);
            }
            swap_tiles(&mut self.tile_pool, i, j);
            i = i - 1;
        }
        proof {
            lemma_permutation_keeps_wf(orig, self.tile_pool@);
        }
        Ok(())
    }

    /// Populate the pool with all 106 tiles in the fixed generation
    /// order and run the bootstrap shuffle under `seed`.  Used once
    /// at match creation, before any tile is dealt.
    pub fn initialize_tile_pool(&mut self, seed: u64) -> (r: Result<(), RummikubError>)
        requires
            MIN_PLAYERS as int <= old(self).max_players as int <= MAX_PLAYERS as int,
            old(self).players@.len() == 0,
            old(self).current_players == 0,
            old(self).table_melds@.len() == 0,
            old(self).game_status is WaitingForPlayers,
            old(self).current_turn == 0,
            old(self).prize_pool == 0,
        ensures
            final(self).wf(),
            r is Ok,
            final(self).tile_pool@ == lcg_shuffle(initial_pool(), seed),
            final(self).tile_pool@.to_multiset() == initial_pool().to_multiset(),
            final(self).tiles_remaining == TOTAL_TILES as u16,
            *final(self) == (GameState {
                tile_pool: final(self).tile_pool,
                tiles_remaining: final(self).tiles_remaining,
                ..*old(self)
            }),
    {
        self.tile_pool = Vec::new();
        let mut k: usize = 0;
        while k < 104
            invariant
                self.tile_pool@.len() == k as int,
                k <= 104,
                forall|m: int| 0 <= m < k ==> self.tile_pool@[m] == initial_tile(m),
                *self == (GameState { tile_pool: self.tile_pool, ..*old(self) }),
            decreases 104 - k,
        {
            let c = (k / 13) % 4;
            let color = if c == 0 {
                TileColor::Red
            } else if c == 1 {
                TileColor::Blue
            } else if c == 2 {
                TileColor::Black
            } else {
                TileColor::Orange
            };
            let number = (k % 13 + 1) as u8;
            self.tile_pool.push(Tile { tile_type: TileType::Number { color, number } });
            k += 1;
        }
        self.tile_pool.push(Tile { tile_type: TileType::Joker });
        self.tile_pool.push(Tile { tile_type: TileType::Joker });
        proof {
            assert(self.tile_pool@ =~= initial_pool());
        }
        self.tiles_remaining = TOTAL_TILES as u16;
        proof {
            assert(crate::game::hands_total(self.players@) == 0);
            assert(crate::game::table_total(self.table_melds@) == 0);
            assert forall|i: int| 0 <= i < self.tile_pool@.len() implies (#[trigger]
            self.tile_pool@[i]).wf() by {
                assert(self.tile_pool@[i] == initial_tile(i));
            }
        }
        match self.shuffle_tiles(seed) {
            Ok(()) => {},
            Err(e) => {
                proof {
                    assert(false);
                }
                return Err(e);
            },
        }
        Ok(())
    }

    /// Create a match: a fresh waiting state whose pool holds all 106
    /// tiles, shuffled under the injected bootstrap seed.  Rejects a
    /// player bound outside 2 to 4.
    pub fn initialize_game(game_id: u64, authority: PlayerId, max_players: u8, seed: u64) -> (r:
        Result<GameState, RummikubError>)
        ensures
            r is Ok <==> MIN_PLAYERS as int <= max_players as int <= MAX_PLAYERS as int,
            r is Err ==> r == Err::<GameState, RummikubError>(RummikubError::InvalidPlayerCount),
            (r matches Ok(g) ==> {
                &&& g.wf()
                &&& g.game_id == game_id
                &&& g.authority == authority
                &&& g.max_players == max_players
                &&& g.current_players == 0
                &&& g.current_turn == 0
                &&& g.game_status is WaitingForPlayers
                &&& g.winner is None
                &&& g.prize_pool == 0
                &&& g.players@.len() == 0
                &&& g.table_melds@.len() == 0
                &&& g.tile_pool@ == lcg_shuffle(initial_pool(), seed)
                &&& g.tile_pool@.to_multiset() == initial_pool().to_multiset()
                &&& g.tiles_remaining == TOTAL_TILES as u16
            }),
    {
        if max_players < MIN_PLAYERS as u8 || max_players > MAX_PLAYERS as u8 {
            return Err(RummikubError::InvalidPlayerCount);
        }
        let mut game = GameState {
            game_id,
            authority,
            max_players,
            current_players: 0,
            current_turn: 0,
            game_status: GameStatus::WaitingForPlayers,
            winner: None,
            prize_pool: 0,
            players: Vec::new(),
            table_melds: Vec::new(),
            tile_pool: Vec::new(),
            tiles_remaining: 0,
        };
        match game.initialize_tile_pool(seed) {
            Ok(()) => {},
            Err(e) => {
                proof {
                    assert(false);
                }
                return Err(e);
            },
        }
        Ok(game)
    }

    /// Consume externally supplied verifiable randomness: reject it
    /// once the match is finished, otherwise permute the pool with
    /// the verified-random shuffle.
    pub fn callback_shuffle(&mut self, randomness: [u8; 32]) -> (r: Result<(), RummikubError>)
        requires
            old(self).wf(),
        ensures
            final(self).wf(),
            r is Err ==> *final(self) == *old(self) && r == Err::<(), RummikubError>(
                RummikubError::InvalidGameState,
            ),
            r is Ok <==> old(self).game_status is WaitingForPlayers || old(
                self,
            ).game_status is InProgress,
            r is Ok ==> final(self).tile_pool@ == vrf_shuffle(old(self).tile_pool@, randomness@)
                && final(self).tile_pool@.to_multiset() == old(self).tile_pool@.to_multiset()
                && *final(self) == (GameState { tile_pool: final(self).tile_pool, ..*old(self) }),
    {
        match self.game_status {
            GameStatus::WaitingForPlayers | GameStatus::InProgress => {},
            _ => {
                return Err(RummikubError::InvalidGameState);
            },
        }
        match self.shuffle_tiles_with_randomness(randomness) {
            Ok(()) => Ok(()),
            Err(e) => {
                proof {
                    assert(false);
                }
                Err(e)
            },
        }
    }
}

} // verus!
