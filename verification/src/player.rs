//! A player of the match: verified identity, exclusively owned hand,
//! sticky opening flag, and end-of-match score.

use vstd::prelude::*;
use crate::constants::HAND_CAPACITY;
use crate::tiles::Tile;
use crate::errors::RummikubError;

verus! {

/// The already-verified identity of an acting party: 32 bytes of key
/// material carried as four 64-bit words.  The engine only ever
/// compares identities for equality.
#[derive(Clone, Copy, PartialEq, Eq, Structural, Debug)]
pub struct PlayerId {
    pub w0: u64,
    pub w1: u64,
    pub w2: u64,
    pub w3: u64,
}

/// A player entity.  The hand vector holds exactly the live tiles;
/// `tile_count` mirrors its length.
#[derive(Clone, Debug)]
pub struct Player {
    pub pubkey: PlayerId,
    pub tiles: Vec<Tile>,
    pub tile_count: u8,
    pub has_opened: bool,
    pub score: i16,
}

/// Summed point value of a tile sequence.
pub open spec fn tiles_value(s: Seq<Tile>) -> int
    decreases s.len(),
{
    if s.len() == 0 {
        0
    } else {
        tiles_value(s.drop_last()) + s.last().spec_value() as int
    }
}

/// Extending a prefix by one tile adds that tile's value.
pub proof fn lemma_tiles_value_step(s: Seq<Tile>, k: int)
    requires
        0 <= k < s.len(),
    ensures
        tiles_value(s.take(k + 1)) == tiles_value(s.take(k)) + s[k].spec_value() as int,
{
    assert(s.take(k + 1).drop_last() =~= s.take(k));
    assert(s.take(k + 1).last() == s[k]);
}

/// A sequence of well-formed tiles is worth between 0 and 30 points
/// per tile.
pub proof fn lemma_tiles_value_bound(s: Seq<Tile>)
    requires
        forall|i: int| 0 <= i < s.len() ==> (#[trigger] s[i]).wf(),
    ensures
        0 <= tiles_value(s) <= 30 * s.len(),
    decreases s.len(),
{
    if s.len() > 0 {
        assert(forall|i: int| 0 <= i < s.len() - 1 ==> s.drop_last()[i] == s[i]);
        lemma_tiles_value_bound(s.drop_last());
        assert(s.last().wf());
        assert(s.last().spec_value() <= 30);
    }
}

impl Player {
    /// Hand invariant: the explicit counter mirrors the vector, the
    /// capacity bound holds, and every live tile is well formed.
    pub open spec fn wf(self) -> bool {
        &&& self.tiles@.len() == self.tile_count as int
        &&& self.tiles@.len() <= HAND_CAPACITY as int
        &&& forall|i: int| 0 <= i < self.tiles@.len() ==> (#[trigger] self.tiles@[i]).wf()
    }

    /// The summed point value of the hand.
    pub open spec fn hand_value(self) -> int {
        tiles_value(self.tiles@)
    }

    /// A fresh player with an empty hand who has not opened.
    pub fn new(pubkey: PlayerId) -> (p: Player)
        ensures
            p.wf(),
            p.pubkey == pubkey,
            p.tiles@.len() == 0,
            p.has_opened == false,
            p.score == 0,
    {
        Player { pubkey, tiles: Vec::new(), tile_count: 0, has_opened: false, score: 0 }
    }

    /// Draw: append one tile to the hand.
    pub fn add_tile(&mut self, tile: Tile)
        requires
            old(self).wf(),
            old(self).tiles@.len() < HAND_CAPACITY as int,
            tile.wf(),
        ensures
            final(self).wf(),
            final(self).tiles@ == old(self).tiles@.push(tile),
            final(self).tile_count == old(self).tile_count + 1,
            final(self).pubkey == old(self).pubkey,
            final(self).has_opened == old(self).has_opened,
            final(self).score == old(self).score,
    {
        self.tiles.push(tile);
        self.tile_count = self.tile_count + 1;
    }

    /// Order-preserving removal of the hand tile at `index`; later
    /// tiles shift down by one.
    pub fn remove_tile(&mut self, index: usize) -> (r: Result<(), RummikubError>)
        requires
            old(self).wf(),
        ensures
            final(self).wf(),
            r is Ok <==> index < old(self).tiles@.len(),
            r is Ok ==> final(self).tiles@ == old(self).tiles@.remove(index as int)
                && final(self).tile_count == old(self).tile_count - 1,
            r is Err ==> r == Err::<(), RummikubError>(RummikubError::InvalidTileIndex)
                && *final(self) == *old(self),
            final(self).pubkey == old(self).pubkey,
            final(self).has_opened == old(self).has_opened,
            final(self).score == old(self).score,
    {
        if index >= self.tiles.len() {
            return Err(RummikubError::InvalidTileIndex);
        }
        self.tiles.remove(index);
        self.tile_count = self.tile_count - 1;
        Ok(())
    }
}

} // verus!
