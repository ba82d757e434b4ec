//! The immutable tile value model.
//!
//! A tile is a colored number, a joker, or the empty sentinel.  The
//! sentinel is the default slot filler and is never valid inside a
//! meld or an active hand slot.

use vstd::prelude::*;
use crate::constants::JOKER_SCORE;

verus! {

/// One of the four tile colors.
#[derive(Clone, Copy, PartialEq, Eq, Structural, Debug)]
pub enum TileColor {
    Red,
    Blue,
    Black,
    Orange,
}

/// The variant carried by a tile.
#[derive(Clone, Copy, PartialEq, Eq, Structural, Debug)]
pub enum TileType {
    /// A real tile: a color and a number, 1 through 13 when well formed.
    Number { color: TileColor, number: u8 },
    /// A joker, standing in for a missing tile of a meld.
    Joker,
    /// The sentinel filling unused slots; never part of live state.
    Empty,
}

/// An immutable tile value; copied, never referenced.
#[derive(Clone, Copy, PartialEq, Eq, Structural, Debug)]
pub struct Tile {
    pub tile_type: TileType,
}

impl Default for Tile {
    /// The default tile is the empty sentinel.
    fn default() -> (t: Tile)
        ensures
            t.tile_type == TileType::Empty,
    {
        Tile { tile_type: TileType::Empty }
    }
}

impl Tile {
    /// True of a real (numbered) tile.
    pub open spec fn is_number(self) -> bool {
        match self.tile_type {
            TileType::Number { .. } => true,
            _ => false,
        }
    }

    /// True of a joker.
    pub open spec fn is_joker(self) -> bool {
        match self.tile_type {
            TileType::Joker => true,
            _ => false,
        }
    }

    /// True of the empty sentinel.
    pub open spec fn is_empty(self) -> bool {
        match self.tile_type {
            TileType::Empty => true,
            _ => false,
        }
    }

    /// The number of a real tile; 0 elsewhere.
    pub open spec fn number(self) -> u8 {
        match self.tile_type {
            TileType::Number { number, .. } => number,
            _ => 0,
        }
    }

    /// The color of a real tile; red elsewhere.
    pub open spec fn color(self) -> TileColor {
        match self.tile_type {
            TileType::Number { color, .. } => color,
            _ => TileColor::Red,
        }
    }

    /// A tile that may legally sit in the pool or in a hand: a number
    /// in 1..=13 or a joker, never the empty sentinel.
    pub open spec fn wf(self) -> bool {
        match self.tile_type {
            TileType::Number { number, .. } => 1 <= number <= 13,
            TileType::Joker => true,
            TileType::Empty => false,
        }
    }

    /// The point value of this tile wherever values are summed: a real
    /// tile scores its number, a joker the fixed bonus, the sentinel 0.
    pub open spec fn spec_value(self) -> u16 {
        match self.tile_type {
            TileType::Number { number, .. } => number as u16,
            TileType::Joker => JOKER_SCORE,
            TileType::Empty => 0,
        }
    }

    /// Executable point value of this tile.
    pub fn get_value(&self) -> (v: u16)
        ensures
            v == self.spec_value(),
    {
        match self.tile_type {
            TileType::Number { number, .. } => number as u16,
            TileType::Joker => JOKER_SCORE,
            TileType::Empty => 0,
        }
    }
}

} // verus!
