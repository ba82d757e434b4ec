use rummikub::meld::{Meld, MeldType};
use rummikub::tiles::{Tile, TileColor, TileType};

fn number_tile(color: TileColor, number: u8) -> Tile {
    Tile { tile_type: TileType::Number { color, number } }
}

fn joker_tile() -> Tile {
    Tile { tile_type: TileType::Joker }
}

#[test]
fn test_valid_set_three_colors() {
    let meld = Meld {
        meld_type: MeldType::Group,
        tiles: vec![
            number_tile(TileColor::Red, 7),
            number_tile(TileColor::Blue, 7),
            number_tile(TileColor::Black, 7),
        ],
    };
    assert!(meld.validate().is_ok());
}

#[test]
fn test_valid_set_four_colors() {
    let meld = Meld {
        meld_type: MeldType::Group,
        tiles: vec![
            number_tile(TileColor::Red, 10),
            number_tile(TileColor::Blue, 10),
            number_tile(TileColor::Black, 10),
            number_tile(TileColor::Orange, 10),
        ],
    };
    assert!(meld.validate().is_ok());
}

#[test]
fn test_valid_set_with_one_joker() {
    let meld = Meld {
        meld_type: MeldType::Group,
        tiles: vec![
            number_tile(TileColor::Red, 5),
            number_tile(TileColor::Blue, 5),
            joker_tile(),
        ],
    };
    assert!(meld.validate().is_ok());
}

#[test]
fn test_valid_set_with_two_jokers() {
    let meld = Meld {
        meld_type: MeldType::Group,
        tiles: vec![number_tile(TileColor::Red, 8), joker_tile(), joker_tile()],
    };
    assert!(meld.validate().is_ok());
}

#[test]
fn test_valid_set_with_three_jokers() {
    let meld = Meld {
        meld_type: MeldType::Group,
        tiles: vec![
            number_tile(TileColor::Orange, 12),
            joker_tile(),
            joker_tile(),
            joker_tile(),
        ],
    };
    assert!(meld.validate().is_ok());
}

#[test]
fn test_invalid_set_only_jokers() {
    let meld = Meld {
        meld_type: MeldType::Group,
        tiles: vec![joker_tile(), joker_tile(), joker_tile()],
    };
    assert!(meld.validate().is_err());
}

#[test]
fn test_invalid_set_duplicate_color() {
    let meld = Meld {
        meld_type: MeldType::Group,
        tiles: vec![
            number_tile(TileColor::Red, 9),
            number_tile(TileColor::Red, 9),
            number_tile(TileColor::Blue, 9),
        ],
    };
    assert!(meld.validate().is_err());
}

#[test]
fn test_invalid_set_different_numbers() {
    let meld = Meld {
        meld_type: MeldType::Group,
        tiles: vec![
            number_tile(TileColor::Red, 5),
            number_tile(TileColor::Blue, 6),
            number_tile(TileColor::Black, 7),
        ],
    };
    assert!(meld.validate().is_err());
}

#[test]
fn test_invalid_set_too_many_jokers() {
    let meld = Meld {
        meld_type: MeldType::Group,
        tiles: vec![
            number_tile(TileColor::Red, 3),
            number_tile(TileColor::Blue, 3),
            joker_tile(),
            joker_tile(),
            joker_tile(),
        ],
    };
    assert!(meld.validate().is_err());
}

#[test]
fn test_valid_run_simple() {
    let meld = Meld {
        meld_type: MeldType::Run,
        tiles: vec![
            number_tile(TileColor::Red, 5),
            number_tile(TileColor::Red, 6),
            number_tile(TileColor::Red, 7),
        ],
    };
    assert!(meld.validate().is_ok());
}

#[test]
fn test_valid_run_long() {
    let meld = Meld {
        meld_type: MeldType::Run,
        tiles: vec![
            number_tile(TileColor::Blue, 1),
            number_tile(TileColor::Blue, 2),
            number_tile(TileColor::Blue, 3),
            number_tile(TileColor::Blue, 4),
            number_tile(TileColor::Blue, 5),
        ],
    };
    assert!(meld.validate().is_ok());
}

#[test]
fn test_valid_run_with_joker_at_start() {
    // a clear gap-filling scenario: [1, Joker, 3, 4]
    let meld = Meld {
        meld_type: MeldType::Run,
        tiles: vec![
            number_tile(TileColor::Red, 1),
            joker_tile(),
            number_tile(TileColor::Red, 3),
            number_tile(TileColor::Red, 4),
        ],
    };
    assert!(meld.validate().is_ok());
}

#[test]
fn test_valid_run_with_joker_in_middle() {
    let meld = Meld {
        meld_type: MeldType::Run,
        tiles: vec![
            number_tile(TileColor::Blue, 5),
            joker_tile(),
            number_tile(TileColor::Blue, 7),
        ],
    };
    assert!(meld.validate().is_ok());
}

#[test]
fn test_valid_run_with_joker_at_end() {
    // [8, 9, Joker, 11]
    let meld = Meld {
        meld_type: MeldType::Run,
        tiles: vec![
            number_tile(TileColor::Black, 8),
            number_tile(TileColor::Black, 9),
            joker_tile(),
            number_tile(TileColor::Black, 11),
        ],
    };
    assert!(meld.validate().is_ok());
}

#[test]
fn test_valid_run_with_two_jokers() {
    let meld = Meld {
        meld_type: MeldType::Run,
        tiles: vec![
            number_tile(TileColor::Orange, 1),
            joker_tile(),
            joker_tile(),
            number_tile(TileColor::Orange, 4),
        ],
    };
    assert!(meld.validate().is_ok());
}

#[test]
fn test_invalid_run_only_jokers() {
    let meld = Meld {
        meld_type: MeldType::Run,
        tiles: vec![joker_tile(), joker_tile(), joker_tile()],
    };
    assert!(meld.validate().is_err());
}

#[test]
fn test_invalid_run_mixed_colors() {
    let meld = Meld {
        meld_type: MeldType::Run,
        tiles: vec![
            number_tile(TileColor::Red, 5),
            number_tile(TileColor::Blue, 6),
            number_tile(TileColor::Red, 7),
        ],
    };
    assert!(meld.validate().is_err());
}

#[test]
fn test_invalid_run_not_consecutive() {
    let meld = Meld {
        meld_type: MeldType::Run,
        tiles: vec![
            number_tile(TileColor::Red, 1),
            number_tile(TileColor::Red, 2),
            number_tile(TileColor::Red, 4),
        ],
    };
    assert!(meld.validate().is_err());
}

#[test]
fn test_invalid_run_gap_too_large() {
    let meld = Meld {
        meld_type: MeldType::Run,
        tiles: vec![
            number_tile(TileColor::Blue, 1),
            joker_tile(),
            number_tile(TileColor::Blue, 5),
        ],
    };
    assert!(meld.validate().is_err());
}

#[test]
fn test_invalid_run_wrapping() {
    // [12, 13, Joker]: no interior gap exists for the joker to fill
    let meld = Meld {
        meld_type: MeldType::Run,
        tiles: vec![
            number_tile(TileColor::Red, 12),
            number_tile(TileColor::Red, 13),
            joker_tile(),
        ],
    };
    assert!(meld.validate().is_err());
}

#[test]
fn test_invalid_run_duplicate_number() {
    let meld = Meld {
        meld_type: MeldType::Run,
        tiles: vec![
            number_tile(TileColor::Blue, 5),
            number_tile(TileColor::Blue, 5),
            number_tile(TileColor::Blue, 6),
        ],
    };
    assert!(meld.validate().is_err());
}

#[test]
fn test_invalid_run_wrapping_explicit() {
    // numbers 12, 13 and 1: the sequence is linear, 13 never wraps
    let meld = Meld {
        meld_type: MeldType::Run,
        tiles: vec![
            number_tile(TileColor::Red, 12),
            number_tile(TileColor::Red, 13),
            number_tile(TileColor::Red, 1),
        ],
    };
    assert!(meld.validate().is_err());
}

#[test]
fn test_valid_run_max_sequence() {
    let meld = Meld {
        meld_type: MeldType::Run,
        tiles: vec![
            number_tile(TileColor::Red, 1),
            number_tile(TileColor::Red, 2),
            number_tile(TileColor::Red, 3),
            number_tile(TileColor::Red, 4),
            number_tile(TileColor::Red, 5),
            number_tile(TileColor::Red, 6),
            number_tile(TileColor::Red, 7),
            number_tile(TileColor::Red, 8),
            number_tile(TileColor::Red, 9),
            number_tile(TileColor::Red, 10),
            number_tile(TileColor::Red, 11),
            number_tile(TileColor::Red, 12),
            number_tile(TileColor::Red, 13),
        ],
    };
    assert!(meld.validate().is_ok());
}

#[test]
fn test_meld_too_small() {
    let meld = Meld {
        meld_type: MeldType::Group,
        tiles: vec![
            number_tile(TileColor::Red, 5),
            number_tile(TileColor::Blue, 5),
        ],
    };
    assert!(meld.validate().is_err());
}

// ---------------------------------------------------------------------
// Exact rejection reasons.
// ---------------------------------------------------------------------

use rummikub::errors::RummikubError;

#[test]
fn test_meld_too_small_reason() {
    let meld = Meld {
        meld_type: MeldType::Run,
        tiles: vec![number_tile(TileColor::Red, 5)],
    };
    assert_eq!(meld.validate(), Err(RummikubError::MeldTooSmall));
}

#[test]
fn test_set_of_five_reason() {
    let meld = Meld {
        meld_type: MeldType::Group,
        tiles: vec![
            number_tile(TileColor::Red, 3),
            number_tile(TileColor::Blue, 3),
            joker_tile(),
            joker_tile(),
            joker_tile(),
        ],
    };
    assert_eq!(meld.validate(), Err(RummikubError::InvalidSet));
}

#[test]
fn test_set_number_mismatch_reason() {
    let meld = Meld {
        meld_type: MeldType::Group,
        tiles: vec![
            number_tile(TileColor::Red, 5),
            number_tile(TileColor::Blue, 6),
            number_tile(TileColor::Black, 7),
        ],
    };
    assert_eq!(meld.validate(), Err(RummikubError::InvalidSet));
}

#[test]
fn test_set_duplicate_color_reason() {
    let meld = Meld {
        meld_type: MeldType::Group,
        tiles: vec![
            number_tile(TileColor::Red, 9),
            number_tile(TileColor::Red, 9),
            number_tile(TileColor::Blue, 9),
        ],
    };
    assert_eq!(meld.validate(), Err(RummikubError::DuplicateColorInSet));
}

#[test]
fn test_set_empty_tile_reason() {
    let meld = Meld {
        meld_type: MeldType::Group,
        tiles: vec![
            number_tile(TileColor::Red, 9),
            Tile { tile_type: TileType::Empty },
            number_tile(TileColor::Blue, 9),
        ],
    };
    assert_eq!(meld.validate(), Err(RummikubError::EmptyTileInMeld));
}

#[test]
fn test_set_all_jokers_reason() {
    let meld = Meld {
        meld_type: MeldType::Group,
        tiles: vec![joker_tile(), joker_tile(), joker_tile()],
    };
    assert_eq!(meld.validate(), Err(RummikubError::SetMustHaveRealTile));
}

#[test]
fn test_run_mixed_colors_reason() {
    let meld = Meld {
        meld_type: MeldType::Run,
        tiles: vec![
            number_tile(TileColor::Red, 5),
            number_tile(TileColor::Blue, 6),
            number_tile(TileColor::Red, 7),
        ],
    };
    assert_eq!(meld.validate(), Err(RummikubError::InvalidRun));
}

#[test]
fn test_run_number_zero_reason() {
    let meld = Meld {
        meld_type: MeldType::Run,
        tiles: vec![
            number_tile(TileColor::Red, 0),
            number_tile(TileColor::Red, 1),
            number_tile(TileColor::Red, 2),
        ],
    };
    assert_eq!(meld.validate(), Err(RummikubError::InvalidRun));
}

#[test]
fn test_run_empty_tile_reason() {
    let meld = Meld {
        meld_type: MeldType::Run,
        tiles: vec![
            number_tile(TileColor::Red, 5),
            Tile { tile_type: TileType::Empty },
            number_tile(TileColor::Red, 7),
        ],
    };
    assert_eq!(meld.validate(), Err(RummikubError::EmptyTileInMeld));
}

#[test]
fn test_run_all_jokers_reason() {
    let meld = Meld {
        meld_type: MeldType::Run,
        tiles: vec![joker_tile(), joker_tile(), joker_tile()],
    };
    assert_eq!(meld.validate(), Err(RummikubError::RunMustHaveRealTile));
}

#[test]
fn test_run_duplicate_number_reason() {
    let meld = Meld {
        meld_type: MeldType::Run,
        tiles: vec![
            number_tile(TileColor::Blue, 5),
            number_tile(TileColor::Blue, 5),
            number_tile(TileColor::Blue, 6),
        ],
    };
    assert_eq!(meld.validate(), Err(RummikubError::DuplicateNumberInRun));
}

#[test]
fn test_run_joker_surplus_reason() {
    // [12, 13, Joker]: zero gaps but one joker
    let meld = Meld {
        meld_type: MeldType::Run,
        tiles: vec![
            number_tile(TileColor::Red, 12),
            number_tile(TileColor::Red, 13),
            joker_tile(),
        ],
    };
    assert_eq!(meld.validate(), Err(RummikubError::InvalidJokerPlacement));
}

#[test]
fn test_run_joker_deficit_reason() {
    // [1, Joker, 5]: three gaps but one joker
    let meld = Meld {
        meld_type: MeldType::Run,
        tiles: vec![
            number_tile(TileColor::Blue, 1),
            joker_tile(),
            number_tile(TileColor::Blue, 5),
        ],
    };
    assert_eq!(meld.validate(), Err(RummikubError::InvalidJokerPlacement));
}

#[test]
fn test_run_past_thirteen_reason() {
    // crafted numbers beyond the board range never form a run
    let meld = Meld {
        meld_type: MeldType::Run,
        tiles: vec![
            number_tile(TileColor::Red, 14),
            number_tile(TileColor::Red, 15),
            number_tile(TileColor::Red, 16),
        ],
    };
    assert_eq!(meld.validate(), Err(RummikubError::RunCannotWrap));
}

#[test]
fn test_run_order_does_not_matter() {
    // validation is count-based: a scrambled submission of the same
    // tiles is still the same run
    let meld = Meld {
        meld_type: MeldType::Run,
        tiles: vec![
            number_tile(TileColor::Red, 7),
            number_tile(TileColor::Red, 5),
            joker_tile(),
        ],
    };
    assert!(meld.validate().is_ok());
}
