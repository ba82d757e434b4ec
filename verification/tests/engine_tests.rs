use rummikub::errors::RummikubError;
use rummikub::game::{GameState, GameStatus};
use rummikub::meld::{Meld, MeldType};
use rummikub::play::{JokerRetrieval, TilePlay};
use rummikub::player::{Player, PlayerId};
use rummikub::tiles::{Tile, TileColor, TileType};

fn pid(n: u64) -> PlayerId {
    PlayerId { w0: n, w1: 0, w2: 0, w3: 0 }
}

fn nt(color: TileColor, number: u8) -> Tile {
    Tile { tile_type: TileType::Number { color, number } }
}

fn jk() -> Tile {
    Tile { tile_type: TileType::Joker }
}

/// All 106 tiles in generation order: two full rounds of the four
/// colors' numbers 1-13, then the two jokers.
fn all_tiles() -> Vec<Tile> {
    let mut v = Vec::new();
    for _ in 0..2 {
        for color in [TileColor::Red, TileColor::Blue, TileColor::Black, TileColor::Orange] {
            for number in 1..=13u8 {
                v.push(nt(color, number));
            }
        }
    }
    v.push(jk());
    v.push(jk());
    v
}

fn remove_first(pool: &mut Vec<Tile>, t: &Tile) {
    let pos = pool.iter().position(|x| x == t).expect("tile not in pool");
    pool.remove(pos);
}

fn make_player(id: PlayerId, hand: Vec<Tile>, opened: bool) -> Player {
    let count = hand.len() as u8;
    Player { pubkey: id, tiles: hand, tile_count: count, has_opened: opened, score: 0 }
}

/// A consistent match state: the pool holds whatever of the 106 tiles
/// is in no hand and on no meld.
fn make_state(players: Vec<Player>, table: Vec<Meld>, status: GameStatus, turn: u8) -> GameState {
    let mut pool = all_tiles();
    for p in &players {
        for t in &p.tiles {
            remove_first(&mut pool, t);
        }
    }
    for m in &table {
        for t in &m.tiles {
            remove_first(&mut pool, t);
        }
    }
    let n = players.len() as u8;
    let remaining = pool.len() as u16;
    GameState {
        game_id: 1,
        authority: pid(99),
        max_players: n,
        current_players: n,
        current_turn: turn,
        game_status: status,
        winner: None,
        prize_pool: 0,
        players,
        table_melds: table,
        tile_pool: pool,
        tiles_remaining: remaining,
    }
}

fn conserved(g: &GameState) -> bool {
    let hands: usize = g.players.iter().map(|p| p.tiles.len()).sum();
    let table: usize = g.table_melds.iter().map(|m| m.tiles.len()).sum();
    g.tile_pool.len() + hands + table == 106
}

fn tile_counts(tiles: &[Tile]) -> Vec<(Tile, usize)> {
    let mut counts: Vec<(Tile, usize)> = Vec::new();
    for t in tiles {
        match counts.iter_mut().find(|(k, _)| k == t) {
            Some((_, c)) => *c += 1,
            None => counts.push((*t, 1)),
        }
    }
    counts
}

fn same_multiset(a: &[Tile], b: &[Tile]) -> bool {
    let ca = tile_counts(a);
    let cb = tile_counts(b);
    ca.len() == cb.len()
        && ca.iter().all(|(t, c)| cb.iter().any(|(u, d)| u == t && d == c))
}

/// A filler hand of distinct low-value orange/black tiles.
fn fillers(n: usize) -> Vec<Tile> {
    let mut v = Vec::new();
    for k in 0..n {
        let color = if k % 2 == 0 { TileColor::Orange } else { TileColor::Black };
        v.push(nt(color, (k / 2 + 1) as u8));
    }
    v
}

// ---------------------------------------------------------------------
// Initialization and shuffling.
// ---------------------------------------------------------------------

#[test]
fn initialize_game_builds_full_pool() {
    let g = GameState::initialize_game(7, pid(1), 2, 12345).unwrap();
    assert_eq!(g.tile_pool.len(), 106);
    assert_eq!(g.tiles_remaining, 106);
    assert_eq!(g.game_status, GameStatus::WaitingForPlayers);
    assert_eq!(g.current_players, 0);
    assert_eq!(g.prize_pool, 0);
    assert!(same_multiset(&g.tile_pool, &all_tiles()));
}

#[test]
fn initialize_game_rejects_bad_player_count() {
    assert_eq!(
        GameState::initialize_game(7, pid(1), 1, 0).err(),
        Some(RummikubError::InvalidPlayerCount)
    );
    assert_eq!(
        GameState::initialize_game(7, pid(1), 5, 0).err(),
        Some(RummikubError::InvalidPlayerCount)
    );
}

#[test]
fn bootstrap_shuffle_is_deterministic() {
    let a = GameState::initialize_game(7, pid(1), 2, 42).unwrap();
    let b = GameState::initialize_game(8, pid(2), 3, 42).unwrap();
    assert_eq!(a.tile_pool, b.tile_pool);
}

#[test]
fn vrf_shuffle_is_a_permutation() {
    let mut g = GameState::initialize_game(7, pid(1), 2, 42).unwrap();
    let before = g.tile_pool.clone();
    let mut seed = [0u8; 32];
    for (k, byte) in seed.iter_mut().enumerate() {
        *byte = (k as u8).wrapping_mul(37).wrapping_add(11);
    }
    g.callback_shuffle(seed).unwrap();
    assert_eq!(g.tile_pool.len(), 106);
    assert!(same_multiset(&g.tile_pool, &before));
}

#[test]
fn vrf_callback_rejected_after_finish() {
    let a = make_player(pid(1), fillers(3), true);
    let b = make_player(pid(2), fillers(2), true);
    let mut g = make_state(vec![a, b], vec![], GameStatus::Finished, 0);
    assert_eq!(g.callback_shuffle([0u8; 32]), Err(RummikubError::InvalidGameState));
}

// ---------------------------------------------------------------------
// Joining.
// ---------------------------------------------------------------------

#[test]
fn join_deals_and_starts() {
    let mut g = GameState::initialize_game(7, pid(9), 2, 1).unwrap();
    let pool_before: Vec<Tile> = g.tile_pool.clone();
    assert_eq!(g.join_game(pid(1)), Ok(()));
    assert_eq!(g.current_players, 1);
    assert_eq!(g.game_status, GameStatus::WaitingForPlayers);
    assert_eq!(g.players[0].tile_count, 14);
    assert_eq!(g.tiles_remaining, 92);
    assert_eq!(g.prize_pool, 100_000_000);
    // dealt from the top of the pool, one by one
    for k in 0..14 {
        assert_eq!(g.players[0].tiles[k], pool_before[105 - k]);
    }
    assert_eq!(g.join_game(pid(2)), Ok(()));
    assert_eq!(g.game_status, GameStatus::InProgress);
    assert_eq!(g.prize_pool, 200_000_000);
    assert!(conserved(&g));
    assert_eq!(g.join_game(pid(3)), Err(RummikubError::GameAlreadyStarted));
}

#[test]
fn join_rejected_when_full_but_waiting() {
    let a = make_player(pid(1), fillers(14), false);
    let b = make_player(pid(2), fillers(14), false);
    let mut g = make_state(vec![a, b], vec![], GameStatus::WaitingForPlayers, 0);
    assert_eq!(g.join_game(pid(3)), Err(RummikubError::GameFull));
}

// ---------------------------------------------------------------------
// Drawing.
// ---------------------------------------------------------------------

#[test]
fn draw_tile_moves_one_tile_and_advances() {
    let a = make_player(pid(1), fillers(14), false);
    let b = make_player(pid(2), fillers(14), false);
    let mut g = make_state(vec![a, b], vec![], GameStatus::InProgress, 0);
    assert_eq!(g.draw_tile(&pid(3)), Err(RummikubError::PlayerNotInGame));
    assert_eq!(g.draw_tile(&pid(2)), Err(RummikubError::NotPlayerTurn));
    let top = *g.tile_pool.last().unwrap();
    assert_eq!(g.draw_tile(&pid(1)), Ok(()));
    assert_eq!(g.players[0].tile_count, 15);
    assert_eq!(g.players[0].tiles[14], top);
    assert_eq!(g.current_turn, 1);
    assert_eq!(g.tiles_remaining, 77);
    assert!(conserved(&g));
}

#[test]
fn draw_rejected_outside_progress() {
    let a = make_player(pid(1), fillers(14), false);
    let b = make_player(pid(2), fillers(14), false);
    let mut g = make_state(vec![a, b], vec![], GameStatus::WaitingForPlayers, 0);
    assert_eq!(g.draw_tile(&pid(1)), Err(RummikubError::GameNotInProgress));
}

#[test]
fn draw_rejected_when_pool_empty() {
    // the whole set of 104 number tiles stands on the table as eight
    // full runs; each player holds one joker
    let mut table = Vec::new();
    for copy in 0..2 {
        let _ = copy;
        for color in [TileColor::Red, TileColor::Blue, TileColor::Black, TileColor::Orange] {
            let mut tiles = Vec::new();
            for number in 1..=13u8 {
                tiles.push(nt(color, number));
            }
            table.push(Meld { meld_type: MeldType::Run, tiles });
        }
    }
    let a = make_player(pid(1), vec![jk()], true);
    let b = make_player(pid(2), vec![jk()], true);
    let mut g = make_state(vec![a, b], table, GameStatus::InProgress, 0);
    assert_eq!(g.tile_pool.len(), 0);
    assert_eq!(g.draw_tile(&pid(1)), Err(RummikubError::NotEnoughTiles));
}

#[test]
fn draw_rejected_when_hand_full() {
    let mut big = Vec::new();
    for number in 1..=13u8 {
        big.push(nt(TileColor::Red, number));
    }
    for number in 1..=8u8 {
        big.push(nt(TileColor::Blue, number));
    }
    assert_eq!(big.len(), 21);
    let a = make_player(pid(1), big, false);
    let b = make_player(pid(2), fillers(14), false);
    let mut g = make_state(vec![a, b], vec![], GameStatus::InProgress, 0);
    assert_eq!(g.draw_tile(&pid(1)), Err(RummikubError::TooManyTiles));
}

// ---------------------------------------------------------------------
// The opening gate and whole-table replacement.
// ---------------------------------------------------------------------

fn plays(indices: &[u8]) -> Vec<TilePlay> {
    indices.iter().map(|&tile_index| TilePlay { tile_index }).collect()
}

#[test]
fn opening_gate_rejects_twenty_nine() {
    // two runs worth 15 and 14: a claimed value of exactly 29
    let mut hand = vec![
        nt(TileColor::Red, 4),
        nt(TileColor::Red, 5),
        nt(TileColor::Red, 6),
        nt(TileColor::Blue, 2),
        nt(TileColor::Blue, 3),
        nt(TileColor::Blue, 4),
        nt(TileColor::Blue, 5),
    ];
    hand.extend(fillers(7));
    let a = make_player(pid(1), hand, false);
    let b = make_player(pid(2), fillers(14), false);
    let mut g = make_state(vec![a, b], vec![], GameStatus::InProgress, 0);
    let new_table = vec![
        Meld {
            meld_type: MeldType::Run,
            tiles: vec![
                nt(TileColor::Red, 4),
                nt(TileColor::Red, 5),
                nt(TileColor::Red, 6),
            ],
        },
        Meld {
            meld_type: MeldType::Run,
            tiles: vec![
                nt(TileColor::Blue, 2),
                nt(TileColor::Blue, 3),
                nt(TileColor::Blue, 4),
                nt(TileColor::Blue, 5),
            ],
        },
    ];
    let r = g.play_tiles(&pid(1), plays(&[0, 1, 2, 3, 4, 5, 6]), new_table);
    assert_eq!(r, Err(RummikubError::InitialMeldTooLow));
    // nothing moved
    assert_eq!(g.players[0].tile_count, 14);
    assert!(g.table_melds.is_empty());
    assert_eq!(g.current_turn, 0);
    assert!(!g.players[0].has_opened);
}

#[test]
fn opening_play_scenario() {
    // player A holds Red 8-11; a run of 8,9,10 is worth 27 and is
    // rejected; adding the 11 makes 38 and is accepted
    let mut hand = vec![
        nt(TileColor::Red, 8),
        nt(TileColor::Red, 9),
        nt(TileColor::Red, 10),
        nt(TileColor::Red, 11),
    ];
    hand.extend(fillers(10));
    let a = make_player(pid(1), hand, false);
    let b = make_player(pid(2), fillers(14), false);
    let mut g = make_state(vec![a, b], vec![], GameStatus::InProgress, 0);

    let short_run = vec![Meld {
        meld_type: MeldType::Run,
        tiles: vec![
            nt(TileColor::Red, 8),
            nt(TileColor::Red, 9),
            nt(TileColor::Red, 10),
        ],
    }];
    assert_eq!(
        g.play_tiles(&pid(1), plays(&[0, 1, 2]), short_run),
        Err(RummikubError::InitialMeldTooLow)
    );
    assert_eq!(g.players[0].tile_count, 14);

    let full_run = vec![Meld {
        meld_type: MeldType::Run,
        tiles: vec![
            nt(TileColor::Red, 8),
            nt(TileColor::Red, 9),
            nt(TileColor::Red, 10),
            nt(TileColor::Red, 11),
        ],
    }];
    assert_eq!(g.play_tiles(&pid(1), plays(&[0, 1, 2, 3]), full_run), Ok(()));
    assert!(g.players[0].has_opened);
    assert_eq!(g.players[0].tile_count, 10);
    assert_eq!(g.table_melds.len(), 1);
    assert_eq!(g.table_melds[0].tiles.len(), 4);
    assert_eq!(g.current_turn, 1);
    assert!(conserved(&g));
}

#[test]
fn rearrangement_rejected_before_opening() {
    // the table already holds a run; an unopened player may only
    // append new melds, never touch it
    let table = vec![Meld {
        meld_type: MeldType::Run,
        tiles: vec![
            nt(TileColor::Blue, 5),
            nt(TileColor::Blue, 6),
            nt(TileColor::Blue, 7),
        ],
    }];
    let mut hand = vec![
        nt(TileColor::Red, 9),
        nt(TileColor::Red, 10),
        nt(TileColor::Red, 11),
    ];
    hand.extend(fillers(11));
    let a = make_player(pid(1), hand, false);
    let b = make_player(pid(2), fillers(14), true);
    let mut g = make_state(vec![a, b], table, GameStatus::InProgress, 0);

    // proposed table reorders the pre-existing run
    let reordered = vec![
        Meld {
            meld_type: MeldType::Run,
            tiles: vec![
                nt(TileColor::Red, 9),
                nt(TileColor::Red, 10),
                nt(TileColor::Red, 11),
            ],
        },
        Meld {
            meld_type: MeldType::Run,
            tiles: vec![
                nt(TileColor::Blue, 5),
                nt(TileColor::Blue, 6),
                nt(TileColor::Blue, 7),
            ],
        },
    ];
    assert_eq!(
        g.play_tiles(&pid(1), plays(&[0, 1, 2]), reordered),
        Err(RummikubError::CannotRearrangeBeforeOpening)
    );

    // appending after the untouched prefix is fine
    let appended = vec![
        Meld {
            meld_type: MeldType::Run,
            tiles: vec![
                nt(TileColor::Blue, 5),
                nt(TileColor::Blue, 6),
                nt(TileColor::Blue, 7),
            ],
        },
        Meld {
            meld_type: MeldType::Run,
            tiles: vec![
                nt(TileColor::Red, 9),
                nt(TileColor::Red, 10),
                nt(TileColor::Red, 11),
            ],
        },
    ];
    assert_eq!(g.play_tiles(&pid(1), plays(&[0, 1, 2]), appended), Ok(()));
    assert!(conserved(&g));
}

#[test]
fn table_count_must_be_conserved() {
    let table = vec![Meld {
        meld_type: MeldType::Run,
        tiles: vec![
            nt(TileColor::Blue, 5),
            nt(TileColor::Blue, 6),
            nt(TileColor::Blue, 7),
        ],
    }];
    let mut hand = vec![nt(TileColor::Red, 9), nt(TileColor::Red, 10), nt(TileColor::Red, 11)];
    hand.extend(fillers(11));
    let a = make_player(pid(1), hand, true);
    let b = make_player(pid(2), fillers(14), true);
    let mut g = make_state(vec![a, b], table, GameStatus::InProgress, 0);

    // three tiles claimed but the old run is dropped from the table
    let replacing = vec![Meld {
        meld_type: MeldType::Run,
        tiles: vec![
            nt(TileColor::Red, 9),
            nt(TileColor::Red, 10),
            nt(TileColor::Red, 11),
        ],
    }];
    assert_eq!(
        g.play_tiles(&pid(1), plays(&[0, 1, 2]), replacing),
        Err(RummikubError::TableTileCountMismatch)
    );
}

#[test]
fn claimed_indices_checked_and_distinct() {
    let a = make_player(pid(1), fillers(14), true);
    let b = make_player(pid(2), fillers(14), true);
    let mut g = make_state(vec![a, b], vec![], GameStatus::InProgress, 0);
    assert_eq!(
        g.play_tiles(&pid(1), plays(&[20]), vec![]),
        Err(RummikubError::InvalidTileIndex)
    );
    assert_eq!(
        g.play_tiles(&pid(1), plays(&[3, 3]), vec![]),
        Err(RummikubError::InvalidTileIndex)
    );
}

#[test]
fn invalid_meld_error_is_surfaced() {
    let mut hand = vec![nt(TileColor::Red, 9), nt(TileColor::Red, 10), nt(TileColor::Red, 12)];
    hand.extend(fillers(11));
    let a = make_player(pid(1), hand, false);
    let b = make_player(pid(2), fillers(14), false);
    let mut g = make_state(vec![a, b], vec![], GameStatus::InProgress, 0);
    let broken = vec![Meld {
        meld_type: MeldType::Run,
        tiles: vec![
            nt(TileColor::Red, 9),
            nt(TileColor::Red, 10),
            nt(TileColor::Red, 12),
        ],
    }];
    // 9 + 10 + 12 = 31 clears the opening threshold; the meld itself is illegal
    assert_eq!(
        g.play_tiles(&pid(1), plays(&[0, 1, 2]), broken),
        Err(RummikubError::InvalidJokerPlacement)
    );
}

// ---------------------------------------------------------------------
// Winning, scoring and settlement.
// ---------------------------------------------------------------------

#[test]
fn winning_play_ends_and_scores() {
    let a = make_player(
        pid(1),
        vec![nt(TileColor::Red, 9), nt(TileColor::Red, 10), nt(TileColor::Red, 11)],
        false,
    );
    // the loser strands a 5 and a joker: 35 points
    let b = make_player(pid(2), vec![nt(TileColor::Blue, 5), jk()], true);
    let mut g = make_state(vec![a, b], vec![], GameStatus::InProgress, 0);
    g.prize_pool = 200_000_000;
    let run = vec![Meld {
        meld_type: MeldType::Run,
        tiles: vec![
            nt(TileColor::Red, 9),
            nt(TileColor::Red, 10),
            nt(TileColor::Red, 11),
        ],
    }];
    assert_eq!(g.play_tiles(&pid(1), plays(&[0, 1, 2]), run), Ok(()));
    assert_eq!(g.game_status, GameStatus::Finished);
    assert_eq!(g.winner, Some(pid(1)));
    assert_eq!(g.players[0].tile_count, 0);
    assert_eq!(g.players[0].score, 35);
    assert_eq!(g.players[1].score, -35);
    assert!(conserved(&g));

    // settlement: 5% house fee, the rest to the winner, exactly once
    assert_eq!(g.claim_prize(&pid(2)), Err(RummikubError::NotTheWinner));
    assert_eq!(g.claim_prize(&pid(1)), Ok((190_000_000, 10_000_000)));
    assert_eq!(g.prize_pool, 0);
    assert_eq!(g.claim_prize(&pid(1)), Err(RummikubError::PrizeAlreadyClaimed));
}

#[test]
fn claim_rejected_before_finish() {
    let a = make_player(pid(1), fillers(14), false);
    let b = make_player(pid(2), fillers(14), false);
    let mut g = make_state(vec![a, b], vec![], GameStatus::InProgress, 0);
    assert_eq!(g.claim_prize(&pid(1)), Err(RummikubError::GameNotFinished));
}

// ---------------------------------------------------------------------
// Joker retrieval.
// ---------------------------------------------------------------------

fn retrieval_state() -> GameState {
    // the table holds the set [Red-7, Blue-7, Joker]; player A has
    // opened and holds Black-7 plus a run in waiting
    let table = vec![Meld {
        meld_type: MeldType::Group,
        tiles: vec![nt(TileColor::Red, 7), nt(TileColor::Blue, 7), jk()],
    }];
    let mut hand = vec![
        nt(TileColor::Black, 7),
        nt(TileColor::Red, 9),
        nt(TileColor::Red, 11),
    ];
    hand.extend(fillers(11));
    let a = make_player(pid(1), hand, true);
    let b = make_player(pid(2), fillers(14), true);
    let mut g = make_state(vec![a, b], table, GameStatus::InProgress, 0);
    g
}

fn retrieval(meld_index: u8, joker_position: u8, replacement_tile_index: u8) -> JokerRetrieval {
    JokerRetrieval { meld_index, joker_position, replacement_tile_index }
}

#[test]
fn joker_retrieval_scenario() {
    let mut g = retrieval_state();
    // swap Black-7 for the joker; after the swap the hand is
    // [R9, R11, fillers..., Joker]; play R9, R11 and the joker as a
    // gap-filling run
    let new_table = vec![
        Meld {
            meld_type: MeldType::Group,
            tiles: vec![
                nt(TileColor::Red, 7),
                nt(TileColor::Blue, 7),
                nt(TileColor::Black, 7),
            ],
        },
        Meld {
            meld_type: MeldType::Run,
            tiles: vec![nt(TileColor::Red, 9), jk(), nt(TileColor::Red, 11)],
        },
    ];
    let r = g.play_with_joker_retrieval(
        &pid(1),
        vec![retrieval(0, 2, 0)],
        plays(&[0, 1, 13]),
        new_table,
    );
    assert_eq!(r, Ok(()));
    assert_eq!(g.table_melds.len(), 2);
    assert_eq!(
        g.table_melds[0].tiles,
        vec![nt(TileColor::Red, 7), nt(TileColor::Blue, 7), nt(TileColor::Black, 7)]
    );
    assert_eq!(g.players[0].tile_count, 11);
    assert_eq!(g.current_turn, 1);
    assert!(conserved(&g));
}

#[test]
fn joker_retrieval_wrong_substitute() {
    let mut g = retrieval_state();
    // offer Black-8 instead of Black-7
    g.players[0].tiles[0] = nt(TileColor::Black, 8);
    // restore consistency: swap the displaced tiles in the pool too
    let pos = g
        .tile_pool
        .iter()
        .position(|t| *t == nt(TileColor::Black, 8))
        .unwrap();
    g.tile_pool[pos] = nt(TileColor::Black, 7);
    let new_table = vec![
        Meld {
            meld_type: MeldType::Group,
            tiles: vec![
                nt(TileColor::Red, 7),
                nt(TileColor::Blue, 7),
                nt(TileColor::Black, 8),
            ],
        },
        Meld {
            meld_type: MeldType::Run,
            tiles: vec![nt(TileColor::Red, 9), jk(), nt(TileColor::Red, 11)],
        },
    ];
    let r = g.play_with_joker_retrieval(
        &pid(1),
        vec![retrieval(0, 2, 0)],
        plays(&[0, 1, 13]),
        new_table,
    );
    assert_eq!(r, Err(RummikubError::InvalidJokerReplacement));
    // nothing moved
    assert_eq!(g.players[0].tile_count, 14);
    assert_eq!(g.table_melds.len(), 1);
    assert_eq!(g.table_melds[0].tiles[2], jk());
}

#[test]
fn joker_retrieval_gates() {
    // not yet opened
    let mut g = retrieval_state();
    g.players[0].has_opened = false;
    assert_eq!(
        g.play_with_joker_retrieval(&pid(1), vec![retrieval(0, 2, 0)], plays(&[0, 1]), vec![]),
        Err(RummikubError::CannotRetrieveJokerBeforeOpening)
    );

    // must contribute at least one genuine tile beyond the jokers
    let mut g = retrieval_state();
    assert_eq!(
        g.play_with_joker_retrieval(&pid(1), vec![retrieval(0, 2, 0)], plays(&[0]), vec![]),
        Err(RummikubError::MustPlayTileWithJoker)
    );

    // bad indices and a non-joker target
    let mut g = retrieval_state();
    assert_eq!(
        g.play_with_joker_retrieval(&pid(1), vec![retrieval(5, 2, 0)], plays(&[0, 1]), vec![]),
        Err(RummikubError::InvalidMeldIndex)
    );
    let mut g = retrieval_state();
    assert_eq!(
        g.play_with_joker_retrieval(&pid(1), vec![retrieval(0, 9, 0)], plays(&[0, 1]), vec![]),
        Err(RummikubError::InvalidTilePosition)
    );
    let mut g = retrieval_state();
    assert_eq!(
        g.play_with_joker_retrieval(&pid(1), vec![retrieval(0, 2, 50)], plays(&[0, 1]), vec![]),
        Err(RummikubError::InvalidTileIndex)
    );
    let mut g = retrieval_state();
    assert_eq!(
        g.play_with_joker_retrieval(&pid(1), vec![retrieval(0, 0, 0)], plays(&[0, 1]), vec![]),
        Err(RummikubError::NotAJoker)
    );
}

#[test]
fn retrieved_joker_must_be_replayed() {
    let mut g = retrieval_state();
    // the proposed table holds no joker at all
    let new_table = vec![
        Meld {
            meld_type: MeldType::Group,
            tiles: vec![
                nt(TileColor::Red, 7),
                nt(TileColor::Blue, 7),
                nt(TileColor::Black, 7),
            ],
        },
        Meld {
            meld_type: MeldType::Run,
            tiles: vec![
                nt(TileColor::Red, 9),
                nt(TileColor::Red, 10),
                nt(TileColor::Red, 11),
            ],
        },
    ];
    let r = g.play_with_joker_retrieval(
        &pid(1),
        vec![retrieval(0, 2, 0)],
        plays(&[0, 1, 13]),
        new_table,
    );
    assert_eq!(r, Err(RummikubError::MustPlayRetrievedJoker));
}

// ---------------------------------------------------------------------
// Turn rotation and small pieces.
// ---------------------------------------------------------------------

#[test]
fn turn_rotation_returns_to_start() {
    let players = vec![
        make_player(pid(1), vec![], false),
        make_player(pid(2), vec![], false),
        make_player(pid(3), vec![], false),
    ];
    let mut g = make_state(players, vec![], GameStatus::InProgress, 1);
    let start = g.current_turn;
    for _ in 0..3 {
        g.next_turn();
    }
    assert_eq!(g.current_turn, start);
}

#[test]
fn tile_values() {
    assert_eq!(nt(TileColor::Red, 11).get_value(), 11);
    assert_eq!(jk().get_value(), 30);
    assert_eq!(Tile::default().get_value(), 0);
}

#[test]
fn remove_tile_shifts_down() {
    let mut p = make_player(
        pid(1),
        vec![nt(TileColor::Red, 1), nt(TileColor::Red, 2), nt(TileColor::Red, 3)],
        false,
    );
    assert_eq!(p.remove_tile(5), Err(RummikubError::InvalidTileIndex));
    assert_eq!(p.remove_tile(1), Ok(()));
    assert_eq!(p.tile_count, 2);
    assert_eq!(p.tiles, vec![nt(TileColor::Red, 1), nt(TileColor::Red, 3)]);
}

#[test]
fn end_game_accumulates_loser_values() {
    let a = make_player(pid(1), vec![], true);
    let b = make_player(pid(2), vec![nt(TileColor::Blue, 13), nt(TileColor::Red, 2)], false);
    let c = make_player(pid(3), vec![jk()], false);
    let mut g = make_state(vec![a, b, c], vec![], GameStatus::InProgress, 0);
    assert_eq!(g.end_game(0), Ok(()));
    assert_eq!(g.game_status, GameStatus::Finished);
    assert_eq!(g.winner, Some(pid(1)));
    assert_eq!(g.players[1].score, -15);
    assert_eq!(g.players[2].score, -30);
    assert_eq!(g.players[0].score, 45);
}
