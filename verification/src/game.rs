//! The match state and its basic transitions: lookup of the acting
//! player, turn rotation, scoring and settlement.
//!
//! Every transition requires and re-establishes [`GameState::wf`],
//! whose conjuncts include the conservation invariant: pool tiles
//! plus hand tiles plus table tiles always total 106.

use vstd::prelude::*;
use crate::constants::{
    ENTRY_FEE_LAMPORTS, HAND_CAPACITY, HOUSE_FEE_BPS, MAX_PLAYERS, MIN_PLAYERS, TILES_PER_PLAYER,
    TOTAL_TILES,
};
use crate::errors::RummikubError;
use crate::meld::{meld_ok, Meld};
use crate::player::{Player, PlayerId};
use crate::tiles::Tile;

verus! {

/// Lifecycle of a match.
#[derive(Clone, Copy, PartialEq, Eq, Structural, Debug)]
pub enum GameStatus {
    WaitingForPlayers,
    InProgress,
    Finished,
}

/// The aggregate state of one match.
#[derive(Debug)]
pub struct GameState {
    pub game_id: u64,
    pub authority: PlayerId,
    pub max_players: u8,
    pub current_players: u8,
    pub current_turn: u8,
    pub game_status: GameStatus,
    pub winner: Option<PlayerId>,
    pub prize_pool: u64,
    pub players: Vec<Player>,
    pub table_melds: Vec<Meld>,
    pub tile_pool: Vec<Tile>,
    pub tiles_remaining: u16,
}

// ---------------------------------------------------------------------
// Summations for the conservation invariant.
// ---------------------------------------------------------------------

/// Total number of tiles held across all hands.
pub open spec fn hands_total(players: Seq<Player>) -> int
    decreases players.len(),
{
    if players.len() == 0 {
        0
    } else {
        hands_total(players.drop_last()) + players.last().tiles@.len()
    }
}

/// Total number of tiles laid down on the table.
pub open spec fn table_total(melds: Seq<Meld>) -> int
    decreases melds.len(),
{
    if melds.len() == 0 {
        0
    } else {
        table_total(melds.drop_last()) + melds.last().tiles@.len()
    }
}

/// Replacing one player changes the hand total by the hand delta.
pub proof fn lemma_hands_total_update(players: Seq<Player>, i: int, p: Player)
    requires
        0 <= i < players.len(),
    ensures
        hands_total(players.update(i, p)) == hands_total(players) - players[i].tiles@.len()
            + p.tiles@.len(),
    decreases players.len(),
{
    let n = players.len() - 1;
    if i == n {
        assert(players.update(i, p).drop_last() =~= players.drop_last());
        assert(players.update(i, p).last() == p);
    } else {
        assert(players.update(i, p).drop_last() =~= players.drop_last().update(i, p));
        assert(players.update(i, p).last() == players.last());
        lemma_hands_total_update(players.drop_last(), i, p);
    }
}

/// Appending one player adds that player's hand size.
pub proof fn lemma_hands_total_push(players: Seq<Player>, p: Player)
    ensures
        hands_total(players.push(p)) == hands_total(players) + p.tiles@.len(),
{
    assert(players.push(p).drop_last() =~= players);
    assert(players.push(p).last() == p);
}

/// Well-formed hands hold at most the hand capacity each.
pub proof fn lemma_hands_total_bound(players: Seq<Player>)
    requires
        forall|i: int| 0 <= i < players.len() ==> (#[trigger] players[i]).wf(),
    ensures
        0 <= hands_total(players) <= crate::constants::HAND_CAPACITY as int * players.len(),
    decreases players.len(),
{
    if players.len() > 0 {
        assert(forall|i: int| 0 <= i < players.len() - 1 ==> players.drop_last()[i] == players[i]);
        lemma_hands_total_bound(players.drop_last());
        assert(players.last().wf());
    }
}

/// Extending a meld prefix by one meld adds that meld's tile count.
pub proof fn lemma_table_total_step(melds: Seq<Meld>, k: int)
    requires
        0 <= k < melds.len(),
    ensures
        table_total(melds.take(k + 1)) == table_total(melds.take(k)) + melds[k].tiles@.len(),
{
    assert(melds.take(k + 1).drop_last() =~= melds.take(k));
    assert(melds.take(k + 1).last() == melds[k]);
}

/// Replacing one meld by one with the same tile count keeps the total.
pub proof fn lemma_table_total_update(melds: Seq<Meld>, i: int, m: Meld)
    requires
        0 <= i < melds.len(),
    ensures
        table_total(melds.update(i, m)) == table_total(melds) - melds[i].tiles@.len()
            + m.tiles@.len(),
    decreases melds.len(),
{
    let n = melds.len() - 1;
    if i == n {
        assert(melds.update(i, m).drop_last() =~= melds.drop_last());
        assert(melds.update(i, m).last() == m);
    } else {
        assert(melds.update(i, m).drop_last() =~= melds.drop_last().update(i, m));
        assert(melds.update(i, m).last() == melds.last());
        lemma_table_total_update(melds.drop_last(), i, m);
    }
}

/// Summed hand value of the first `k` players, the one at `w`
/// excepted: the value stranded in the losers' hands.
pub open spec fn others_value_to(players: Seq<Player>, w: int, k: int) -> int
    decreases k,
{
    if k <= 0 {
        0
    } else {
        others_value_to(players, w, k - 1) + if k - 1 != w {
            crate::player::tiles_value(players[k - 1].tiles@)
        } else {
            0
        }
    }
}

/// Summed hand value of every player but the one at `w`.
pub open spec fn others_hand_value(players: Seq<Player>, w: int) -> int {
    others_value_to(players, w, players.len() as int)
}

/// `others_value_to` only reads the hands of the first `k` players
/// other than the one at `w`.
pub proof fn lemma_others_value_to_same(a: Seq<Player>, b: Seq<Player>, w: int, k: int)
    requires
        forall|j: int| 0 <= j < k && j != w ==> (#[trigger] a[j]).tiles@ == b[j].tiles@,
        k <= a.len(),
        k <= b.len(),
    ensures
        others_value_to(a, w, k) == others_value_to(b, w, k),
    decreases k,
{
    if k > 0 {
        lemma_others_value_to_same(a, b, w, k - 1);
    }
}

/// The fraction of the prize pool taken as the house fee.
pub open spec fn spec_house_fee(pool: u64) -> int {
    pool as int * HOUSE_FEE_BPS as int / 10000
}

/// Law: conservation of tiles.  In every well-formed state — and every
/// transition of this engine requires and re-establishes
/// [`GameState::wf`] — the pool, the hands and the table together hold
/// exactly the 106 tiles of the match.
pub proof fn lemma_wf_conservation(g: GameState)
    requires
        g.wf(),
    ensures
        g.tile_pool@.len() + hands_total(g.players@) + table_total(g.table_melds@)
            == TOTAL_TILES as int,
{
}

// ---------------------------------------------------------------------
// Player lookup.
// ---------------------------------------------------------------------

/// Index of the first player carrying `pid`; -1 when absent.
pub open spec fn first_index_of(players: Seq<Player>, pid: PlayerId) -> int
    decreases players.len(),
{
    if players.len() == 0 {
        -1
    } else if players[0].pubkey == pid {
        0
    } else {
        let r = first_index_of(players.drop_first(), pid);
        if r < 0 {
            -1
        } else {
            r + 1
        }
    }
}

/// `first_index_of` finds the least matching index, or -1 when no
/// player matches.
pub proof fn lemma_first_index_of(players: Seq<Player>, pid: PlayerId)
    ensures
        first_index_of(players, pid) == -1 <==> forall|j: int|
            0 <= j < players.len() ==> (#[trigger] players[j]).pubkey != pid,
        first_index_of(players, pid) != -1 ==> {
            let r = first_index_of(players, pid);
            &&& 0 <= r < players.len()
            &&& players[r].pubkey == pid
            &&& forall|j: int| 0 <= j < r ==> (#[trigger] players[j]).pubkey != pid
        },
    decreases players.len(),
{
    if players.len() > 0 {
        lemma_first_index_of(players.drop_first(), pid);
        assert(forall|j: int|
            0 <= j < players.len() - 1 ==> players.drop_first()[j] == players[j + 1]);
        if players[0].pubkey != pid {
            let r = first_index_of(players.drop_first(), pid);
            if r == -1 {
                assert(forall|j: int|
                    1 <= j < players.len() ==> (#[trigger] players[j]).pubkey != pid) by {
                    assert(forall|j: int|
                        0 <= j < players.len() - 1
                            ==> (#[trigger] players.drop_first()[j]).pubkey != pid);
                    assert(forall|j: int|
                        1 <= j < players.len() ==> players[j] == players.drop_first()[j - 1]);
                }
            } else {
                assert(players.drop_first()[r].pubkey == pid);
                assert(players[r + 1].pubkey == pid);
                assert(forall|j: int|
                    1 <= j < r + 1 ==> (#[trigger] players[j]).pubkey != pid) by {
                    assert(forall|j: int|
                        0 <= j < r ==> (#[trigger] players.drop_first()[j]).pubkey != pid);
                    assert(forall|j: int|
                        1 <= j < r + 1 ==> players[j] == players.drop_first()[j - 1]);
                }
            }
        }
    }
}

// ---------------------------------------------------------------------
// The turn-rotation model.
// ---------------------------------------------------------------------

/// The next turn index: advance by one, wrapping at the player count.
pub open spec fn spec_next_turn(turn: int, players: int) -> int {
    (turn + 1) % players
}

/// `spec_next_turn` applied `k` times.
pub open spec fn iter_next_turn(turn: int, players: int, k: nat) -> int
    decreases k,
{
    if k == 0 {
        turn
    } else {
        spec_next_turn(iter_next_turn(turn, players, (k - 1) as nat), players)
    }
}

/// Rotation stays congruent to adding the step count.
proof fn lemma_iter_next_turn(turn: int, players: int, k: nat)
    requires
        0 < players,
        0 <= turn < players,
    ensures
        iter_next_turn(turn, players, k) == (turn + k) % players,
    decreases k,
{
    if k == 0 {
        assert(turn % players == turn) by (nonlinear_arith)
            requires
                0 < players,
                0 <= turn < players,
        ;
    } else {
        lemma_iter_next_turn(turn, players, (k - 1) as nat);
        assert(((turn + (k - 1)) % players + 1) % players == (turn + k) % players)
            by (nonlinear_arith)
            requires
                0 < players,
                k >= 1,
        ;
    }
}

/// Law: advancing the turn once per player returns to the original
/// player.
pub proof fn lemma_turn_rotation(turn: int, players: int)
    requires
        0 < players,
        0 <= turn < players,
    ensures
        iter_next_turn(turn, players, players as nat) == turn,
{
    lemma_iter_next_turn(turn, players, players as nat);
    assert((turn + players) % players == turn) by (nonlinear_arith)
        requires
            0 < players,
            0 <= turn < players,
    ;
}

// ---------------------------------------------------------------------
// Well-formedness.
// ---------------------------------------------------------------------

impl GameState {
    /// Every tile of the undealt pool and of every hand is a real
    /// 1-13 tile or a joker.
    pub open spec fn tiles_wf(self) -> bool {
        &&& forall|i: int|
            0 <= i < self.players@.len() ==> (#[trigger] self.players@[i]).wf()
        &&& forall|j: int|
            0 <= j < self.tile_pool@.len() ==> (#[trigger] self.tile_pool@[j]).wf()
    }

    /// Conservation of tiles: the pool, the hands and the table
    /// together always hold all 106 tiles.
    pub open spec fn conservation(self) -> bool {
        self.tile_pool@.len() + hands_total(self.players@) + table_total(self.table_melds@)
            == TOTAL_TILES as int
    }

    /// Well-formedness of a match state; established at creation and
    /// preserved by every transition.
    pub open spec fn wf(self) -> bool {
        &&& MIN_PLAYERS as int <= self.max_players as int <= MAX_PLAYERS as int
        &&& self.players@.len() == self.current_players as int
        &&& self.current_players <= self.max_players
        &&& (self.game_status is InProgress ==> self.current_players == self.max_players
            && (self.current_turn as int) < self.current_players as int)
        &&& (self.game_status is WaitingForPlayers ==> self.table_melds@.len() == 0
            && self.current_turn == 0)
        &&& self.tiles_remaining as int == self.tile_pool@.len()
        &&& self.tiles_wf()
        &&& forall|i: int|
            0 <= i < self.table_melds@.len() ==> meld_ok(
                (#[trigger] self.table_melds@[i]).meld_type,
                self.table_melds@[i].tiles@,
            )
        &&& self.prize_pool as int <= self.current_players as int * ENTRY_FEE_LAMPORTS as int
        &&& self.conservation()
    }

    /// First index of the player carrying `pid`, -1 when absent.
    pub open spec fn spec_player_index(self, pid: PlayerId) -> int {
        first_index_of(self.players@, pid)
    }

    /// Some player of the match carries `pid`.
    pub open spec fn spec_has_player(self, pid: PlayerId) -> bool {
        exists|i: int|
            0 <= i < self.players@.len() && (#[trigger] self.players@[i]).pubkey == pid
    }

    /// Resolve the acting identity to its player index.
    pub fn get_player_index(&self, player: &PlayerId) -> (r: Result<usize, RummikubError>)
        ensures
            r is Ok <==> self.spec_has_player(*player),
            r is Ok ==> 0 <= self.spec_player_index(*player) < self.players@.len()
                && self.players@.len() <= usize::MAX as int && r == Ok::<usize, RummikubError>(
                self.spec_player_index(*player) as usize,
            ),
            r is Err ==> r == Err::<usize, RummikubError>(RummikubError::PlayerNotInGame),
    {
        proof {
            lemma_first_index_of(self.players@, *player);
        }
        let n = self.players.len();
        let mut i: usize = 0;
        while i < n
            invariant
                n == self.players@.len(),
                i <= n,
                forall|j: int| 0 <= j < i ==> (#[trigger] self.players@[j]).pubkey != *player,
            decreases n - i,
        {
            let p = &self.players[i];
            if p.pubkey.w0 == player.w0 && p.pubkey.w1 == player.w1 && p.pubkey.w2 == player.w2
                && p.pubkey.w3 == player.w3 {
                proof {
                    assert(self.players@[i as int].pubkey == *player);
                    lemma_first_index_of(self.players@, *player);
                    let r = first_index_of(self.players@, *player);
                    assert(r != -1);
                    assert(r == i as int) by {
                        if r < i as int {
                            assert(self.players@[r].pubkey != *player);
                        }
                    }
                }
                return Ok(i);
            }
            i += 1;
        }
        proof {
            lemma_first_index_of(self.players@, *player);
        }
        Err(RummikubError::PlayerNotInGame)
    }

    /// Check that the acting identity is a player and that it is
    /// exactly their turn.
    pub fn verify_turn(&self, player: &PlayerId) -> (r: Result<(), RummikubError>)
        ensures
            r == Err::<(), RummikubError>(RummikubError::PlayerNotInGame) <==> !self
                .spec_has_player(*player),
            r == Err::<(), RummikubError>(RummikubError::NotPlayerTurn) <==> self.spec_has_player(
                *player,
            ) && self.spec_player_index(*player) != self.current_turn as int,
            r is Ok <==> self.spec_has_player(*player) && self.spec_player_index(*player)
                == self.current_turn as int,
    {
        proof {
            lemma_first_index_of(self.players@, *player);
        }
        let player_index = match self.get_player_index(player) {
            Ok(i) => i,
            Err(e) => {
                return Err(e);
            },
        };
        if player_index != self.current_turn as usize {
            return Err(RummikubError::NotPlayerTurn);
        }
        Ok(())
    }

    /// Advance the turn to the next player, wrapping around.
    pub fn next_turn(&mut self)
        requires
            old(self).current_players > 0,
            old(self).current_turn < old(self).current_players,
        ensures
            final(self).current_turn as int == spec_next_turn(
                old(self).current_turn as int,
                old(self).current_players as int,
            ),
            *final(self) == (GameState { current_turn: final(self).current_turn, ..*old(self) }),
    {
        self.current_turn = (self.current_turn + 1) % self.current_players;
    }

    /// Deal the initial hand: move 14 tiles from the top of the pool
    /// into the (empty) hand of the player at `player_index`.
    pub fn draw_initial_tiles(&mut self, player_index: usize) -> (r: Result<(), RummikubError>)
        requires
            old(self).wf(),
            player_index < old(self).players@.len(),
            old(self).players@[player_index as int].tiles@.len() == 0,
        ensures
            final(self).wf(),
            r is Err ==> *final(self) == *old(self) && r == Err::<(), RummikubError>(
                RummikubError::NotEnoughTiles,
            ),
            r is Ok <==> old(self).tiles_remaining >= TILES_PER_PLAYER as u16,
            r is Ok ==> {
                let n = old(self).tile_pool@.len();
                let i = player_index as int;
                &&& final(self).tile_pool@ == old(self).tile_pool@.take(
                    n - TILES_PER_PLAYER as int,
                )
                &&& final(self).players@ == old(self).players@.update(
                    i,
                    final(self).players@[i],
                )
                &&& final(self).players@[i].tiles@ == old(self).tile_pool@.subrange(
                    n - TILES_PER_PLAYER as int,
                    n as int,
                ).reverse()
                &&& final(self).players@[i].pubkey == old(self).players@[i].pubkey
                &&& final(self).players@[i].has_opened == old(self).players@[i].has_opened
                &&& final(self).players@[i].score == old(self).players@[i].score
                &&& final(self).tiles_remaining == old(self).tiles_remaining
                    - TILES_PER_PLAYER as u16
                &&& *final(self) == (GameState {
                    players: final(self).players,
                    tile_pool: final(self).tile_pool,
                    tiles_remaining: final(self).tiles_remaining,
                    ..*old(self)
                })
            },
    {
        if self.tiles_remaining < TILES_PER_PLAYER as u16 {
            return Err(RummikubError::NotEnoughTiles);
        }
        let ghost n0 = self.tile_pool@.len() as int;
        let mut t: usize = 0;
        while t < TILES_PER_PLAYER
            invariant
                old(self).wf(),
                player_index < old(self).players@.len(),
                old(self).players@[player_index as int].tiles@.len() == 0,
                n0 == old(self).tile_pool@.len(),
                n0 >= TILES_PER_PLAYER as int,
                t <= TILES_PER_PLAYER,
                self.tile_pool@ == old(self).tile_pool@.take(n0 - t),
                self.players@.len() == old(self).players@.len(),
                self.players@ == old(self).players@.update(
                    player_index as int,
                    self.players@[player_index as int],
                ),
                self.players@[player_index as int].tiles@ == old(self).tile_pool@.subrange(
                    n0 - t,
                    n0,
                ).reverse(),
                self.players@[player_index as int].tile_count == t as u8,
                self.players@[player_index as int].pubkey == old(self).players@[player_index
                    as int].pubkey,
                self.players@[player_index as int].has_opened == old(self).players@[player_index
                    as int].has_opened,
                self.players@[player_index as int].score == old(self).players@[player_index
                    as int].score,
                self.players@[player_index as int].wf(),
                self.tiles_remaining as int == n0 - t,
                *self == (GameState {
                    players: self.players,
                    tile_pool: self.tile_pool,
                    tiles_remaining: self.tiles_remaining,
                    ..*old(self)
                }),
            decreases TILES_PER_PLAYER - t,
        {
            let tile = match self.tile_pool.pop() {
                Some(tile) => tile,
                None => {
                    proof {
                        assert(false);
                    }
                    return Err(RummikubError::NotEnoughTiles);
                },
            };
            proof {
                assert(old(self).wf());
                assert(old(self).tile_pool@[n0 - t - 1].wf());
                assert(tile == old(self).tile_pool@[n0 - t - 1]);
                assert(self.tile_pool@ =~= old(self).tile_pool@.take(n0 - (t + 1)));
            }
            let p = &mut self.players[player_index];
            p.add_tile(tile);
            self.tiles_remaining = self.tiles_remaining - 1;
            t += 1;
            proof {
                assert(self.players@[player_index as int].tiles@ =~= old(
                    self,
                ).tile_pool@.subrange(n0 - t, n0).reverse());
                assert(self.players@ =~= old(self).players@.update(
                    player_index as int,
                    self.players@[player_index as int],
                ));
            }
        }
        proof {
            lemma_hands_total_update(
                old(self).players@,
                player_index as int,
                self.players@[player_index as int],
            );
        }
        Ok(())
    }

    /// Draw: move the pool's top tile into the hand of the player at
    /// `player_index`.
    pub fn draw_tile_for_player(&mut self, player_index: usize) -> (r: Result<
        (),
        RummikubError,
    >)
        requires
            old(self).wf(),
            player_index < old(self).players@.len(),
        ensures
            final(self).wf(),
            r is Err ==> *final(self) == *old(self),
            r == Err::<(), RummikubError>(RummikubError::NotEnoughTiles) <==> old(
                self,
            ).tiles_remaining == 0,
            r == Err::<(), RummikubError>(RummikubError::TooManyTiles) <==> old(
                self,
            ).tiles_remaining > 0 && old(self).players@[player_index as int].tiles@.len()
                >= HAND_CAPACITY as int,
            r is Ok <==> old(self).tiles_remaining > 0 && old(self).players@[player_index
                as int].tiles@.len() < HAND_CAPACITY as int,
            r is Ok ==> {
                let i = player_index as int;
                &&& final(self).tile_pool@ == old(self).tile_pool@.drop_last()
                &&& final(self).players@ == old(self).players@.update(
                    i,
                    final(self).players@[i],
                )
                &&& final(self).players@[i].tiles@ == old(self).players@[i].tiles@.push(
                    old(self).tile_pool@.last(),
                )
                &&& final(self).players@[i].pubkey == old(self).players@[i].pubkey
                &&& final(self).players@[i].has_opened == old(self).players@[i].has_opened
                &&& final(self).players@[i].score == old(self).players@[i].score
                &&& final(self).tiles_remaining == old(self).tiles_remaining - 1
                &&& *final(self) == (GameState {
                    players: final(self).players,
                    tile_pool: final(self).tile_pool,
                    tiles_remaining: final(self).tiles_remaining,
                    ..*old(self)
                })
            },
    {
        if self.tiles_remaining == 0 {
            return Err(RummikubError::NotEnoughTiles);
        }
        if self.players[player_index].tiles.len() >= HAND_CAPACITY {
            return Err(RummikubError::TooManyTiles);
        }
        let tile = match self.tile_pool.pop() {
            Some(tile) => tile,
            None => {
                proof {
                    assert(false);
                }
                return Err(RummikubError::NotEnoughTiles);
            },
        };
        proof {
            assert(old(self).tile_pool@[old(self).tile_pool@.len() - 1].wf());
        }
        let p = &mut self.players[player_index];
        p.add_tile(tile);
        self.tiles_remaining = self.tiles_remaining - 1;
        proof {
            lemma_hands_total_update(
                old(self).players@,
                player_index as int,
                self.players@[player_index as int],
            );
        }
        Ok(())
    }

    /// The draw action: on the caller's turn in a running match, move
    /// one tile pool-to-hand and advance the turn.
    pub fn draw_tile(&mut self, player: &PlayerId) -> (r: Result<(), RummikubError>)
        requires
            old(self).wf(),
        ensures
            final(self).wf(),
            r is Err ==> *final(self) == *old(self),
            r == Err::<(), RummikubError>(RummikubError::PlayerNotInGame) <==> !old(
                self,
            ).spec_has_player(*player),
            r == Err::<(), RummikubError>(RummikubError::NotPlayerTurn) <==> old(
                self,
            ).spec_has_player(*player) && old(self).spec_player_index(*player) != old(
                self,
            ).current_turn as int,
            r == Err::<(), RummikubError>(RummikubError::GameNotInProgress) <==> old(
                self,
            ).spec_has_player(*player) && old(self).spec_player_index(*player) == old(
                self,
            ).current_turn as int && !(old(self).game_status is InProgress),
            r == Err::<(), RummikubError>(RummikubError::NotEnoughTiles) <==> old(
                self,
            ).spec_has_player(*player) && old(self).spec_player_index(*player) == old(
                self,
            ).current_turn as int && old(self).game_status is InProgress && old(
                self,
            ).tiles_remaining == 0,
            r == Err::<(), RummikubError>(RummikubError::TooManyTiles) <==> old(
                self,
            ).spec_has_player(*player) && old(self).spec_player_index(*player) == old(
                self,
            ).current_turn as int && old(self).game_status is InProgress && old(
                self,
            ).tiles_remaining > 0 && old(self).players@[old(self).current_turn
                as int].tiles@.len() >= HAND_CAPACITY as int,
            r is Ok <==> old(self).spec_has_player(*player) && old(self).spec_player_index(
                *player,
            ) == old(self).current_turn as int && old(self).game_status is InProgress && old(
                self,
            ).tiles_remaining > 0 && old(self).players@[old(self).current_turn
                as int].tiles@.len() < HAND_CAPACITY as int,
            r is Ok ==> {
                let i = old(self).current_turn as int;
                &&& final(self).tile_pool@ == old(self).tile_pool@.drop_last()
                &&& final(self).players@ == old(self).players@.update(
                    i,
                    final(self).players@[i],
                )
                &&& final(self).players@[i].tiles@ == old(self).players@[i].tiles@.push(
                    old(self).tile_pool@.last(),
                )
                &&& final(self).players@[i].pubkey == old(self).players@[i].pubkey
                &&& final(self).players@[i].has_opened == old(self).players@[i].has_opened
                &&& final(self).players@[i].score == old(self).players@[i].score
                &&& final(self).tiles_remaining == old(self).tiles_remaining - 1
                &&& final(self).current_turn as int == spec_next_turn(
                    old(self).current_turn as int,
                    old(self).current_players as int,
                )
                &&& *final(self) == (GameState {
                    current_turn: final(self).current_turn,
                    players: final(self).players,
                    tile_pool: final(self).tile_pool,
                    tiles_remaining: final(self).tiles_remaining,
                    ..*old(self)
                })
            },
    {
        match self.verify_turn(player) {
            Ok(()) => {},
            Err(e) => {
                return Err(e);
            },
        }
        match self.game_status {
            GameStatus::InProgress => {},
            _ => {
                return Err(RummikubError::GameNotInProgress);
            },
        }
        let player_index = match self.get_player_index(player) {
            Ok(i) => i,
            Err(e) => {
                proof {
                    assert(false);
                }
                return Err(e);
            },
        };
        match self.draw_tile_for_player(player_index) {
            Ok(()) => {},
            Err(e) => {
                return Err(e);
            },
        }
        self.next_turn();
        Ok(())
    }

    /// Join: while the match waits for players and has room, add the
    /// identity as a new player, collect the entry stake into the
    /// prize pool, deal 14 tiles, and start the match once full.
    /// The caller is responsible for having actually collected the
    /// stake before invoking this transition.
    pub fn join_game(&mut self, player: PlayerId) -> (r: Result<(), RummikubError>)
        requires
            old(self).wf(),
        ensures
            final(self).wf(),
            r is Err ==> *final(self) == *old(self),
            r == Err::<(), RummikubError>(RummikubError::GameAlreadyStarted) <==> !(old(
                self,
            ).game_status is WaitingForPlayers),
            r == Err::<(), RummikubError>(RummikubError::GameFull) <==> old(
                self,
            ).game_status is WaitingForPlayers && old(self).current_players >= old(
                self,
            ).max_players,
            r is Ok <==> old(self).game_status is WaitingForPlayers && old(self).current_players
                < old(self).max_players,
            r is Ok ==> {
                let n = old(self).tile_pool@.len();
                let p = final(self).players@.last();
                &&& final(self).players@ == old(self).players@.push(p)
                &&& p.pubkey == player
                &&& p.has_opened == false
                &&& p.score == 0
                &&& p.tiles@ == old(self).tile_pool@.subrange(
                    n - TILES_PER_PLAYER as int,
                    n as int,
                ).reverse()
                &&& final(self).tile_pool@ == old(self).tile_pool@.take(
                    n - TILES_PER_PLAYER as int,
                )
                &&& final(self).tiles_remaining == old(self).tiles_remaining
                    - TILES_PER_PLAYER as u16
                &&& final(self).prize_pool == old(self).prize_pool + ENTRY_FEE_LAMPORTS
                &&& final(self).current_players == old(self).current_players + 1
                &&& final(self).game_status == (if old(self).current_players + 1 == old(
                    self,
                ).max_players {
                    GameStatus::InProgress
                } else {
                    GameStatus::WaitingForPlayers
                })
                &&& *final(self) == (GameState {
                    players: final(self).players,
                    tile_pool: final(self).tile_pool,
                    tiles_remaining: final(self).tiles_remaining,
                    prize_pool: final(self).prize_pool,
                    current_players: final(self).current_players,
                    game_status: final(self).game_status,
                    ..*old(self)
                })
            },
    {
        match self.game_status {
            GameStatus::WaitingForPlayers => {},
            _ => {
                return Err(RummikubError::GameAlreadyStarted);
            },
        }
        if self.current_players >= self.max_players {
            return Err(RummikubError::GameFull);
        }
        proof {
            lemma_hands_total_bound(self.players@);
        }
        if self.tiles_remaining < TILES_PER_PLAYER as u16 {
            // unreachable: a waiting match has an empty table and at
            // most three dealt hands, so at least 43 tiles remain
            proof {
                assert(false);
            }
            return Err(RummikubError::NotEnoughTiles);
        }
        self.prize_pool = self.prize_pool + ENTRY_FEE_LAMPORTS;
        let player_index = self.players.len();
        self.players.push(Player::new(player));
        self.current_players = self.current_players + 1;
        proof {
            lemma_hands_total_push(old(self).players@, self.players@.last());
        }
        match self.draw_initial_tiles(player_index) {
            Ok(()) => {},
            Err(e) => {
                proof {
                    assert(false);
                }
                return Err(e);
            },
        }
        proof {
            assert(self.players@ =~= old(self).players@.push(
                self.players@[player_index as int],
            ));
        }
        if self.current_players == self.max_players {
            self.game_status = GameStatus::InProgress;
        }
        Ok(())
    }

    /// End the match: record the winner, give every other active
    /// player the negated value of their stranded hand as score, and
    /// give the winner the sum of those values.
    pub fn end_game(&mut self, winner_index: usize) -> (r: Result<(), RummikubError>)
        requires
            old(self).wf(),
            winner_index < old(self).players@.len(),
        ensures
            final(self).wf(),
            r is Ok,
            final(self).game_status is Finished,
            final(self).winner == Some(old(self).players@[winner_index as int].pubkey),
            final(self).players@.len() == old(self).players@.len(),
            forall|i: int|
                0 <= i < old(self).players@.len() ==> (#[trigger] final(self).players@[i]).tiles@
                    == old(self).players@[i].tiles@ && final(self).players@[i].pubkey == old(
                    self,
                ).players@[i].pubkey && final(self).players@[i].has_opened == old(
                    self,
                ).players@[i].has_opened,
            forall|i: int|
                0 <= i < old(self).players@.len() && i != winner_index as int ==> (#[trigger]
                final(self).players@[i]).score as int == -crate::player::tiles_value(
                    old(self).players@[i].tiles@,
                ),
            final(self).players@[winner_index as int].score as int == others_hand_value(
                old(self).players@,
                winner_index as int,
            ),
            *final(self) == (GameState {
                players: final(self).players,
                game_status: final(self).game_status,
                winner: final(self).winner,
                ..*old(self)
            }),
    {
        self.game_status = GameStatus::Finished;
        self.winner = Some(self.players[winner_index].pubkey);
        let n = self.players.len();
        let w = winner_index;
        let mut total: i16 = 0;
        let mut i: usize = 0;
        while i < n
            invariant
                old(self).wf(),
                w < n,
                n == old(self).players@.len(),
                i <= n,
                n <= 4,
                self.players@.len() == n as int,
                forall|j: int|
                    i <= j < n ==> (#[trigger] self.players@[j]) == old(self).players@[j],
                self.players@[w as int] == old(self).players@[w as int],
                forall|j: int|
                    0 <= j < i && j != w ==> (#[trigger] self.players@[j]) == (Player {
                        score: self.players@[j].score,
                        ..old(self).players@[j]
                    }) && self.players@[j].score as int == -crate::player::tiles_value(
                        old(self).players@[j].tiles@,
                    ),
                total as int == others_value_to(old(self).players@, w as int, i as int),
                0 <= total as int <= 630 * i as int,
                hands_total(self.players@) == hands_total(old(self).players@),
                *self == (GameState {
                    players: self.players,
                    game_status: self.game_status,
                    winner: self.winner,
                    ..*old(self)
                }),
                self.game_status is Finished,
                self.winner == Some(old(self).players@[w as int].pubkey),
            decreases n - i,
        {
            if i != w {
                // sum this loser's stranded hand
                let count = self.players[i].tiles.len();
                let ghost hand = self.players@[i as int].tiles@;
                let mut ptv: i16 = 0;
                let mut j: usize = 0;
                while j < count
                    invariant
                        old(self).wf(),
                        i < n,
                        n == old(self).players@.len(),
                        self.players@.len() == n as int,
                        self.players@[i as int] == old(self).players@[i as int],
                        hand == self.players@[i as int].tiles@,
                        count == hand.len(),
                        count <= 21,
                        j <= count,
                        ptv as int == crate::player::tiles_value(hand.take(j as int)),
                        0 <= ptv as int <= 30 * j as int,
                    decreases count - j,
                {
                    proof {
                        assert(old(self).players@[i as int].wf());
                        assert(hand[j as int].wf());
                        crate::player::lemma_tiles_value_step(hand, j as int);
                    }
                    ptv = ptv + (self.players[i].tiles[j].get_value() as i16);
                    j += 1;
                }
                proof {
                    assert(hand.take(count as int) =~= hand);
                }
                let ghost prev = self.players@;
                let p = &mut self.players[i];
                p.score = -ptv;
                proof {
                    lemma_hands_total_update(prev, i as int, self.players@[i as int]);
                }
                total = total + ptv;
            }
            i += 1;
        }
        proof {
            assert(total as int == others_hand_value(old(self).players@, w as int));
        }
        let ghost prev = self.players@;
        let p = &mut self.players[w];
        p.score = total;
        proof {
            lemma_hands_total_update(prev, w as int, self.players@[w as int]);
        }
        Ok(())
    }

    /// Settle the prize: only the recorded winner of a finished match
    /// may claim, exactly once.  Returns the winner's amount and the
    /// house fee (a fixed basis-point fraction), and zeroes the
    /// internal pool counter before any funds move, so a second claim
    /// fails.
    pub fn claim_prize(&mut self, claimant: &PlayerId) -> (r: Result<(u64, u64), RummikubError>)
        requires
            old(self).wf(),
        ensures
            final(self).wf(),
            r is Err ==> *final(self) == *old(self),
            r == Err::<(u64, u64), RummikubError>(RummikubError::GameNotFinished) <==> !(old(
                self,
            ).game_status is Finished),
            r == Err::<(u64, u64), RummikubError>(RummikubError::NotTheWinner) <==> old(
                self,
            ).game_status is Finished && old(self).winner != Some(*claimant),
            r == Err::<(u64, u64), RummikubError>(RummikubError::PrizeAlreadyClaimed) <==> old(
                self,
            ).game_status is Finished && old(self).winner == Some(*claimant) && old(
                self,
            ).prize_pool == 0,
            r is Ok <==> old(self).game_status is Finished && old(self).winner == Some(*claimant)
                && old(self).prize_pool > 0,
            r is Ok ==> {
                let fee = spec_house_fee(old(self).prize_pool);
                &&& r == Ok::<(u64, u64), RummikubError>(
                    ((old(self).prize_pool - fee) as u64, fee as u64),
                )
                &&& final(self).prize_pool == 0
                &&& *final(self) == (GameState { prize_pool: 0, ..*old(self) })
            },
    {
        match self.game_status {
            GameStatus::Finished => {},
            _ => {
                return Err(RummikubError::GameNotFinished);
            },
        }
        let w = match self.winner {
            Some(w) => w,
            None => {
                return Err(RummikubError::NotTheWinner);
            },
        };
        if !(w.w0 == claimant.w0 && w.w1 == claimant.w1 && w.w2 == claimant.w2 && w.w3
            == claimant.w3) {
            return Err(RummikubError::NotTheWinner);
        }
        if self.prize_pool == 0 {
            return Err(RummikubError::PrizeAlreadyClaimed);
        }
        let pool = self.prize_pool;
        // zero the counter before any funds move, against re-entry
        self.prize_pool = 0;
        proof {
            assert((pool as int) * (HOUSE_FEE_BPS as int) <= u128::MAX as int)
                by (nonlinear_arith)
                requires
                    pool as int <= u64::MAX as int,
                    HOUSE_FEE_BPS == 500,
            ;
        }
        let fee_wide = (pool as u128) * (HOUSE_FEE_BPS as u128) / 10000;
        proof {
            assert(fee_wide <= pool as u128) by (nonlinear_arith)
                requires
                    fee_wide == (pool as u128) * (HOUSE_FEE_BPS as u128) / 10000,
                    HOUSE_FEE_BPS <= 10000,
            ;
        }
        let house_fee = fee_wide as u64;
        let winner_prize = pool - house_fee;
        Ok((winner_prize, house_fee))
    }
}

} // verus!
