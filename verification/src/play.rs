//! The play action: whole-table replacement, the opening gate, joker
//! retrieval, and win detection.
//!
//! A play either fully commits (the hand shrinks, the table is
//! replaced wholesale, the turn advances or the match ends) or fully
//! fails with a typed reason and no mutation.

use vstd::prelude::*;
use vstd::pervasive::VecAdditionalExecFns;
use crate::constants::{HAND_CAPACITY, MIN_INITIAL_MELD};
use crate::errors::RummikubError;
use crate::game::{
    lemma_hands_total_update, lemma_table_total_step, others_hand_value, table_total, GameState,
    GameStatus,
};
use crate::meld::{meld_ok, meld_result, Meld, MeldType};
use crate::player::tiles_value;
use crate::tiles::{Tile, TileType};

verus! {

/// A claimed hand-tile index.
#[derive(Clone, Copy, PartialEq, Eq, Structural, Debug)]
pub struct TilePlay {
    pub tile_index: u8,
}

// ---------------------------------------------------------------------
// Claimed indices: validity, value, and removal.
// ---------------------------------------------------------------------

/// Every claimed index addresses a live hand slot, and no slot is
/// claimed twice.
pub open spec fn plays_ok(plays: Seq<TilePlay>, hand_len: int) -> bool {
    &&& forall|t: int| 0 <= t < plays.len() ==> (#[trigger] plays[t]).tile_index < hand_len
    &&& forall|t: int, u: int|
        0 <= t < u < plays.len() ==> (#[trigger] plays[t]).tile_index != (#[trigger]
        plays[u]).tile_index
}

/// Summed point value of the claimed hand tiles.
pub open spec fn claimed_value(hand: Seq<Tile>, plays: Seq<TilePlay>) -> int
    decreases plays.len(),
{
    if plays.len() == 0 {
        0
    } else {
        claimed_value(hand, plays.drop_last()) + hand[plays.last().tile_index as int].spec_value()
            as int
    }
}

/// The set of claimed indices.
pub open spec fn claimed_set(plays: Seq<TilePlay>) -> Set<int> {
    Set::new(
        |i: int| exists|t: int| 0 <= t < plays.len() && (#[trigger] plays[t]).tile_index as int == i,
    )
}

/// The hand after removal: the subsequence of slots whose index is
/// not dropped, in their original order.
pub open spec fn keep_except(s: Seq<Tile>, drop: Set<int>) -> Seq<Tile>
    decreases s.len(),
{
    if s.len() == 0 {
        Seq::empty()
    } else {
        let rest = keep_except(s.drop_last(), drop);
        if drop.contains(s.len() - 1) {
            rest
        } else {
            rest.push(s.last())
        }
    }
}

/// How many of the indices 0..n the set holds.
pub open spec fn in_range_count(n: int, drop: Set<int>) -> int
    decreases n,
{
    if n <= 0 {
        0
    } else {
        in_range_count(n - 1, drop) + if drop.contains(n - 1) {
            1int
        } else {
            0int
        }
    }
}

/// Extending a prefix of the claims adds the claimed tile's value.
proof fn lemma_claimed_value_step(hand: Seq<Tile>, plays: Seq<TilePlay>, t: int)
    requires
        0 <= t < plays.len(),
    ensures
        claimed_value(hand, plays.take(t + 1)) == claimed_value(hand, plays.take(t))
            + hand[plays[t].tile_index as int].spec_value() as int,
{
    assert(plays.take(t + 1).drop_last() =~= plays.take(t));
    assert(plays.take(t + 1).last() == plays[t]);
}

/// The range count is bounded by the range.
proof fn lemma_in_range_count_bound(n: int, drop: Set<int>)
    ensures
        0 <= in_range_count(n, drop) <= if n <= 0 {
            0int
        } else {
            n
        },
    decreases n,
{
    if n > 0 {
        lemma_in_range_count_bound(n - 1, drop);
    }
}

/// Inserting one in-range index raises the range count by one.
proof fn lemma_in_range_count_insert(n: int, drop: Set<int>, x: int)
    requires
        0 <= x < n,
        !drop.contains(x),
    ensures
        in_range_count(n, drop.insert(x)) == in_range_count(n, drop) + 1,
    decreases n,
{
    if n > 0 {
        if x == n - 1 {
            lemma_in_range_count_same(n - 1, drop, drop.insert(x), x);
        } else {
            lemma_in_range_count_insert(n - 1, drop, x);
        }
    }
}

/// Sets agreeing below `n` except at `x >= n` count alike.
proof fn lemma_in_range_count_same(n: int, a: Set<int>, b: Set<int>, x: int)
    requires
        n <= x,
        forall|m: int| m != x ==> (a.contains(m) <==> b.contains(m)),
    ensures
        in_range_count(n, a) == in_range_count(n, b),
    decreases n,
{
    if n > 0 {
        lemma_in_range_count_same(n - 1, a, b, x);
    }
}

/// Distinct in-range claims occupy exactly their own count of slots.
proof fn lemma_claimed_count(plays: Seq<TilePlay>, n: int)
    requires
        plays_ok(plays, n),
    ensures
        in_range_count(n, claimed_set(plays)) == plays.len(),
        plays.len() <= if n <= 0 {
            0int
        } else {
            n
        },
    decreases plays.len(),
{
    if plays.len() == 0 {
        assert(claimed_set(plays) =~= Set::<int>::empty());
        lemma_in_range_count_empty(n);
    } else {
        let rest = plays.drop_last();
        let x = plays.last().tile_index as int;
        assert(forall|t: int| 0 <= t < rest.len() ==> rest[t] == plays[t]);
        assert(plays_ok(rest, n));
        lemma_claimed_count(rest, n);
        assert(!claimed_set(rest).contains(x)) by {
            if claimed_set(rest).contains(x) {
                let t = choose|t: int|
                    0 <= t < rest.len() && (#[trigger] rest[t]).tile_index as int == x;
                assert(plays[t].tile_index == plays[plays.len() - 1].tile_index);
            }
        }
        assert(claimed_set(plays) =~= claimed_set(rest).insert(x)) by {
            assert forall|i: int| claimed_set(plays).contains(i) implies claimed_set(
                rest,
            ).insert(x).contains(i) by {
                let t = choose|t: int|
                    0 <= t < plays.len() && (#[trigger] plays[t]).tile_index as int == i;
                if t < plays.len() - 1 {
                    assert(rest[t].tile_index as int == i);
                }
            }
            assert forall|i: int| claimed_set(rest).insert(x).contains(i) implies claimed_set(
                plays,
            ).contains(i) by {
                if i == x {
                    assert(plays[plays.len() - 1].tile_index as int == i);
                } else {
                    let t = choose|t: int|
                        0 <= t < rest.len() && (#[trigger] rest[t]).tile_index as int == i;
                    assert(plays[t].tile_index as int == i);
                }
            }
        }
        assert(0 <= x < n);
        lemma_in_range_count_insert(n, claimed_set(rest), x);
        lemma_in_range_count_bound(n, claimed_set(plays));
    }
}

/// The empty set counts zero.
proof fn lemma_in_range_count_empty(n: int)
    ensures
        in_range_count(n, Set::<int>::empty()) == 0,
    decreases n,
{
    if n > 0 {
        lemma_in_range_count_empty(n - 1);
    }
}

/// Removal keeps exactly the unclaimed slots.
proof fn lemma_keep_except_len(s: Seq<Tile>, drop: Set<int>)
    ensures
        keep_except(s, drop).len() == s.len() - in_range_count(s.len() as int, drop),
    decreases s.len(),
{
    if s.len() > 0 {
        lemma_keep_except_len(s.drop_last(), drop);
        lemma_in_range_count_bound(s.len() as int, drop);
    }
}

/// Removal of well-formed tiles leaves well-formed tiles.
proof fn lemma_keep_except_wf(s: Seq<Tile>, drop: Set<int>)
    requires
        forall|i: int| 0 <= i < s.len() ==> (#[trigger] s[i]).wf(),
    ensures
        forall|k: int|
            0 <= k < keep_except(s, drop).len() ==> (#[trigger] keep_except(s, drop)[k]).wf(),
    decreases s.len(),
{
    if s.len() > 0 {
        assert(forall|i: int| 0 <= i < s.len() - 1 ==> s.drop_last()[i] == s[i]);
        lemma_keep_except_wf(s.drop_last(), drop);
        assert(s.last().wf());
        let ke = keep_except(s, drop);
        let rest = keep_except(s.drop_last(), drop);
        if !drop.contains(s.len() - 1) {
            assert forall|k: int| 0 <= k < ke.len() implies (#[trigger] ke[k]).wf() by {
                if k < rest.len() {
                    assert(ke[k] == rest[k]);
                } else {
                    assert(ke[k] == s.last());
                }
            }
        }
    }
}

// ---------------------------------------------------------------------
// The proposed table.
// ---------------------------------------------------------------------

/// Index of the first structurally illegal meld; -1 when all are
/// legal.
pub open spec fn first_invalid_meld(melds: Seq<Meld>) -> int
    decreases melds.len(),
{
    if melds.len() == 0 {
        -1
    } else if !meld_ok(melds[0].meld_type, melds[0].tiles@) {
        0
    } else {
        let r = first_invalid_meld(melds.drop_first());
        if r < 0 {
            -1
        } else {
            r + 1
        }
    }
}

/// `first_invalid_meld` finds the least illegal index, or -1 when
/// every meld is legal.
proof fn lemma_first_invalid_meld(melds: Seq<Meld>)
    ensures
        first_invalid_meld(melds) == -1 <==> forall|m: int|
            0 <= m < melds.len() ==> meld_ok(
                (#[trigger] melds[m]).meld_type,
                melds[m].tiles@,
            ),
        first_invalid_meld(melds) != -1 ==> {
            let b = first_invalid_meld(melds);
            &&& 0 <= b < melds.len()
            &&& !meld_ok(melds[b].meld_type, melds[b].tiles@)
            &&& forall|m: int|
                0 <= m < b ==> meld_ok((#[trigger] melds[m]).meld_type, melds[m].tiles@)
        },
    decreases melds.len(),
{
    if melds.len() > 0 {
        lemma_first_invalid_meld(melds.drop_first());
        assert(forall|m: int|
            0 <= m < melds.len() - 1 ==> melds.drop_first()[m] == melds[m + 1]);
        if meld_ok(melds[0].meld_type, melds[0].tiles@) {
            let r = first_invalid_meld(melds.drop_first());
            if r == -1 {
                assert forall|m: int| 0 <= m < melds.len() implies meld_ok(
                    (#[trigger] melds[m]).meld_type,
                    melds[m].tiles@,
                ) by {
                    if m >= 1 {
                        assert(melds[m] == melds.drop_first()[m - 1]);
                        assert(meld_ok(
                            (melds.drop_first()[m - 1]).meld_type,
                            melds.drop_first()[m - 1].tiles@,
                        ));
                    }
                }
            } else {
                assert(melds[r + 1] == melds.drop_first()[r]);
                assert(!meld_ok(melds[r + 1].meld_type, melds[r + 1].tiles@));
                assert forall|m: int| 0 <= m < r + 1 implies meld_ok(
                    (#[trigger] melds[m]).meld_type,
                    melds[m].tiles@,
                ) by {
                    if m >= 1 {
                        assert(melds[m] == melds.drop_first()[m - 1]);
                        assert(meld_ok(
                            (melds.drop_first()[m - 1]).meld_type,
                            melds.drop_first()[m - 1].tiles@,
                        ));
                    }
                }
            }
        }
    }
}

/// A meld validation verdict never collides with the play-level or
/// retrieval-level rejection reasons.
proof fn lemma_meld_result_distinct(mt: MeldType, s: Seq<Tile>)
    ensures
        meld_result(mt, s) != Err::<(), RummikubError>(RummikubError::InvalidTileIndex),
        meld_result(mt, s) != Err::<(), RummikubError>(RummikubError::InitialMeldTooLow),
        meld_result(mt, s) != Err::<(), RummikubError>(RummikubError::CannotRearrangeBeforeOpening),
        meld_result(mt, s) != Err::<(), RummikubError>(RummikubError::TableTileCountMismatch),
        meld_result(mt, s) != Err::<(), RummikubError>(RummikubError::PlayerNotInGame),
        meld_result(mt, s) != Err::<(), RummikubError>(RummikubError::NotPlayerTurn),
        meld_result(mt, s) != Err::<(), RummikubError>(RummikubError::GameNotInProgress),
        meld_result(mt, s) != Err::<(), RummikubError>(
            RummikubError::CannotRetrieveJokerBeforeOpening,
        ),
        meld_result(mt, s) != Err::<(), RummikubError>(RummikubError::MustPlayTileWithJoker),
        meld_result(mt, s) != Err::<(), RummikubError>(RummikubError::MustPlayRetrievedJoker),
        meld_result(mt, s) != Err::<(), RummikubError>(RummikubError::InvalidMeldIndex),
        meld_result(mt, s) != Err::<(), RummikubError>(RummikubError::InvalidTilePosition),
        meld_result(mt, s) != Err::<(), RummikubError>(RummikubError::NotAJoker),
        meld_result(mt, s) != Err::<(), RummikubError>(RummikubError::InvalidJokerReplacement),
{
}

/// The pre-opening rearrangement bar: every pre-existing meld stands
/// unchanged at its index, so the caller has only appended new melds
/// formed from hand tiles.
pub open spec fn table_preserved(oldt: Seq<Meld>, newt: Seq<Meld>) -> bool {
    &&& newt.len() >= oldt.len()
    &&& forall|m: int|
        0 <= m < oldt.len() ==> (#[trigger] newt[m]).meld_type == oldt[m].meld_type
            && newt[m].tiles@ == oldt[m].tiles@
}

// ---------------------------------------------------------------------
// Conditions of a play, in decision order.
// ---------------------------------------------------------------------

/// The opening-gate condition of a play.
pub open spec fn play_gate_ok(hand: Seq<Tile>, plays: Seq<TilePlay>, opened: bool) -> bool {
    opened || claimed_value(hand, plays) >= MIN_INITIAL_MELD as int
}

/// The rearrangement condition of a play.
pub open spec fn play_table_ok(oldt: Seq<Meld>, newt: Seq<Meld>, opened: bool) -> bool {
    opened || table_preserved(oldt, newt)
}

/// The tile-count conservation condition of a play.
pub open spec fn play_count_ok(oldt: Seq<Meld>, newt: Seq<Meld>, plays_len: int) -> bool {
    table_total(newt) == table_total(oldt) + plays_len
}

// ---------------------------------------------------------------------
// Executable helpers.
// ---------------------------------------------------------------------

/// Total number of tiles across the melds of a proposed table.
fn table_tiles_count(melds: &Vec<Meld>) -> (n: u128)
    ensures
        n == table_total(melds@),
{
    let mut n: u128 = 0;
    let mut m: usize = 0;
    while m < melds.len()
        invariant
            m <= melds@.len(),
            n == table_total(melds@.take(m as int)),
            n <= m as int * 0xffff_ffff_ffff_ffffu128,
        decreases melds@.len() - m,
    {
        let l = melds[m].tiles.len();
        proof {
            lemma_table_total_step(melds@, m as int);
            assert(l as int <= 0xffff_ffff_ffff_ffffu128 as int);
        }
        n = n + l as u128;
        m += 1;
    }
    proof {
        assert(melds@.take(melds@.len() as int) =~= melds@);
    }
    n
}

/// Structural equality of two melds.
fn meld_eq(a: &Meld, b: &Meld) -> (r: bool)
    ensures
        r <==> (a.meld_type == b.meld_type && a.tiles@ == b.tiles@),
{
    let type_match = match (a.meld_type, b.meld_type) {
        (MeldType::Group, MeldType::Group) => true,
        (MeldType::Run, MeldType::Run) => true,
        _ => false,
    };
    if !type_match {
        return false;
    }
    if a.tiles.len() != b.tiles.len() {
        proof {
            assert(a.tiles@.len() != b.tiles@.len());
        }
        return false;
    }
    let n = a.tiles.len();
    let mut k: usize = 0;
    while k < n
        invariant
            n == a.tiles@.len(),
            n == b.tiles@.len(),
            k <= n,
            forall|j: int| 0 <= j < k ==> a.tiles@[j] == b.tiles@[j],
        decreases n - k,
    {
        if a.tiles[k] != b.tiles[k] {
            return false;
        }
        k += 1;
    }
    proof {
        assert(a.tiles@ =~= b.tiles@);
    }
    true
}

impl GameState {
    /// Validate and commit a play for the player at `player_index`:
    /// check the claimed hand tiles, the opening gate, the
    /// rearrangement bar, tile-count conservation, and every proposed
    /// meld; then remove the claimed tiles from the hand, replace the
    /// table wholesale, and mark the player as opened.  Turn advance
    /// and win detection belong to [`GameState::play_tiles`].
    pub fn execute_play(
        &mut self,
        player_index: usize,
        played_tiles: Vec<TilePlay>,
        new_table_melds: Vec<Meld>,
    ) -> (r: Result<(), RummikubError>)
        requires
            old(self).wf(),
            old(self).game_status is InProgress,
            player_index < old(self).players@.len(),
        ensures
            final(self).wf(),
            final(self).game_status is InProgress,
            r is Err ==> *final(self) == *old(self),
            ({
                let hand = old(self).players@[player_index as int].tiles@;
                let opened = old(self).players@[player_index as int].has_opened;
                let oldt = old(self).table_melds@;
                let c1 = plays_ok(played_tiles@, hand.len() as int);
                let c2 = play_gate_ok(hand, played_tiles@, opened);
                let c3 = play_table_ok(oldt, new_table_melds@, opened);
                let c4 = play_count_ok(oldt, new_table_melds@, played_tiles@.len() as int);
                let b = first_invalid_meld(new_table_melds@);
                &&& (r == Err::<(), RummikubError>(RummikubError::InvalidTileIndex) <==> !c1)
                &&& (r == Err::<(), RummikubError>(RummikubError::InitialMeldTooLow) <==> c1
                    && !c2)
                &&& (r == Err::<(), RummikubError>(RummikubError::CannotRearrangeBeforeOpening)
                    <==> c1 && c2 && !c3)
                &&& (r == Err::<(), RummikubError>(RummikubError::TableTileCountMismatch) <==> c1
                    && c2 && c3 && !c4)
                &&& (c1 && c2 && c3 && c4 && b != -1 ==> r == meld_result(
                    new_table_melds@[b].meld_type,
                    new_table_melds@[b].tiles@,
                ))
                &&& (r is Ok <==> c1 && c2 && c3 && c4 && b == -1)
                &&& (r is Ok ==> {
                    let i = player_index as int;
                    &&& final(self).players@ == old(self).players@.update(
                        i,
                        final(self).players@[i],
                    )
                    &&& final(self).players@[i].tiles@ == keep_except(
                        hand,
                        claimed_set(played_tiles@),
                    )
                    &&& final(self).players@[i].has_opened == true
                    &&& final(self).players@[i].pubkey == old(self).players@[i].pubkey
                    &&& final(self).players@[i].score == old(self).players@[i].score
                    &&& final(self).table_melds@ == new_table_melds@
                    &&& *final(self) == (GameState {
                        players: final(self).players,
                        table_melds: final(self).table_melds,
                        ..*old(self)
                    })
                })
            }),
    {
        let ghost hand = self.players@[player_index as int].tiles@;
        let ghost plays = played_tiles@;
        let ghost oldt = self.table_melds@;
        let i = player_index;
        let hand_len = self.players[i].tiles.len();
        let n_plays = played_tiles.len();

        // every claimed index must address a live slot, once
        let mut t: usize = 0;
        while t < n_plays
            invariant
                *self == *old(self),
                old(self).wf(),
                old(self).game_status is InProgress,
                hand == self.players@[i as int].tiles@,
                plays == played_tiles@,
                i == player_index,
                i < self.players@.len(),
                hand_len == hand.len(),
                n_plays == plays.len(),
                t <= n_plays,
                plays_ok(plays.take(t as int), hand_len as int),
            decreases n_plays - t,
        {
            proof {
                assert(forall|u: int| 0 <= u < t ==> plays.take(t as int)[u] == plays[u]);
            }
            if played_tiles[t].tile_index as usize >= hand_len {
                proof {
                    assert(plays[t as int].tile_index as int >= hand.len());
                    assert(!plays_ok(plays, hand.len() as int));
                }
                return Err(RummikubError::InvalidTileIndex);
            }
            let mut u: usize = 0;
            while u < t
                invariant
                    *self == *old(self),
                    old(self).wf(),
                    old(self).game_status is InProgress,
                    plays == played_tiles@,
                    hand == self.players@[i as int].tiles@,
                    i == player_index,
                    i < self.players@.len(),
                    u <= t < n_plays,
                    n_plays == plays.len(),
                    forall|v: int|
                        0 <= v < u ==> (#[trigger] plays[v]).tile_index != plays[t as int].tile_index,
                decreases t - u,
            {
                if played_tiles[u].tile_index == played_tiles[t].tile_index {
                    proof {
                        assert(plays[u as int].tile_index == plays[t as int].tile_index);
                        assert(!plays_ok(plays, hand.len() as int));
                    }
                    return Err(RummikubError::InvalidTileIndex);
                }
                u += 1;
            }
            proof {
                assert(plays_ok(plays.take(t as int + 1), hand_len as int)) by {
                    assert(forall|v: int|
                        0 <= v <= t ==> plays.take(t as int + 1)[v] == plays[v]);
                }
            }
            t += 1;
        }
        proof {
            assert(plays.take(n_plays as int) =~= plays);
            lemma_claimed_count(plays, hand_len as int);
            assert(old(self).players@[i as int].wf());
        }

        // sum the claimed value (each claim is one distinct slot, so
        // at most 21 claims of at most 30 points each)
        let mut total_value: u16 = 0;
        let mut t2: usize = 0;
        while t2 < n_plays
            invariant
                *self == *old(self),
                old(self).wf(),
                old(self).game_status is InProgress,
                hand == self.players@[i as int].tiles@,
                plays == played_tiles@,
                i == player_index,
                i < self.players@.len(),
                self.players@[i as int].wf(),
                hand_len == hand.len(),
                hand_len <= HAND_CAPACITY,
                n_plays == plays.len(),
                n_plays <= hand_len,
                plays_ok(plays, hand_len as int),
                t2 <= n_plays,
                total_value as int == claimed_value(hand, plays.take(t2 as int)),
                total_value as int <= 30 * t2 as int,
            decreases n_plays - t2,
        {
            proof {
                lemma_claimed_value_step(hand, plays, t2 as int);
                assert(hand[plays[t2 as int].tile_index as int].wf());
                assert(hand[plays[t2 as int].tile_index as int].spec_value() <= 30);
            }
            let idx = played_tiles[t2].tile_index as usize;
            total_value = total_value + self.players[i].tiles[idx].get_value();
            t2 += 1;
        }
        proof {
            assert(plays.take(n_plays as int) =~= plays);
        }

        // the opening gate
        let opened = self.players[i].has_opened;
        if !opened && total_value < MIN_INITIAL_MELD {
            return Err(RummikubError::InitialMeldTooLow);
        }

        // before opening, pre-existing melds must stand untouched
        if !opened {
            let n_old = self.table_melds.len();
            if new_table_melds.len() < n_old {
                return Err(RummikubError::CannotRearrangeBeforeOpening);
            }
            let mut m: usize = 0;
            while m < n_old
                invariant
                    *self == *old(self),
                    old(self).wf(),
                    old(self).game_status is InProgress,
                    plays == played_tiles@,
                    hand == self.players@[i as int].tiles@,
                    i == player_index,
                    i < self.players@.len(),
                    plays_ok(plays, hand.len() as int),
                    play_gate_ok(hand, plays, self.players@[i as int].has_opened),
                    self.players@[i as int].has_opened == false,
                    oldt == self.table_melds@,
                    n_old == oldt.len(),
                    new_table_melds@.len() >= n_old,
                    m <= n_old,
                    forall|v: int|
                        0 <= v < m ==> (#[trigger] new_table_melds@[v]).meld_type
                            == oldt[v].meld_type && new_table_melds@[v].tiles@ == oldt[v].tiles@,
                decreases n_old - m,
            {
                if !meld_eq(&self.table_melds[m], &new_table_melds[m]) {
                    return Err(RummikubError::CannotRearrangeBeforeOpening);
                }
                m += 1;
            }
        }

        // the proposed table must conserve the tile count
        let old_total = table_tiles_count(&self.table_melds);
        let new_total = table_tiles_count(&new_table_melds);
        proof {
            crate::game::lemma_hands_total_bound(self.players@);
            assert(table_total(oldt) >= 0) by {
                lemma_table_total_nonneg(oldt);
            }
            assert(table_total(oldt) <= 106);
        }
        if new_total != old_total + n_plays as u128 {
            return Err(RummikubError::TableTileCountMismatch);
        }

        // every proposed meld must be structurally legal
        proof {
            lemma_first_invalid_meld(new_table_melds@);
        }
        let n_new = new_table_melds.len();
        let mut m: usize = 0;
        while m < n_new
            invariant
                *self == *old(self),
                old(self).wf(),
                old(self).game_status is InProgress,
                plays == played_tiles@,
                hand == self.players@[i as int].tiles@,
                i == player_index,
                i < self.players@.len(),
                oldt == self.table_melds@,
                opened == self.players@[i as int].has_opened,
                plays_ok(plays, hand.len() as int),
                play_gate_ok(hand, plays, opened),
                play_table_ok(oldt, new_table_melds@, opened),
                play_count_ok(oldt, new_table_melds@, plays.len() as int),
                n_new == new_table_melds@.len(),
                m <= n_new,
                forall|v: int|
                    0 <= v < m ==> meld_ok(
                        (#[trigger] new_table_melds@[v]).meld_type,
                        new_table_melds@[v].tiles@,
                    ),
            decreases n_new - m,
        {
            match new_table_melds[m].validate() {
                Ok(()) => {},
                Err(e) => {
                    proof {
                        lemma_first_invalid_meld(new_table_melds@);
                        lemma_meld_result_distinct(
                            new_table_melds@[m as int].meld_type,
                            new_table_melds@[m as int].tiles@,
                        );
                        let b = first_invalid_meld(new_table_melds@);
                        assert(b != -1);
                        assert(b == m as int) by {
                            if b < m as int {
                                assert(meld_ok(
                                    new_table_melds@[b].meld_type,
                                    new_table_melds@[b].tiles@,
                                ));
                            }
                        }
                    }
                    return Err(e);
                },
            }
            m += 1;
        }
        proof {
            lemma_first_invalid_meld(new_table_melds@);
        }

        // commit: remove the claimed tiles in order, replace the table
        let mut new_hand: Vec<Tile> = Vec::new();
        let mut k: usize = 0;
        while k < hand_len
            invariant
                *self == *old(self),
                old(self).wf(),
                old(self).game_status is InProgress,
                hand == self.players@[i as int].tiles@,
                plays == played_tiles@,
                i < self.players@.len(),
                hand_len == hand.len(),
                n_plays == plays.len(),
                k <= hand_len,
                i == player_index,
                oldt == self.table_melds@,
                opened == self.players@[i as int].has_opened,
                plays_ok(plays, hand.len() as int),
                play_gate_ok(hand, plays, opened),
                play_table_ok(oldt, new_table_melds@, opened),
                play_count_ok(oldt, new_table_melds@, plays.len() as int),
                first_invalid_meld(new_table_melds@) == -1,
                new_hand@ == keep_except(hand.take(k as int), claimed_set(plays)),
                new_hand@.len() <= k,
            decreases hand_len - k,
        {
            let mut claimed = false;
            let mut t3: usize = 0;
            while t3 < n_plays
                invariant
                    plays == played_tiles@,
                    n_plays == plays.len(),
                    t3 <= n_plays,
                    claimed <==> exists|v: int|
                        0 <= v < t3 && (#[trigger] plays[v]).tile_index as int == k as int,
                decreases n_plays - t3,
            {
                if played_tiles[t3].tile_index as usize == k {
                    claimed = true;
                }
                t3 += 1;
            }
            proof {
                assert(claimed <==> claimed_set(plays).contains(k as int));
                assert(hand.take(k as int + 1).drop_last() =~= hand.take(k as int));
                assert(hand.take(k as int + 1).last() == hand[k as int]);
                lemma_keep_except_len(hand.take(k as int), claimed_set(plays));
                lemma_in_range_count_bound(k as int, claimed_set(plays));
            }
            if !claimed {
                new_hand.push(self.players[i].tiles[k]);
            }
            k += 1;
        }
        proof {
            assert(hand.take(hand_len as int) =~= hand);
            lemma_keep_except_len(hand, claimed_set(plays));
            lemma_keep_except_wf(hand, claimed_set(plays));
        }
        let new_hand_len = new_hand.len();
        let ghost prev = self.players@;
        let p = &mut self.players[i];
        p.tiles = new_hand;
        p.tile_count = new_hand_len as u8;
        p.has_opened = true;
        self.table_melds = new_table_melds;
        proof {
            lemma_hands_total_update(prev, i as int, self.players@[i as int]);
        }
        Ok(())
    }

    /// The play action: on the caller's turn in a running match,
    /// validate and commit the play; if the caller's hand is then
    /// empty the match ends with them as winner and scores are set,
    /// otherwise the turn advances.
    pub fn play_tiles(
        &mut self,
        player: &crate::player::PlayerId,
        played_tiles: Vec<TilePlay>,
        new_table_melds: Vec<Meld>,
    ) -> (r: Result<(), RummikubError>)
        requires
            old(self).wf(),
        ensures
            final(self).wf(),
            r is Err ==> *final(self) == *old(self),
            r == Err::<(), RummikubError>(RummikubError::PlayerNotInGame) <==> !old(
                self,
            ).spec_has_player(*player),
            r == Err::<(), RummikubError>(RummikubError::NotPlayerTurn) <==> old(
                self,
            ).spec_has_player(*player) && old(self).spec_player_index(*player) != old(
                self,
            ).current_turn as int,
            r == Err::<(), RummikubError>(RummikubError::GameNotInProgress) <==> old(
                self,
            ).spec_has_player(*player) && old(self).spec_player_index(*player) == old(
                self,
            ).current_turn as int && !(old(self).game_status is InProgress),
            ({
                let ok_turn = old(self).spec_has_player(*player) && old(self).spec_player_index(
                    *player,
                ) == old(self).current_turn as int && old(self).game_status is InProgress;
                let i = old(self).current_turn as int;
                let hand = old(self).players@[i].tiles@;
                let opened = old(self).players@[i].has_opened;
                let oldt = old(self).table_melds@;
                let c1 = plays_ok(played_tiles@, hand.len() as int);
                let c2 = play_gate_ok(hand, played_tiles@, opened);
                let c3 = play_table_ok(oldt, new_table_melds@, opened);
                let c4 = play_count_ok(oldt, new_table_melds@, played_tiles@.len() as int);
                let b = first_invalid_meld(new_table_melds@);
                let new_hand = keep_except(hand, claimed_set(played_tiles@));
                &&& (r == Err::<(), RummikubError>(RummikubError::InvalidTileIndex) <==> ok_turn
                    && !c1)
                &&& (r == Err::<(), RummikubError>(RummikubError::InitialMeldTooLow) <==> ok_turn
                    && c1 && !c2)
                &&& (r == Err::<(), RummikubError>(RummikubError::CannotRearrangeBeforeOpening)
                    <==> ok_turn && c1 && c2 && !c3)
                &&& (r == Err::<(), RummikubError>(RummikubError::TableTileCountMismatch) <==>
                    ok_turn && c1 && c2 && c3 && !c4)
                &&& (ok_turn && c1 && c2 && c3 && c4 && b != -1 ==> r == meld_result(
                    new_table_melds@[b].meld_type,
                    new_table_melds@[b].tiles@,
                ))
                &&& (r is Ok <==> ok_turn && c1 && c2 && c3 && c4 && b == -1)
                &&& (r is Ok ==> {
                    &&& final(self).players@.len() == old(self).players@.len()
                    &&& final(self).players@[i].tiles@ == new_hand
                    &&& final(self).players@[i].has_opened == true
                    &&& final(self).players@[i].pubkey == old(self).players@[i].pubkey
                    &&& final(self).table_melds@ == new_table_melds@
                    &&& forall|j: int|
                        0 <= j < old(self).players@.len() && j != i ==> (#[trigger] final(self).players@[j]).tiles@ == old(self).players@[j].tiles@ && final(self).players@[j].pubkey == old(self).players@[j].pubkey && final(self).players@[j].has_opened == old(self).players@[j].has_opened
                    &&& final(self).game_id == old(self).game_id
                    &&& final(self).authority == old(self).authority
                    &&& final(self).max_players == old(self).max_players
                    &&& final(self).current_players == old(self).current_players
                    &&& final(self).prize_pool == old(self).prize_pool
                    &&& final(self).tile_pool@ == old(self).tile_pool@
                    &&& final(self).tiles_remaining == old(self).tiles_remaining
                    &&& (if new_hand.len() == 0 {
                        &&& final(self).game_status is Finished
                        &&& final(self).winner == Some(old(self).players@[i].pubkey)
                        &&& final(self).players@[i].score as int == others_hand_value(
                            old(self).players@,
                            i,
                        )
                        &&& forall|j: int|
                            0 <= j < old(self).players@.len() && j != i ==> (#[trigger] final(self).players@[j]).score as int == -tiles_value(
                                old(self).players@[j].tiles@,
                            )
                    } else {
                        &&& final(self).game_status == old(self).game_status
                        &&& final(self).winner == old(self).winner
                        &&& final(self).current_turn as int == crate::game::spec_next_turn(
                            old(self).current_turn as int,
                            old(self).current_players as int,
                        )
                        &&& final(self).players@[i].score == old(self).players@[i].score
                        &&& forall|j: int|
                            0 <= j < old(self).players@.len() && j != i ==> (#[trigger] final(self).players@[j]).score == old(self).players@[j].score
                    })
                })
            }),
    {
        match self.verify_turn(player) {
            Ok(()) => {},
            Err(e) => {
                return Err(e);
            },
        }
        match self.game_status {
            GameStatus::InProgress => {},
            _ => {
                return Err(RummikubError::GameNotInProgress);
            },
        }
        let player_index = match self.get_player_index(player) {
            Ok(i) => i,
            Err(e) => {
                proof {
                    assert(false);
                }
                return Err(e);
            },
        };
        match self.execute_play(player_index, played_tiles, new_table_melds) {
            Ok(()) => {},
            Err(e) => {
                return Err(e);
            },
        }
        if self.players[player_index].tiles.len() == 0 {
            let ghost mid = *self;
            match self.end_game(player_index) {
                Ok(()) => {},
                Err(e) => {
                    proof {
                        assert(false);
                    }
                    return Err(e);
                },
            }
            proof {
                crate::game::lemma_others_value_to_same(
                    mid.players@,
                    old(self).players@,
                    player_index as int,
                    old(self).players@.len() as int,
                );
            }
        } else {
            self.next_turn();
        }
        Ok(())
    }
}

/// The table total is never negative.
proof fn lemma_table_total_nonneg(melds: Seq<Meld>)
    ensures
        table_total(melds) >= 0,
    decreases melds.len(),
{
    if melds.len() > 0 {
        lemma_table_total_nonneg(melds.drop_last());
    }
}

// ---------------------------------------------------------------------
// Joker retrieval.
// ---------------------------------------------------------------------

/// One joker retrieval: which table meld, which tile position in it,
/// and which hand tile is offered as the replacement.
#[derive(Clone, Copy, PartialEq, Eq, Structural, Debug)]
pub struct JokerRetrieval {
    pub meld_index: u8,
    pub joker_position: u8,
    pub replacement_tile_index: u8,
}

/// The meld types of a table, by index.
pub open spec fn types_view(melds: Seq<Meld>) -> Seq<MeldType> {
    melds.map_values(|m: Meld| m.meld_type)
}

/// The tile sequences of a table, by index.
pub open spec fn tiles_view(melds: Seq<Meld>) -> Seq<Seq<Tile>> {
    melds.map_values(|m: Meld| m.tiles@)
}

/// Total number of tiles across a table of tile sequences.
pub open spec fn seq_seq_total(tbl: Seq<Seq<Tile>>) -> int
    decreases tbl.len(),
{
    if tbl.len() == 0 {
        0
    } else {
        seq_seq_total(tbl.drop_last()) + tbl.last().len()
    }
}

/// Total number of jokers across the melds of a table.
pub open spec fn table_jokers(melds: Seq<Meld>) -> int
    decreases melds.len(),
{
    if melds.len() == 0 {
        0
    } else {
        table_jokers(melds.drop_last()) + crate::meld::count_jokers(melds.last().tiles@)
    }
}

/// Index of the first real (numbered) tile; -1 when there is none.
/// It anchors a run's expected value: the first real neighbor found
/// in a single scan fixes the number a joker position stands for.
pub open spec fn first_real(s: Seq<Tile>) -> int
    decreases s.len(),
{
    if s.len() == 0 {
        -1
    } else if s[0].is_number() {
        0
    } else {
        let r = first_real(s.drop_first());
        if r < 0 {
            -1
        } else {
            r + 1
        }
    }
}

/// `first_real` finds the least real index, or -1 when none exists.
proof fn lemma_first_real(s: Seq<Tile>)
    ensures
        first_real(s) == -1 <==> forall|j: int| 0 <= j < s.len() ==> !(#[trigger] s[j]).is_number(),
        first_real(s) != -1 ==> {
            let a = first_real(s);
            &&& 0 <= a < s.len()
            &&& s[a].is_number()
            &&& forall|j: int| 0 <= j < a ==> !(#[trigger] s[j]).is_number()
        },
    decreases s.len(),
{
    if s.len() > 0 {
        lemma_first_real(s.drop_first());
        assert(forall|j: int| 0 <= j < s.len() - 1 ==> s.drop_first()[j] == s[j + 1]);
        if !s[0].is_number() {
            let r = first_real(s.drop_first());
            if r == -1 {
                assert forall|j: int| 0 <= j < s.len() implies !(#[trigger] s[j]).is_number() by {
                    if j >= 1 {
                        assert(s[j] == s.drop_first()[j - 1]);
                    }
                }
            } else {
                assert(s[r + 1] == s.drop_first()[r]);
                assert forall|j: int| 0 <= j < r + 1 implies !(#[trigger] s[j]).is_number() by {
                    if j >= 1 {
                        assert(s[j] == s.drop_first()[j - 1]);
                    }
                }
            }
        }
    }
}

/// The offered hand tile is a legal substitute for the joker at
/// `pos` of the meld: for a set it must carry the set's established
/// number and a color no real tile uses; for a run, the run's color
/// and the exact number implied by its offset from the first real
/// tile found in a single scan.
pub open spec fn replacement_fits(mt: MeldType, meld: Seq<Tile>, pos: int, repl: Tile) -> bool {
    &&& repl.is_number()
    &&& first_real(meld) >= 0
    &&& match mt {
        MeldType::Group => {
            let a = first_real(meld);
            &&& repl.number() == meld[a].number()
            &&& forall|j: int|
                0 <= j < meld.len() && (#[trigger] meld[j]).is_number() ==> meld[j].color()
                    != repl.color()
        },
        MeldType::Run => {
            let a = first_real(meld);
            &&& repl.color() == meld[a].color()
            &&& repl.number() as int == meld[a].number() + (pos - a)
        },
    }
}

/// One retrieval applied to a hand and a table: validate the indices,
/// confirm the targeted slot holds a joker and the offered tile fits,
/// swap it in, re-validate the meld, and hand the joker back (the
/// replacement leaves the hand, the joker is appended to it).
pub open spec fn retrieval_step(
    hand: Seq<Tile>,
    mts: Seq<MeldType>,
    tbl: Seq<Seq<Tile>>,
    rv: JokerRetrieval,
) -> Result<(Seq<Tile>, Seq<Seq<Tile>>), RummikubError> {
    let mi = rv.meld_index as int;
    let pos = rv.joker_position as int;
    let ri = rv.replacement_tile_index as int;
    if mi >= tbl.len() {
        Err(RummikubError::InvalidMeldIndex)
    } else if pos >= tbl[mi].len() {
        Err(RummikubError::InvalidTilePosition)
    } else if ri >= hand.len() {
        Err(RummikubError::InvalidTileIndex)
    } else if !tbl[mi][pos].is_joker() {
        Err(RummikubError::NotAJoker)
    } else if !replacement_fits(mts[mi], tbl[mi], pos, hand[ri]) {
        Err(RummikubError::InvalidJokerReplacement)
    } else {
        let new_meld = tbl[mi].update(pos, hand[ri]);
        match meld_result(mts[mi], new_meld) {
            Ok(u) => Ok(
                (
                    hand.remove(ri).push(Tile { tile_type: TileType::Joker }),
                    tbl.update(mi, new_meld),
                ),
            ),
            Err(e) => Err(e),
        }
    }
}

/// The first `k` retrievals applied in order; the first failure wins.
pub open spec fn retrieval_run(
    hand: Seq<Tile>,
    mts: Seq<MeldType>,
    tbl: Seq<Seq<Tile>>,
    rs: Seq<JokerRetrieval>,
    k: int,
) -> Result<(Seq<Tile>, Seq<Seq<Tile>>), RummikubError>
    decreases k,
{
    if k <= 0 {
        Ok((hand, tbl))
    } else {
        match retrieval_run(hand, mts, tbl, rs, k - 1) {
            Ok(st) => retrieval_step(st.0, mts, st.1, rs[k - 1]),
            Err(e) => Err(e),
        }
    }
}

/// Once a retrieval fails, later steps do not change the outcome.
proof fn lemma_retrieval_run_err(
    hand: Seq<Tile>,
    mts: Seq<MeldType>,
    tbl: Seq<Seq<Tile>>,
    rs: Seq<JokerRetrieval>,
    k1: int,
    k2: int,
)
    requires
        0 <= k1 <= k2,
        retrieval_run(hand, mts, tbl, rs, k1) is Err,
    ensures
        retrieval_run(hand, mts, tbl, rs, k2) == retrieval_run(hand, mts, tbl, rs, k1),
    decreases k2 - k1,
{
    if k2 > k1 {
        lemma_retrieval_run_err(hand, mts, tbl, rs, k1, k2 - 1);
    }
}

/// Replacing one tile sequence changes the total by the length delta.
proof fn lemma_seq_seq_total_update(tbl: Seq<Seq<Tile>>, m: int, s: Seq<Tile>)
    requires
        0 <= m < tbl.len(),
    ensures
        seq_seq_total(tbl.update(m, s)) == seq_seq_total(tbl) - tbl[m].len() + s.len(),
    decreases tbl.len(),
{
    let n = tbl.len() - 1;
    if m == n {
        assert(tbl.update(m, s).drop_last() =~= tbl.drop_last());
        assert(tbl.update(m, s).last() == s);
    } else {
        assert(tbl.update(m, s).drop_last() =~= tbl.drop_last().update(m, s));
        assert(tbl.update(m, s).last() == tbl.last());
        lemma_seq_seq_total_update(tbl.drop_last(), m, s);
    }
}

/// The tile-sequence view of a table counts the same tiles.
proof fn lemma_tiles_view_total(melds: Seq<Meld>)
    ensures
        seq_seq_total(tiles_view(melds)) == table_total(melds),
    decreases melds.len(),
{
    if melds.len() > 0 {
        assert(tiles_view(melds).drop_last() =~= tiles_view(melds.drop_last()));
        assert(tiles_view(melds).last() == melds.last().tiles@);
        lemma_tiles_view_total(melds.drop_last());
    }
}

/// A successful retrieval step keeps the hand size and well-formed
/// tiles, the table shape and total, and the legality of every meld.
proof fn lemma_retrieval_step_props(
    hand: Seq<Tile>,
    mts: Seq<MeldType>,
    tbl: Seq<Seq<Tile>>,
    rv: JokerRetrieval,
)
    requires
        mts.len() == tbl.len(),
        forall|x: int| 0 <= x < hand.len() ==> (#[trigger] hand[x]).wf(),
        forall|m: int| 0 <= m < tbl.len() ==> meld_ok(mts[m], #[trigger] tbl[m]),
    ensures
        retrieval_step(hand, mts, tbl, rv) matches Ok(st) ==> {
            &&& st.0.len() == hand.len()
            &&& forall|x: int| 0 <= x < st.0.len() ==> (#[trigger] st.0[x]).wf()
            &&& st.1.len() == tbl.len()
            &&& forall|m: int| 0 <= m < st.1.len() ==> meld_ok(mts[m], #[trigger] st.1[m])
            &&& seq_seq_total(st.1) == seq_seq_total(tbl)
        },
{
    if retrieval_step(hand, mts, tbl, rv) is Ok {
        let mi = rv.meld_index as int;
        let pos = rv.joker_position as int;
        let ri = rv.replacement_tile_index as int;
        let new_meld = tbl[mi].update(pos, hand[ri]);
        let h2 = hand.remove(ri).push(Tile { tile_type: TileType::Joker });
        assert forall|x: int| 0 <= x < h2.len() implies (#[trigger] h2[x]).wf() by {
            if x < ri {
                assert(h2[x] == hand[x]);
            } else if x < hand.len() - 1 {
                assert(h2[x] == hand[x + 1]);
            } else {
                assert(h2[x] == Tile { tile_type: TileType::Joker });
            }
        }
        crate::meld::lemma_meld_result_iff(mts[mi], new_meld);
        lemma_seq_seq_total_update(tbl, mi, new_meld);
        assert(forall|m: int|
            0 <= m < tbl.len() && m != mi ==> tbl.update(mi, new_meld)[m] == tbl[m]);
    }
}

/// The retrieval phase as a whole keeps the same shape facts.
proof fn lemma_retrieval_run_props(
    hand: Seq<Tile>,
    mts: Seq<MeldType>,
    tbl: Seq<Seq<Tile>>,
    rs: Seq<JokerRetrieval>,
    k: int,
)
    requires
        mts.len() == tbl.len(),
        forall|x: int| 0 <= x < hand.len() ==> (#[trigger] hand[x]).wf(),
        forall|m: int| 0 <= m < tbl.len() ==> meld_ok(mts[m], #[trigger] tbl[m]),
    ensures
        retrieval_run(hand, mts, tbl, rs, k) matches Ok(st) ==> {
            &&& st.0.len() == hand.len()
            &&& forall|x: int| 0 <= x < st.0.len() ==> (#[trigger] st.0[x]).wf()
            &&& st.1.len() == tbl.len()
            &&& forall|m: int| 0 <= m < st.1.len() ==> meld_ok(mts[m], #[trigger] st.1[m])
            &&& seq_seq_total(st.1) == seq_seq_total(tbl)
        },
    decreases k,
{
    if k > 0 {
        lemma_retrieval_run_props(hand, mts, tbl, rs, k - 1);
        match retrieval_run(hand, mts, tbl, rs, k - 1) {
            Result::Ok(st) => lemma_retrieval_step_props(st.0, mts, st.1, rs[k - 1]),
            Result::Err(_) => (),
        }
    }
}

// ---------------------------------------------------------------------
// Executable helpers for the retrieval phase.
// ---------------------------------------------------------------------

/// A fresh vector holding the same tiles.
fn copy_tiles(v: &Vec<Tile>) -> (r: Vec<Tile>)
    ensures
        r@ == v@,
{
    let mut r: Vec<Tile> = Vec::new();
    let mut k: usize = 0;
    while k < v.len()
        invariant
            k <= v@.len(),
            r@ == v@.take(k as int),
        decreases v@.len() - k,
    {
        proof {
            assert(v@.take(k as int + 1).drop_last() =~= v@.take(k as int));
            assert(v@.take(k as int + 1).last() == v@[k as int]);
            assert(v@.take(k as int + 1) =~= v@.take(k as int).push(v@[k as int]));
        }
        r.push(v[k]);
        k += 1;
    }
    proof {
        assert(v@.take(v@.len() as int) =~= v@);
    }
    r
}

/// A fresh table holding melds of the same types and tiles.
fn copy_melds(v: &Vec<Meld>) -> (r: Vec<Meld>)
    ensures
        r@.len() == v@.len(),
        types_view(r@) == types_view(v@),
        tiles_view(r@) == tiles_view(v@),
    {
    let mut r: Vec<Meld> = Vec::new();
    let mut k: usize = 0;
    while k < v.len()
        invariant
            k <= v@.len(),
            r@.len() == k as int,
            forall|m: int|
                0 <= m < k ==> (#[trigger] r@[m]).meld_type == v@[m].meld_type && r@[m].tiles@
                    == v@[m].tiles@,
        decreases v@.len() - k,
    {
        let m = Meld { meld_type: v[k].meld_type, tiles: copy_tiles(&v[k].tiles) };
        r.push(m);
        k += 1;
    }
    proof {
        assert(types_view(r@) =~= types_view(v@));
        assert(tiles_view(r@) =~= tiles_view(v@));
    }
    r
}

/// First real tile of a meld, by a single scan.
fn find_first_real(tiles: &Vec<Tile>) -> (r: Option<usize>)
    ensures
        r is None <==> first_real(tiles@) == -1,
        r matches Some(a) ==> a as int == first_real(tiles@) && a < tiles@.len()
            && tiles@[a as int].is_number(),
{
    proof {
        lemma_first_real(tiles@);
    }
    let n = tiles.len();
    let mut k: usize = 0;
    while k < n
        invariant
            n == tiles@.len(),
            k <= n,
            forall|j: int| 0 <= j < k ==> !(#[trigger] tiles@[j]).is_number(),
        decreases n - k,
    {
        match tiles[k].tile_type {
            TileType::Number { .. } => {
                proof {
                    lemma_first_real(tiles@);
                    let a = first_real(tiles@);
                    assert(a != -1);
                    assert(a == k as int) by {
                        if a < k as int {
                            assert(!tiles@[a].is_number());
                        }
                    }
                }
                return Some(k);
            },
            _ => {},
        }
        k += 1;
    }
    proof {
        lemma_first_real(tiles@);
    }
    None
}

/// Whether the offered tile is a legal substitute for the joker at
/// `pos` of the meld.
fn replacement_ok(mt: MeldType, tiles: &Vec<Tile>, pos: usize, repl: Tile) -> (r: bool)
    requires
        pos < tiles@.len(),
        tiles@.len() <= 13,
    ensures
        r <==> replacement_fits(mt, tiles@, pos as int, repl),
{
    let (rc, rn) = match repl.tile_type {
        TileType::Number { color, number } => (color, number),
        _ => {
            return false;
        },
    };
    let a = match find_first_real(tiles) {
        Some(a) => a,
        None => {
            return false;
        },
    };
    let (ac, an) = match tiles[a].tile_type {
        TileType::Number { color, number } => (color, number),
        _ => {
            proof {
                assert(false);
            }
            return false;
        },
    };
    match mt {
        MeldType::Group => {
            if rn != an {
                return false;
            }
            let n = tiles.len();
            let mut j: usize = 0;
            while j < n
                invariant
                    mt == MeldType::Group,
                    n == tiles@.len(),
                    j <= n,
                    repl.is_number(),
                    repl.color() == rc,
                    repl.number() == rn,
                    a < n,
                    a as int == first_real(tiles@),
                    tiles@[a as int].number() == an,
                    rn == an,
                    forall|v: int|
                        0 <= v < j ==> !((#[trigger] tiles@[v]).is_number() && tiles@[v].color()
                            == rc),
                decreases n - j,
            {
                match tiles[j].tile_type {
                    TileType::Number { color, number: _ } => {
                        if color == rc {
                            return false;
                        }
                    },
                    _ => {},
                }
                j += 1;
            }
            true
        },
        MeldType::Run => {
            if !(rc == ac) {
                return false;
            }
            let expected: i32 = an as i32 + (pos as i32 - a as i32);
            (rn as i32) == expected
        },
    }
}

/// Total number of jokers across a proposed table.
fn table_jokers_count(melds: &Vec<Meld>) -> (n: u128)
    ensures
        n == table_jokers(melds@),
{
    let mut n: u128 = 0;
    let mut m: usize = 0;
    while m < melds.len()
        invariant
            m <= melds@.len(),
            n == table_jokers(melds@.take(m as int)),
            n <= m as int * 0xffff_ffff_ffff_ffffu128,
        decreases melds@.len() - m,
    {
        let tiles = &melds[m].tiles;
        let mut c: usize = 0;
        let mut j: usize = 0;
        while j < tiles.len()
            invariant
                tiles@ == melds@[m as int].tiles@,
                m < melds@.len(),
                j <= tiles@.len(),
                c as int == crate::meld::count_jokers(tiles@.take(j as int)),
                c <= j,
            decreases tiles@.len() - j,
        {
            proof {
                crate::meld::lemma_prefix_step(tiles@, j as int);
            }
            match tiles[j].tile_type {
                TileType::Joker => {
                    c = c + 1;
                },
                _ => {},
            }
            j += 1;
        }
        proof {
            assert(tiles@.take(tiles@.len() as int) =~= tiles@);
            assert(melds@.take(m as int + 1).drop_last() =~= melds@.take(m as int));
            assert(melds@.take(m as int + 1).last() == melds@[m as int]);
            assert(c as int <= 0xffff_ffff_ffff_ffffu128 as int);
        }
        n = n + c as u128;
        m += 1;
    }
    proof {
        assert(melds@.take(melds@.len() as int) =~= melds@);
    }
    n
}

impl GameState {
    /// The play-with-joker-retrieval action: only a player who has
    /// opened may retrieve table jokers, must contribute at least one
    /// genuine hand tile beyond them, and must play every retrieved
    /// joker back onto the proposed table.  Each retrieval swaps a
    /// matching hand tile into the meld and returns the joker to the
    /// hand; the play then proceeds as a whole-table replacement.
    pub fn play_with_joker_retrieval(
        &mut self,
        player: &crate::player::PlayerId,
        retrievals: Vec<JokerRetrieval>,
        played_tiles: Vec<TilePlay>,
        new_table_melds: Vec<Meld>,
    ) -> (r: Result<(), RummikubError>)
        requires
            old(self).wf(),
        ensures
            final(self).wf(),
            r is Err ==> *final(self) == *old(self),
            r == Err::<(), RummikubError>(RummikubError::PlayerNotInGame) <==> !old(
                self,
            ).spec_has_player(*player),
            r == Err::<(), RummikubError>(RummikubError::NotPlayerTurn) <==> old(
                self,
            ).spec_has_player(*player) && old(self).spec_player_index(*player) != old(
                self,
            ).current_turn as int,
            r == Err::<(), RummikubError>(RummikubError::GameNotInProgress) <==> old(
                self,
            ).spec_has_player(*player) && old(self).spec_player_index(*player) == old(
                self,
            ).current_turn as int && !(old(self).game_status is InProgress),
            ({
                let ok_turn = old(self).spec_has_player(*player) && old(self).spec_player_index(
                    *player,
                ) == old(self).current_turn as int && old(self).game_status is InProgress;
                let i = old(self).current_turn as int;
                let opened = old(self).players@[i].has_opened;
                let gates = ok_turn && opened && played_tiles@.len() > retrievals@.len();
                let hand0 = old(self).players@[i].tiles@;
                let mts0 = types_view(old(self).table_melds@);
                let tbl0 = tiles_view(old(self).table_melds@);
                let rr = retrieval_run(hand0, mts0, tbl0, retrievals@, retrievals@.len() as int);
                &&& (r == Err::<(), RummikubError>(RummikubError::CannotRetrieveJokerBeforeOpening)
                    <==> ok_turn && !opened)
                &&& (r == Err::<(), RummikubError>(RummikubError::MustPlayTileWithJoker) <==>
                    ok_turn && opened && played_tiles@.len() <= retrievals@.len())
                &&& (gates ==> (rr matches Err(e) ==> r == Err::<(), RummikubError>(e)))
                &&& (gates ==> (rr matches Ok(st) ==> {
                    let h1 = st.0;
                    let t1 = st.1;
                    let c0 = table_jokers(new_table_melds@) >= retrievals@.len() as int;
                    let c1 = plays_ok(played_tiles@, h1.len() as int);
                    let c4 = table_total(new_table_melds@) == seq_seq_total(t1)
                        + played_tiles@.len() as int;
                    let b = first_invalid_meld(new_table_melds@);
                    let new_hand = keep_except(h1, claimed_set(played_tiles@));
                    &&& (r == Err::<(), RummikubError>(RummikubError::MustPlayRetrievedJoker) <==>
                        !c0)
                    &&& (r == Err::<(), RummikubError>(RummikubError::InvalidTileIndex) <==> c0
                        && !c1)
                    &&& (r == Err::<(), RummikubError>(RummikubError::TableTileCountMismatch) <==>
                        c0 && c1 && !c4)
                    &&& (c0 && c1 && c4 && b != -1 ==> r == meld_result(
                        new_table_melds@[b].meld_type,
                        new_table_melds@[b].tiles@,
                    ))
                    &&& (r is Ok <==> c0 && c1 && c4 && b == -1)
                    &&& (r is Ok ==> {
                        &&& final(self).players@.len() == old(self).players@.len()
                        &&& final(self).players@[i].tiles@ == new_hand
                        &&& final(self).players@[i].has_opened == true
                        &&& final(self).players@[i].pubkey == old(self).players@[i].pubkey
                        &&& final(self).table_melds@ == new_table_melds@
                        &&& forall|j: int|
                            0 <= j < old(self).players@.len() && j != i ==> (#[trigger] final(self).players@[j]).tiles@ == old(self).players@[j].tiles@ && final(self).players@[j].pubkey == old(self).players@[j].pubkey && final(self).players@[j].has_opened == old(self).players@[j].has_opened
                        &&& final(self).game_id == old(self).game_id
                        &&& final(self).authority == old(self).authority
                        &&& final(self).max_players == old(self).max_players
                        &&& final(self).current_players == old(self).current_players
                        &&& final(self).prize_pool == old(self).prize_pool
                        &&& final(self).tile_pool@ == old(self).tile_pool@
                        &&& final(self).tiles_remaining == old(self).tiles_remaining
                        &&& (if new_hand.len() == 0 {
                            &&& final(self).game_status is Finished
                            &&& final(self).winner == Some(old(self).players@[i].pubkey)
                            &&& final(self).players@[i].score as int == others_hand_value(
                                old(self).players@,
                                i,
                            )
                            &&& forall|j: int|
                                0 <= j < old(self).players@.len() && j != i ==> (#[trigger] final(self).players@[j]).score as int == -tiles_value(
                                    old(self).players@[j].tiles@,
                                )
                        } else {
                            &&& final(self).game_status == old(self).game_status
                            &&& final(self).winner == old(self).winner
                            &&& final(self).current_turn as int == crate::game::spec_next_turn(
                                old(self).current_turn as int,
                                old(self).current_players as int,
                            )
                        })
                    })
                }))
            }),
    {
        match self.verify_turn(player) {
            Ok(()) => {},
            Err(e) => {
                return Err(e);
            },
        }
        match self.game_status {
            GameStatus::InProgress => {},
            _ => {
                return Err(RummikubError::GameNotInProgress);
            },
        }
        let i = match self.get_player_index(player) {
            Ok(i) => i,
            Err(e) => {
                proof {
                    assert(false);
                }
                return Err(e);
            },
        };
        if !self.players[i].has_opened {
            return Err(RummikubError::CannotRetrieveJokerBeforeOpening);
        }
        if played_tiles.len() <= retrievals.len() {
            return Err(RummikubError::MustPlayTileWithJoker);
        }

        let ghost hand0 = self.players@[i as int].tiles@;
        let ghost mts0 = types_view(self.table_melds@);
        let ghost tbl0 = tiles_view(self.table_melds@);
        let ghost rs = retrievals@;
        proof {
            assert(forall|m: int| 0 <= m < tbl0.len() ==> meld_ok(mts0[m], #[trigger] tbl0[m]))
                by {
                assert(forall|m: int|
                    0 <= m < self.table_melds@.len() ==> meld_ok(
                        (#[trigger] self.table_melds@[m]).meld_type,
                        self.table_melds@[m].tiles@,
                    ));
            }
        }

        // work on scratch copies: nothing of the state is touched
        // until every check has passed
        let mut h = copy_tiles(&self.players[i].tiles);
        let mut tb = copy_melds(&self.table_melds);

        let n_r = retrievals.len();
        let mut k: usize = 0;
        while k < n_r
            invariant
                *self == *old(self),
                old(self).wf(),
                old(self).game_status is InProgress,
                old(self).spec_has_player(*player),
                old(self).spec_player_index(*player) == old(self).current_turn as int,
                i as int == old(self).current_turn as int,
                i < old(self).players@.len(),
                old(self).players@[i as int].has_opened == true,
                played_tiles@.len() > retrievals@.len(),
                rs == retrievals@,
                n_r == rs.len(),
                k <= n_r,
                hand0 == old(self).players@[i as int].tiles@,
                mts0 == types_view(old(self).table_melds@),
                tbl0 == tiles_view(old(self).table_melds@),
                mts0.len() == tbl0.len(),
                forall|m: int| 0 <= m < tbl0.len() ==> meld_ok(mts0[m], #[trigger] tbl0[m]),
                retrieval_run(hand0, mts0, tbl0, rs, k as int) == Ok::<
                    (Seq<Tile>, Seq<Seq<Tile>>),
                    RummikubError,
                >((h@, tiles_view(tb@))),
                types_view(tb@) == mts0,
                tb@.len() == tbl0.len(),
            decreases n_r - k,
        {
            proof {
                assert(forall|x: int|
                    0 <= x < hand0.len() ==> (#[trigger] hand0[x]).wf()) by {
                    assert(old(self).players@[i as int].wf());
                }
                lemma_retrieval_run_props(hand0, mts0, tbl0, rs, k as int);
            }
            let ghost hand_cur = h@;
            let ghost tbl_cur = tiles_view(tb@);
            let rv = retrievals[k];
            let mi = rv.meld_index as usize;
            if mi >= tb.len() {
                proof {
                    assert(retrieval_step(hand_cur, mts0, tbl_cur, rv) == Err::<
                        (Seq<Tile>, Seq<Seq<Tile>>),
                        RummikubError,
                    >(RummikubError::InvalidMeldIndex));
                    lemma_retrieval_run_err(hand0, mts0, tbl0, rs, k as int + 1, rs.len() as int);
                }
                return Err(RummikubError::InvalidMeldIndex);
            }
            let pos = rv.joker_position as usize;
            if pos >= tb[mi].tiles.len() {
                proof {
                    assert(tbl_cur[mi as int] == tb@[mi as int].tiles@);
                    assert(retrieval_step(hand_cur, mts0, tbl_cur, rv) == Err::<
                        (Seq<Tile>, Seq<Seq<Tile>>),
                        RummikubError,
                    >(RummikubError::InvalidTilePosition));
                    lemma_retrieval_run_err(hand0, mts0, tbl0, rs, k as int + 1, rs.len() as int);
                }
                return Err(RummikubError::InvalidTilePosition);
            }
            let ri = rv.replacement_tile_index as usize;
            if ri >= h.len() {
                proof {
                    assert(tbl_cur[mi as int] == tb@[mi as int].tiles@);
                    assert(retrieval_step(hand_cur, mts0, tbl_cur, rv) == Err::<
                        (Seq<Tile>, Seq<Seq<Tile>>),
                        RummikubError,
                    >(RummikubError::InvalidTileIndex));
                    lemma_retrieval_run_err(hand0, mts0, tbl0, rs, k as int + 1, rs.len() as int);
                }
                return Err(RummikubError::InvalidTileIndex);
            }
            let target_is_joker = match tb[mi].tiles[pos].tile_type {
                TileType::Joker => true,
                _ => false,
            };
            if !target_is_joker {
                proof {
                    assert(tbl_cur[mi as int] == tb@[mi as int].tiles@);
                    assert(retrieval_step(hand_cur, mts0, tbl_cur, rv) == Err::<
                        (Seq<Tile>, Seq<Seq<Tile>>),
                        RummikubError,
                    >(RummikubError::NotAJoker));
                    lemma_retrieval_run_err(hand0, mts0, tbl0, rs, k as int + 1, rs.len() as int);
                }
                return Err(RummikubError::NotAJoker);
            }
            let repl = h[ri];
            proof {
                assert(tbl_cur[mi as int] == tb@[mi as int].tiles@);
                assert(mts0[mi as int] == tb@[mi as int].meld_type);
                assert(meld_ok(mts0[mi as int], tbl_cur[mi as int]));
                crate::meld::lemma_meld_ok_len(mts0[mi as int], tbl_cur[mi as int]);
            }
            if !replacement_ok(tb[mi].meld_type, &tb[mi].tiles, pos, repl) {
                proof {
                    assert(retrieval_step(hand_cur, mts0, tbl_cur, rv) == Err::<
                        (Seq<Tile>, Seq<Seq<Tile>>),
                        RummikubError,
                    >(RummikubError::InvalidJokerReplacement));
                    lemma_retrieval_run_err(hand0, mts0, tbl0, rs, k as int + 1, rs.len() as int);
                }
                return Err(RummikubError::InvalidJokerReplacement);
            }
            let ghost tb_pre = tb@;
            let m = &mut tb[mi];
            m.tiles.set(pos, repl);
            proof {
                assert(tb@ =~= tb_pre.update(mi as int, tb@[mi as int]));
                assert(tb@[mi as int].tiles@ == tb_pre[mi as int].tiles@.update(
                    pos as int,
                    repl,
                ));
                assert(tb@[mi as int].meld_type == tb_pre[mi as int].meld_type);
                assert(tiles_view(tb@) =~= tbl_cur.update(
                    mi as int,
                    tbl_cur[mi as int].update(pos as int, repl),
                ));
                assert(types_view(tb@) =~= mts0);
            }
            match tb[mi].validate() {
                Ok(()) => {},
                Err(e) => {
                    proof {
                        assert(meld_result(
                            mts0[mi as int],
                            tbl_cur[mi as int].update(pos as int, repl),
                        ) == Err::<(), RummikubError>(e));
                        assert(retrieval_step(hand_cur, mts0, tbl_cur, rv) == Err::<
                            (Seq<Tile>, Seq<Seq<Tile>>),
                            RummikubError,
                        >(e));
                        lemma_retrieval_run_err(
                            hand0,
                            mts0,
                            tbl0,
                            rs,
                            k as int + 1,
                            rs.len() as int,
                        );
                        lemma_meld_result_distinct(
                            mts0[mi as int],
                            tbl_cur[mi as int].update(pos as int, repl),
                        );
                    }
                    return Err(e);
                },
            }
            h.remove(ri);
            h.push(Tile { tile_type: TileType::Joker });
            k += 1;
            proof {
                assert(h@ =~= hand_cur.remove(ri as int).push(
                    Tile { tile_type: TileType::Joker },
                ));
                assert(retrieval_step(hand_cur, mts0, tbl_cur, rv) == Ok::<
                    (Seq<Tile>, Seq<Seq<Tile>>),
                    RummikubError,
                >((h@, tiles_view(tb@))));
            }
        }
        proof {
            assert(forall|x: int| 0 <= x < hand0.len() ==> (#[trigger] hand0[x]).wf()) by {
                assert(old(self).players@[i as int].wf());
            }
            lemma_retrieval_run_props(hand0, mts0, tbl0, rs, rs.len() as int);
        }

        // every retrieved joker must reappear in the proposed table
        let jk = table_jokers_count(&new_table_melds);
        if jk < retrievals.len() as u128 {
            return Err(RummikubError::MustPlayRetrievedJoker);
        }

        // the claimed indices must address the post-retrieval hand
        let ghost plays = played_tiles@;
        let hand_len = h.len();
        let n_plays = played_tiles.len();
        let mut t: usize = 0;
        while t < n_plays
            invariant
                *self == *old(self),
                old(self).wf(),
                old(self).game_status is InProgress,
                old(self).spec_has_player(*player),
                old(self).spec_player_index(*player) == old(self).current_turn as int,
                i as int == old(self).current_turn as int,
                i < old(self).players@.len(),
                old(self).players@[i as int].has_opened == true,
                played_tiles@.len() > retrievals@.len(),
                rs == retrievals@,
                hand0 == old(self).players@[i as int].tiles@,
                mts0 == types_view(old(self).table_melds@),
                tbl0 == tiles_view(old(self).table_melds@),
                retrieval_run(hand0, mts0, tbl0, rs, rs.len() as int) == Ok::<
                    (Seq<Tile>, Seq<Seq<Tile>>),
                    RummikubError,
                >((h@, tiles_view(tb@))),
                table_jokers(new_table_melds@) >= retrievals@.len() as int,
                plays == played_tiles@,
                hand_len == h@.len(),
                n_plays == plays.len(),
                t <= n_plays,
                plays_ok(plays.take(t as int), hand_len as int),
            decreases n_plays - t,
        {
            proof {
                assert(forall|u: int| 0 <= u < t ==> plays.take(t as int)[u] == plays[u]);
            }
            if played_tiles[t].tile_index as usize >= hand_len {
                proof {
                    assert(plays[t as int].tile_index as int >= h@.len());
                    assert(!plays_ok(plays, h@.len() as int));
                }
                return Err(RummikubError::InvalidTileIndex);
            }
            let mut u: usize = 0;
            while u < t
                invariant
                    *self == *old(self),
                    old(self).wf(),
                    old(self).game_status is InProgress,
                    old(self).spec_has_player(*player),
                    old(self).spec_player_index(*player) == old(self).current_turn as int,
                    i as int == old(self).current_turn as int,
                    i < old(self).players@.len(),
                    old(self).players@[i as int].has_opened == true,
                    played_tiles@.len() > retrievals@.len(),
                    rs == retrievals@,
                    hand0 == old(self).players@[i as int].tiles@,
                    mts0 == types_view(old(self).table_melds@),
                    tbl0 == tiles_view(old(self).table_melds@),
                    retrieval_run(hand0, mts0, tbl0, rs, rs.len() as int) == Ok::<
                        (Seq<Tile>, Seq<Seq<Tile>>),
                        RummikubError,
                    >((h@, tiles_view(tb@))),
                    table_jokers(new_table_melds@) >= retrievals@.len() as int,
                    plays == played_tiles@,
                    hand_len == h@.len(),
                    u <= t < n_plays,
                    n_plays == plays.len(),
                    forall|v: int|
                        0 <= v < u ==> (#[trigger] plays[v]).tile_index != plays[t as int].tile_index,
                decreases t - u,
            {
                if played_tiles[u].tile_index == played_tiles[t].tile_index {
                    proof {
                        assert(!plays_ok(plays, h@.len() as int));
                    }
                    return Err(RummikubError::InvalidTileIndex);
                }
                u += 1;
            }
            proof {
                assert(plays_ok(plays.take(t as int + 1), hand_len as int)) by {
                    assert(forall|v: int|
                        0 <= v <= t ==> plays.take(t as int + 1)[v] == plays[v]);
                }
            }
            t += 1;
        }
        proof {
            assert(plays.take(n_plays as int) =~= plays);
            lemma_claimed_count(plays, hand_len as int);
        }

        // the proposed table must conserve the tile count against the
        // post-retrieval table
        let cur_total = table_tiles_count(&tb);
        let new_total = table_tiles_count(&new_table_melds);
        proof {
            lemma_tiles_view_total(tb@);
            lemma_tiles_view_total(old(self).table_melds@);
            crate::game::lemma_hands_total_bound(old(self).players@);
            lemma_table_total_nonneg(old(self).table_melds@);
            assert(seq_seq_total(tiles_view(tb@)) == seq_seq_total(tbl0));
            assert(table_total(tb@) == table_total(old(self).table_melds@));
            assert(table_total(tb@) <= 106);
            assert(h@.len() == hand0.len());
            assert(hand0.len() <= HAND_CAPACITY as int) by {
                assert(old(self).players@[i as int].wf());
            }
        }
        if new_total != cur_total + n_plays as u128 {
            return Err(RummikubError::TableTileCountMismatch);
        }

        // every proposed meld must be structurally legal
        proof {
            lemma_first_invalid_meld(new_table_melds@);
        }
        let n_new = new_table_melds.len();
        let mut m2: usize = 0;
        while m2 < n_new
            invariant
                *self == *old(self),
                old(self).wf(),
                old(self).game_status is InProgress,
                old(self).spec_has_player(*player),
                old(self).spec_player_index(*player) == old(self).current_turn as int,
                i as int == old(self).current_turn as int,
                i < old(self).players@.len(),
                old(self).players@[i as int].has_opened == true,
                played_tiles@.len() > retrievals@.len(),
                rs == retrievals@,
                hand0 == old(self).players@[i as int].tiles@,
                mts0 == types_view(old(self).table_melds@),
                tbl0 == tiles_view(old(self).table_melds@),
                retrieval_run(hand0, mts0, tbl0, rs, rs.len() as int) == Ok::<
                    (Seq<Tile>, Seq<Seq<Tile>>),
                    RummikubError,
                >((h@, tiles_view(tb@))),
                table_jokers(new_table_melds@) >= retrievals@.len() as int,
                plays == played_tiles@,
                hand_len == h@.len(),
                n_plays == plays.len(),
                plays_ok(plays, hand_len as int),
                table_total(new_table_melds@) == seq_seq_total(tiles_view(tb@))
                    + plays.len() as int,
                n_new == new_table_melds@.len(),
                m2 <= n_new,
                forall|v: int|
                    0 <= v < m2 ==> meld_ok(
                        (#[trigger] new_table_melds@[v]).meld_type,
                        new_table_melds@[v].tiles@,
                    ),
            decreases n_new - m2,
        {
            match new_table_melds[m2].validate() {
                Ok(()) => {},
                Err(e) => {
                    proof {
                        lemma_first_invalid_meld(new_table_melds@);
                        lemma_meld_result_distinct(
                            new_table_melds@[m2 as int].meld_type,
                            new_table_melds@[m2 as int].tiles@,
                        );
                        let b = first_invalid_meld(new_table_melds@);
                        assert(b != -1);
                        assert(b == m2 as int) by {
                            if b < m2 as int {
                                assert(meld_ok(
                                    new_table_melds@[b].meld_type,
                                    new_table_melds@[b].tiles@,
                                ));
                            }
                        }
                    }
                    return Err(e);
                },
            }
            m2 += 1;
        }
        proof {
            lemma_first_invalid_meld(new_table_melds@);
        }

        // commit: remove the claimed tiles from the post-retrieval
        // hand, replace the table wholesale
        let mut new_hand: Vec<Tile> = Vec::new();
        let mut k2: usize = 0;
        while k2 < hand_len
            invariant
                *self == *old(self),
                old(self).wf(),
                old(self).game_status is InProgress,
                old(self).spec_has_player(*player),
                old(self).spec_player_index(*player) == old(self).current_turn as int,
                i as int == old(self).current_turn as int,
                i < old(self).players@.len(),
                old(self).players@[i as int].has_opened == true,
                played_tiles@.len() > retrievals@.len(),
                rs == retrievals@,
                hand0 == old(self).players@[i as int].tiles@,
                mts0 == types_view(old(self).table_melds@),
                tbl0 == tiles_view(old(self).table_melds@),
                retrieval_run(hand0, mts0, tbl0, rs, rs.len() as int) == Ok::<
                    (Seq<Tile>, Seq<Seq<Tile>>),
                    RummikubError,
                >((h@, tiles_view(tb@))),
                table_jokers(new_table_melds@) >= retrievals@.len() as int,
                plays == played_tiles@,
                hand_len == h@.len(),
                n_plays == plays.len(),
                plays_ok(plays, hand_len as int),
                table_total(new_table_melds@) == seq_seq_total(tiles_view(tb@))
                    + plays.len() as int,
                first_invalid_meld(new_table_melds@) == -1,
                k2 <= hand_len,
                new_hand@ == keep_except(h@.take(k2 as int), claimed_set(plays)),
                new_hand@.len() <= k2,
            decreases hand_len - k2,
        {
            let mut claimed = false;
            let mut t3: usize = 0;
            while t3 < n_plays
                invariant
                    plays == played_tiles@,
                    n_plays == plays.len(),
                    t3 <= n_plays,
                    claimed <==> exists|v: int|
                        0 <= v < t3 && (#[trigger] plays[v]).tile_index as int == k2 as int,
                decreases n_plays - t3,
            {
                if played_tiles[t3].tile_index as usize == k2 {
                    claimed = true;
                }
                t3 += 1;
            }
            proof {
                assert(claimed <==> claimed_set(plays).contains(k2 as int));
                assert(h@.take(k2 as int + 1).drop_last() =~= h@.take(k2 as int));
                assert(h@.take(k2 as int + 1).last() == h@[k2 as int]);
                lemma_keep_except_len(h@.take(k2 as int), claimed_set(plays));
                lemma_in_range_count_bound(k2 as int, claimed_set(plays));
            }
            if !claimed {
                new_hand.push(h[k2]);
            }
            k2 += 1;
        }
        proof {
            assert(h@.take(hand_len as int) =~= h@);
            lemma_keep_except_len(h@, claimed_set(plays));
            lemma_retrieval_run_props(hand0, mts0, tbl0, rs, rs.len() as int);
            lemma_keep_except_wf(h@, claimed_set(plays));
            lemma_claimed_count(plays, hand_len as int);
            assert(hand0.len() <= HAND_CAPACITY as int) by {
                assert(old(self).players@[i as int].wf());
            }
            lemma_tiles_view_total(tb@);
            lemma_tiles_view_total(old(self).table_melds@);
        }
        let new_hand_len = new_hand.len();
        let ghost prev = self.players@;
        let p = &mut self.players[i];
        p.tiles = new_hand;
        p.tile_count = new_hand_len as u8;
        p.has_opened = true;
        self.table_melds = new_table_melds;
        proof {
            lemma_hands_total_update(prev, i as int, self.players@[i as int]);
        }

        // win detection, else the turn advances
        if self.players[i].tiles.len() == 0 {
            let ghost mid = *self;
            match self.end_game(i) {
                Ok(()) => {},
                Err(e) => {
                    proof {
                        assert(false);
                    }
                    return Err(e);
                },
            }
            proof {
                crate::game::lemma_others_value_to_same(
                    mid.players@,
                    old(self).players@,
                    i as int,
                    old(self).players@.len() as int,
                );
            }
        } else {
            self.next_turn();
        }
        Ok(())
    }
}

} // verus!
