//! Meld structural legality: the rules deciding whether a group of
//! tiles is a valid set or run.
//!
//! The executable validator walks the tiles once and reports the
//! first violation it meets; [`meld_result`] is the specification of
//! that decision, and [`meld_ok`] the declarative statement of
//! validity that the `Ok` outcome is proved equivalent to.

use vstd::prelude::*;
use crate::tiles::{Tile, TileColor, TileType};
use crate::errors::RummikubError;

verus! {

/// The two meld shapes.
#[derive(Clone, Copy, PartialEq, Eq, Structural, Debug)]
pub enum MeldType {
    /// 3-4 tiles of one number in distinct colors.
    Group,
    /// 3 or more tiles of one color with consecutive numbers.
    Run,
}

/// A played group of tiles, either a set or a run.
#[derive(Clone, Debug)]
pub struct Meld {
    pub meld_type: MeldType,
    pub tiles: Vec<Tile>,
}

// ---------------------------------------------------------------------
// Counting and extremum helpers over a tile sequence.
// ---------------------------------------------------------------------

/// Number of jokers in `s`.
pub open spec fn count_jokers(s: Seq<Tile>) -> int
    decreases s.len(),
{
    if s.len() == 0 {
        0
    } else {
        count_jokers(s.drop_last()) + if s.last().is_joker() { 1int } else { 0int }
    }
}

/// Number of real (numbered) tiles in `s`.
pub open spec fn count_reals(s: Seq<Tile>) -> int
    decreases s.len(),
{
    if s.len() == 0 {
        0
    } else {
        count_reals(s.drop_last()) + if s.last().is_number() { 1int } else { 0int }
    }
}

/// Largest number carried by a real tile of `s`; 0 if there is none.
pub open spec fn max_number(s: Seq<Tile>) -> int
    decreases s.len(),
{
    if s.len() == 0 {
        0
    } else {
        let m = max_number(s.drop_last());
        if s.last().is_number() && s.last().number() > m {
            s.last().number() as int
        } else {
            m
        }
    }
}

/// Smallest number carried by a real tile of `s`; 255 if there is none.
pub open spec fn min_number(s: Seq<Tile>) -> int
    decreases s.len(),
{
    if s.len() == 0 {
        255
    } else {
        let m = min_number(s.drop_last());
        if s.last().is_number() && s.last().number() < m {
            s.last().number() as int
        } else {
            m
        }
    }
}

/// Some real tile occurs in `s`.
pub open spec fn has_real(s: Seq<Tile>) -> bool {
    exists|i: int| 0 <= i < s.len() && (#[trigger] s[i]).is_number()
}

// ---------------------------------------------------------------------
// The walk: per-tile checks, in the order the validator makes them.
// ---------------------------------------------------------------------

/// Tile `k` of a set disagrees in number with an earlier real tile.
pub open spec fn set_number_mismatch(s: Seq<Tile>, k: int) -> bool {
    s[k].is_number() && exists|j: int|
        0 <= j < k && (#[trigger] s[j]).is_number() && s[j].number() != s[k].number()
}

/// Tile `k` of a set agrees in number but repeats an earlier color.
pub open spec fn set_color_repeat(s: Seq<Tile>, k: int) -> bool {
    &&& s[k].is_number()
    &&& !set_number_mismatch(s, k)
    &&& exists|j: int|
        0 <= j < k && (#[trigger] s[j]).is_number() && s[j].color() == s[k].color()
}

/// Tile `k` passes the set walk given the tiles before it.
pub open spec fn set_tile_ok(s: Seq<Tile>, k: int) -> bool {
    &&& !s[k].is_empty()
    &&& !set_number_mismatch(s, k)
    &&& !set_color_repeat(s, k)
}

/// The set walk reaches tile `k` without stopping.
pub open spec fn set_walk_ok(s: Seq<Tile>, k: int) -> bool {
    forall|i: int| 0 <= i < k ==> #[trigger] set_tile_ok(s, i)
}

/// Tile `k` of a run disagrees in color with an earlier real tile.
pub open spec fn run_color_mismatch(s: Seq<Tile>, k: int) -> bool {
    s[k].is_number() && exists|j: int|
        0 <= j < k && (#[trigger] s[j]).is_number() && s[j].color() != s[k].color()
}

/// Tile `k` of a run carries a number below the 1..=13 board range.
pub open spec fn run_number_low(s: Seq<Tile>, k: int) -> bool {
    s[k].is_number() && s[k].number() < 1
}

/// Tile `k` passes the run walk given the tiles before it.
pub open spec fn run_tile_ok(s: Seq<Tile>, k: int) -> bool {
    &&& !s[k].is_empty()
    &&& !run_color_mismatch(s, k)
    &&& !run_number_low(s, k)
}

/// The run walk reaches tile `k` without stopping.
pub open spec fn run_walk_ok(s: Seq<Tile>, k: int) -> bool {
    forall|i: int| 0 <= i < k ==> #[trigger] run_tile_ok(s, i)
}

/// Two distinct positions of `s` hold real tiles with equal numbers.
pub open spec fn has_duplicate_number(s: Seq<Tile>) -> bool {
    exists|i: int, j: int|
        0 <= i < j < s.len() && (#[trigger] s[i]).is_number() && (#[trigger] s[j]).is_number()
            && s[i].number() == s[j].number()
}

// ---------------------------------------------------------------------
// Declarative validity.
// ---------------------------------------------------------------------

/// A structurally legal set: 3 or 4 tiles, no sentinel, all real
/// tiles share one number and carry pairwise distinct colors, and at
/// least one real tile exists (jokers stand for the missing colors).
pub open spec fn set_ok(s: Seq<Tile>) -> bool {
    &&& 3 <= s.len() <= 4
    &&& forall|i: int| 0 <= i < s.len() ==> !(#[trigger] s[i]).is_empty()
    &&& forall|i: int, j: int|
        0 <= i < s.len() && 0 <= j < s.len() && (#[trigger] s[i]).is_number()
            && (#[trigger] s[j]).is_number() ==> s[i].number() == s[j].number()
    &&& forall|i: int, j: int|
        0 <= i < j < s.len() && (#[trigger] s[i]).is_number() && (#[trigger] s[j]).is_number()
            ==> s[i].color() != s[j].color()
    &&& has_real(s)
}

/// A structurally legal run: at least 3 tiles, no sentinel, all real
/// tiles share one color and carry pairwise distinct numbers within
/// 1..=13, and the jokers exactly fill the missing numbers between
/// the smallest and the largest (never extending past either end).
pub open spec fn run_ok(s: Seq<Tile>) -> bool {
    &&& s.len() >= 3
    &&& forall|i: int| 0 <= i < s.len() ==> !(#[trigger] s[i]).is_empty()
    &&& forall|i: int, j: int|
        0 <= i < s.len() && 0 <= j < s.len() && (#[trigger] s[i]).is_number()
            && (#[trigger] s[j]).is_number() ==> s[i].color() == s[j].color()
    &&& forall|i: int| 0 <= i < s.len() && (#[trigger] s[i]).is_number() ==> 1 <= s[i].number()
    &&& !has_duplicate_number(s)
    &&& has_real(s)
    &&& max_number(s) <= 13
    &&& count_jokers(s) + count_reals(s) == max_number(s) - min_number(s) + 1
}

/// A structurally legal meld of either shape.
pub open spec fn meld_ok(mt: MeldType, s: Seq<Tile>) -> bool {
    &&& s.len() >= 3
    &&& match mt {
        MeldType::Group => set_ok(s),
        MeldType::Run => run_ok(s),
    }
}

// ---------------------------------------------------------------------
// The exact decision, including which error is reported first.
// ---------------------------------------------------------------------

/// The set walk stops at `k` on the empty sentinel.
pub open spec fn set_stop_empty(s: Seq<Tile>, k: int) -> bool {
    0 <= k < s.len() && set_walk_ok(s, k) && s[k].is_empty()
}

/// The set walk stops at `k` on a number mismatch.
pub open spec fn set_stop_mismatch(s: Seq<Tile>, k: int) -> bool {
    0 <= k < s.len() && set_walk_ok(s, k) && set_number_mismatch(s, k)
}

/// The set walk stops at `k` on a repeated color.
pub open spec fn set_stop_color(s: Seq<Tile>, k: int) -> bool {
    0 <= k < s.len() && set_walk_ok(s, k) && set_color_repeat(s, k)
}

/// The exact outcome of validating `s` as a set (3 or more tiles).
pub open spec fn set_result(s: Seq<Tile>) -> Result<(), RummikubError> {
    if s.len() > 4 {
        Err(RummikubError::InvalidSet)
    } else if exists|k: int| #[trigger] set_stop_empty(s, k) {
        Err(RummikubError::EmptyTileInMeld)
    } else if exists|k: int| #[trigger] set_stop_mismatch(s, k) {
        Err(RummikubError::InvalidSet)
    } else if exists|k: int| #[trigger] set_stop_color(s, k) {
        Err(RummikubError::DuplicateColorInSet)
    } else if !has_real(s) {
        Err(RummikubError::SetMustHaveRealTile)
    } else {
        Ok(())
    }
}

/// The run walk stops at `k` on the empty sentinel.
pub open spec fn run_stop_empty(s: Seq<Tile>, k: int) -> bool {
    0 <= k < s.len() && run_walk_ok(s, k) && s[k].is_empty()
}

/// The run walk stops at `k` on a color mismatch or an out-of-range
/// number.
pub open spec fn run_stop_invalid(s: Seq<Tile>, k: int) -> bool {
    0 <= k < s.len() && run_walk_ok(s, k) && (run_color_mismatch(s, k) || run_number_low(s, k))
}

/// The exact outcome of validating `s` as a run (3 or more tiles).
pub open spec fn run_result(s: Seq<Tile>) -> Result<(), RummikubError> {
    if exists|k: int| #[trigger] run_stop_empty(s, k) {
        Err(RummikubError::EmptyTileInMeld)
    } else if exists|k: int| #[trigger] run_stop_invalid(s, k) {
        Err(RummikubError::InvalidRun)
    } else if !has_real(s) {
        Err(RummikubError::RunMustHaveRealTile)
    } else if has_duplicate_number(s) {
        Err(RummikubError::DuplicateNumberInRun)
    } else if count_jokers(s) + count_reals(s) != max_number(s) - min_number(s) + 1 {
        Err(RummikubError::InvalidJokerPlacement)
    } else if max_number(s) > 13 {
        Err(RummikubError::RunCannotWrap)
    } else {
        Ok(())
    }
}

/// The exact outcome of validating a meld of shape `mt` over `s`.
pub open spec fn meld_result(mt: MeldType, s: Seq<Tile>) -> Result<(), RummikubError> {
    if s.len() < 3 {
        Err(RummikubError::MeldTooSmall)
    } else {
        match mt {
            MeldType::Group => set_result(s),
            MeldType::Run => run_result(s),
        }
    }
}

// ---------------------------------------------------------------------
// Facts about the counting helpers.
// ---------------------------------------------------------------------

/// Extending a prefix by one tile moves each counter by that tile's
/// class, and the extrema by its number.
pub proof fn lemma_prefix_step(s: Seq<Tile>, k: int)
    requires
        0 <= k < s.len(),
    ensures
        count_jokers(s.take(k + 1)) == count_jokers(s.take(k)) + if s[k].is_joker() {
            1int
        } else {
            0int
        },
        count_reals(s.take(k + 1)) == count_reals(s.take(k)) + if s[k].is_number() {
            1int
        } else {
            0int
        },
        max_number(s.take(k + 1)) == if s[k].is_number() && s[k].number() > max_number(s.take(k)) {
            s[k].number() as int
        } else {
            max_number(s.take(k))
        },
        min_number(s.take(k + 1)) == if s[k].is_number() && s[k].number() < min_number(s.take(k)) {
            s[k].number() as int
        } else {
            min_number(s.take(k))
        },
{
    assert(s.take(k + 1).drop_last() =~= s.take(k));
    assert(s.take(k + 1).last() == s[k]);
}

/// The counters are bounded by the length, and the real-tile counter
/// is positive exactly when a real tile exists.
pub proof fn lemma_counts(s: Seq<Tile>)
    ensures
        0 <= count_jokers(s) <= s.len(),
        0 <= count_reals(s) <= s.len(),
        count_reals(s) > 0 <==> has_real(s),
    decreases s.len(),
{
    if s.len() == 0 {
    } else {
        lemma_counts(s.drop_last());
        if s.last().is_number() {
            assert(has_real(s));
        } else {
            if has_real(s) {
                let i = choose|i: int| 0 <= i < s.len() && (#[trigger] s[i]).is_number();
                assert(i < s.len() - 1);
                assert(s.drop_last()[i] == s[i]);
                assert(has_real(s.drop_last()));
            }
            if has_real(s.drop_last()) {
                let i = choose|i: int|
                    0 <= i < s.len() - 1 && (#[trigger] s.drop_last()[i]).is_number();
                assert(s[i] == s.drop_last()[i]);
                assert(has_real(s));
            }
        }
    }
}

/// When no tile is the empty sentinel, every tile is a joker or a
/// real tile, so the two counters partition the length.
pub proof fn lemma_count_partition(s: Seq<Tile>)
    requires
        forall|i: int| 0 <= i < s.len() ==> !(#[trigger] s[i]).is_empty(),
    ensures
        count_jokers(s) + count_reals(s) == s.len(),
    decreases s.len(),
{
    if s.len() > 0 {
        assert(forall|i: int| 0 <= i < s.len() - 1 ==> s.drop_last()[i] == s[i]);
        lemma_count_partition(s.drop_last());
        assert(!s.last().is_empty());
    }
}

/// The extrema bound every real tile's number and are attained.
pub proof fn lemma_minmax(s: Seq<Tile>)
    ensures
        forall|i: int|
            0 <= i < s.len() && (#[trigger] s[i]).is_number() ==> min_number(s) <= s[i].number()
                <= max_number(s),
        has_real(s) ==> exists|i: int|
            0 <= i < s.len() && (#[trigger] s[i]).is_number() && s[i].number() == max_number(s),
        has_real(s) ==> exists|i: int|
            0 <= i < s.len() && (#[trigger] s[i]).is_number() && s[i].number() == min_number(s),
    decreases s.len(),
{
    if s.len() > 0 {
        lemma_minmax(s.drop_last());
        lemma_counts(s);
        lemma_counts(s.drop_last());
        assert(forall|i: int| 0 <= i < s.len() - 1 ==> s.drop_last()[i] == s[i]);
        let n = s.len() - 1;
        if has_real(s) {
            if s.last().is_number() {
                assert(s[n].is_number());
                if has_real(s.drop_last()) {
                    let a = choose|i: int|
                        0 <= i < s.len() - 1 && (#[trigger] s.drop_last()[i]).is_number()
                            && s.drop_last()[i].number() == max_number(s.drop_last());
                    let b = choose|i: int|
                        0 <= i < s.len() - 1 && (#[trigger] s.drop_last()[i]).is_number()
                            && s.drop_last()[i].number() == min_number(s.drop_last());
                    assert(s[a].is_number() && s[a].number() == max_number(s.drop_last()));
                    assert(s[b].is_number() && s[b].number() == min_number(s.drop_last()));
                    if s.last().number() > max_number(s.drop_last()) {
                        assert(s[n].number() == max_number(s));
                    } else {
                        assert(s[a].number() == max_number(s));
                    }
                    if s.last().number() < min_number(s.drop_last()) {
                        assert(s[n].number() == min_number(s));
                    } else {
                        assert(s[b].number() == min_number(s));
                    }
                } else {
                    // no earlier real tile: the last tile attains both
                    // extrema (the idle defaults are 0 and 255)
                    assert(max_number(s.drop_last()) == 0 && min_number(s.drop_last()) == 255)
                        by {
                        lemma_minmax_defaults(s.drop_last());
                    }
                    assert(s[n].number() == max_number(s));
                    assert(s[n].number() == min_number(s));
                }
            } else {
                let w = choose|i: int| 0 <= i < s.len() && (#[trigger] s[i]).is_number();
                assert(w < s.len() - 1);
                assert(s.drop_last()[w] == s[w]);
                assert(has_real(s.drop_last()));
                let a = choose|i: int|
                    0 <= i < s.len() - 1 && (#[trigger] s.drop_last()[i]).is_number()
                        && s.drop_last()[i].number() == max_number(s.drop_last());
                let b = choose|i: int|
                    0 <= i < s.len() - 1 && (#[trigger] s.drop_last()[i]).is_number()
                        && s.drop_last()[i].number() == min_number(s.drop_last());
                assert(s[a].is_number() && s[a].number() == max_number(s));
                assert(s[b].is_number() && s[b].number() == min_number(s));
            }
        }
    }
}

/// Without a real tile the extrema keep their idle defaults.
proof fn lemma_minmax_defaults(s: Seq<Tile>)
    requires
        !has_real(s),
    ensures
        max_number(s) == 0,
        min_number(s) == 255,
    decreases s.len(),
{
    if s.len() > 0 {
        assert(forall|i: int| 0 <= i < s.len() - 1 ==> s.drop_last()[i] == s[i]);
        assert(!s[s.len() - 1].is_number());
        lemma_minmax_defaults(s.drop_last());
    }
}

// ---------------------------------------------------------------------
// Facts about the walks.
// ---------------------------------------------------------------------

/// A walk can stop at most once: the stop index is unique.
proof fn lemma_set_stop_unique(s: Seq<Tile>, k1: int, k2: int)
    requires
        0 <= k1 < s.len(),
        0 <= k2 < s.len(),
        set_walk_ok(s, k1) && !set_tile_ok(s, k1),
        set_walk_ok(s, k2) && !set_tile_ok(s, k2),
    ensures
        k1 == k2,
{
    if k1 < k2 {
        assert(set_tile_ok(s, k1));
    }
    if k2 < k1 {
        assert(set_tile_ok(s, k2));
    }
}

/// Same for runs.
proof fn lemma_run_stop_unique(s: Seq<Tile>, k1: int, k2: int)
    requires
        0 <= k1 < s.len(),
        0 <= k2 < s.len(),
        run_walk_ok(s, k1) && !run_tile_ok(s, k1),
        run_walk_ok(s, k2) && !run_tile_ok(s, k2),
    ensures
        k1 == k2,
{
    if k1 < k2 {
        assert(run_tile_ok(s, k1));
    }
    if k2 < k1 {
        assert(run_tile_ok(s, k2));
    }
}

/// If a prefix of the set walk fails, some earlier index is the
/// first stop.
proof fn lemma_set_walk_finds_stop(s: Seq<Tile>, k: int)
    requires
        0 <= k <= s.len(),
        !set_walk_ok(s, k),
    ensures
        exists|i: int| 0 <= i < k && #[trigger] set_walk_ok(s, i) && !set_tile_ok(s, i),
    decreases k,
{
    assert(k > 0);
    if set_walk_ok(s, k - 1) {
        assert(!set_tile_ok(s, k - 1));
    } else {
        lemma_set_walk_finds_stop(s, k - 1);
    }
}

/// Same for runs.
proof fn lemma_run_walk_finds_stop(s: Seq<Tile>, k: int)
    requires
        0 <= k <= s.len(),
        !run_walk_ok(s, k),
    ensures
        exists|i: int| 0 <= i < k && #[trigger] run_walk_ok(s, i) && !run_tile_ok(s, i),
    decreases k,
{
    assert(k > 0);
    if run_walk_ok(s, k - 1) {
        assert(!run_tile_ok(s, k - 1));
    } else {
        lemma_run_walk_finds_stop(s, k - 1);
    }
}

/// At a stop of the set walk, the reported error is fixed by the
/// kind of violation found there.
proof fn lemma_set_result_at_stop(s: Seq<Tile>, k: int)
    requires
        3 <= s.len() <= 4,
        0 <= k < s.len(),
        set_walk_ok(s, k),
        !set_tile_ok(s, k),
    ensures
        s[k].is_empty() ==> set_result(s) == Err::<(), RummikubError>(
            RummikubError::EmptyTileInMeld,
        ),
        set_number_mismatch(s, k) ==> set_result(s) == Err::<(), RummikubError>(
            RummikubError::InvalidSet,
        ),
        set_color_repeat(s, k) ==> set_result(s) == Err::<(), RummikubError>(
            RummikubError::DuplicateColorInSet,
        ),
{
    assert forall|k2: int| #[trigger] set_stop_empty(s, k2) implies k2 == k
        && s[k].is_empty() by {
        lemma_set_stop_unique(s, k, k2);
    }
    assert forall|k2: int| #[trigger] set_stop_mismatch(s, k2) implies k2 == k
        && set_number_mismatch(s, k) by {
        lemma_set_stop_unique(s, k, k2);
    }
    assert forall|k2: int| #[trigger] set_stop_color(s, k2) implies k2 == k
        && set_color_repeat(s, k) by {
        lemma_set_stop_unique(s, k, k2);
    }
    if s[k].is_empty() {
        assert(set_stop_empty(s, k));
    } else if set_number_mismatch(s, k) {
        assert(set_stop_mismatch(s, k));
    } else if set_color_repeat(s, k) {
        assert(set_stop_color(s, k));
    }
}

/// Same for the run walk.
proof fn lemma_run_result_at_stop(s: Seq<Tile>, k: int)
    requires
        s.len() >= 3,
        0 <= k < s.len(),
        run_walk_ok(s, k),
        !run_tile_ok(s, k),
    ensures
        s[k].is_empty() ==> run_result(s) == Err::<(), RummikubError>(
            RummikubError::EmptyTileInMeld,
        ),
        run_color_mismatch(s, k) || run_number_low(s, k) ==> run_result(s) == Err::<(),
            RummikubError,
        >(RummikubError::InvalidRun),
{
    assert forall|k2: int| #[trigger] run_stop_empty(s, k2) implies k2 == k
        && s[k].is_empty() by {
        lemma_run_stop_unique(s, k, k2);
    }
    assert forall|k2: int| #[trigger] run_stop_invalid(s, k2) implies k2 == k by {
        lemma_run_stop_unique(s, k, k2);
    }
    if s[k].is_empty() {
        assert(run_stop_empty(s, k));
    } else if run_color_mismatch(s, k) || run_number_low(s, k) {
        assert(run_stop_invalid(s, k));
    }
}

/// When the whole set walk went through, no stop exists.
proof fn lemma_set_result_walked(s: Seq<Tile>)
    requires
        set_walk_ok(s, s.len() as int),
    ensures
        !(exists|k: int| #[trigger] set_stop_empty(s, k)),
        !(exists|k: int| #[trigger] set_stop_mismatch(s, k)),
        !(exists|k: int| #[trigger] set_stop_color(s, k)),
{
    assert forall|k: int| !(#[trigger] set_stop_empty(s, k)) by {
        if 0 <= k < s.len() {
            assert(set_tile_ok(s, k));
        }
    }
    assert forall|k: int| !(#[trigger] set_stop_mismatch(s, k)) by {
        if 0 <= k < s.len() {
            assert(set_tile_ok(s, k));
        }
    }
    assert forall|k: int| !(#[trigger] set_stop_color(s, k)) by {
        if 0 <= k < s.len() {
            assert(set_tile_ok(s, k));
        }
    }
}

/// Same for the run walk.
proof fn lemma_run_result_walked(s: Seq<Tile>)
    requires
        run_walk_ok(s, s.len() as int),
    ensures
        !(exists|k: int| #[trigger] run_stop_empty(s, k)),
        !(exists|k: int| #[trigger] run_stop_invalid(s, k)),
{
    assert forall|k: int| !(#[trigger] run_stop_empty(s, k)) by {
        if 0 <= k < s.len() {
            assert(run_tile_ok(s, k));
        }
    }
    assert forall|k: int| !(#[trigger] run_stop_invalid(s, k)) by {
        if 0 <= k < s.len() {
            assert(run_tile_ok(s, k));
        }
    }
}

/// A finished set walk is exactly the pairwise part of `set_ok`.
proof fn lemma_set_walk_characterizes(s: Seq<Tile>)
    ensures
        set_walk_ok(s, s.len() as int) <==> {
            &&& forall|i: int| 0 <= i < s.len() ==> !(#[trigger] s[i]).is_empty()
            &&& forall|i: int, j: int|
                0 <= i < s.len() && 0 <= j < s.len() && (#[trigger] s[i]).is_number()
                    && (#[trigger] s[j]).is_number() ==> s[i].number() == s[j].number()
            &&& forall|i: int, j: int|
                0 <= i < j < s.len() && (#[trigger] s[i]).is_number()
                    && (#[trigger] s[j]).is_number() ==> s[i].color() != s[j].color()
        },
{
    if set_walk_ok(s, s.len() as int) {
        assert forall|i: int, j: int|
            0 <= i < s.len() && 0 <= j < s.len() && (#[trigger] s[i]).is_number()
                && (#[trigger] s[j]).is_number() implies s[i].number() == s[j].number() by {
            if i < j {
                assert(set_tile_ok(s, j));
                assert(!set_number_mismatch(s, j));
            } else if j < i {
                assert(set_tile_ok(s, i));
                assert(!set_number_mismatch(s, i));
            }
        }
        assert forall|i: int, j: int|
            0 <= i < j < s.len() && (#[trigger] s[i]).is_number()
                && (#[trigger] s[j]).is_number() implies s[i].color() != s[j].color() by {
            assert(set_tile_ok(s, j));
            assert(!set_color_repeat(s, j));
            assert(!set_number_mismatch(s, j));
        }
        assert forall|i: int| 0 <= i < s.len() implies !(#[trigger] s[i]).is_empty() by {
            assert(set_tile_ok(s, i));
        }
    } else {
        lemma_set_walk_finds_stop(s, s.len() as int);
        let k = choose|i: int|
            0 <= i < s.len() && #[trigger] set_walk_ok(s, i) && !set_tile_ok(s, i);
        if s[k].is_empty() {
        } else if set_number_mismatch(s, k) {
        } else {
            assert(set_color_repeat(s, k));
        }
    }
}

/// A finished run walk is exactly the pairwise part of `run_ok`.
proof fn lemma_run_walk_characterizes(s: Seq<Tile>)
    ensures
        run_walk_ok(s, s.len() as int) <==> {
            &&& forall|i: int| 0 <= i < s.len() ==> !(#[trigger] s[i]).is_empty()
            &&& forall|i: int, j: int|
                0 <= i < s.len() && 0 <= j < s.len() && (#[trigger] s[i]).is_number()
                    && (#[trigger] s[j]).is_number() ==> s[i].color() == s[j].color()
            &&& forall|i: int|
                0 <= i < s.len() && (#[trigger] s[i]).is_number() ==> 1 <= s[i].number()
        },
{
    if run_walk_ok(s, s.len() as int) {
        assert forall|i: int, j: int|
            0 <= i < s.len() && 0 <= j < s.len() && (#[trigger] s[i]).is_number()
                && (#[trigger] s[j]).is_number() implies s[i].color() == s[j].color() by {
            if i < j {
                assert(run_tile_ok(s, j));
                assert(!run_color_mismatch(s, j));
            } else if j < i {
                assert(run_tile_ok(s, i));
                assert(!run_color_mismatch(s, i));
            }
        }
        assert forall|i: int| 0 <= i < s.len() implies !(#[trigger] s[i]).is_empty()
            && ((#[trigger] s[i]).is_number() ==> 1 <= s[i].number()) by {
            assert(run_tile_ok(s, i));
        }
    } else {
        lemma_run_walk_finds_stop(s, s.len() as int);
        let k = choose|i: int|
            0 <= i < s.len() && #[trigger] run_walk_ok(s, i) && !run_tile_ok(s, i);
        if s[k].is_empty() {
        } else if run_color_mismatch(s, k) {
        } else {
            assert(run_number_low(s, k));
        }
    }
}

/// The decision accepts a set exactly when `set_ok` holds.
proof fn lemma_set_result_ok(s: Seq<Tile>)
    requires
        s.len() >= 3,
    ensures
        set_result(s) is Ok <==> set_ok(s),
{
    lemma_set_walk_characterizes(s);
    if set_result(s) is Ok {
        assert(s.len() <= 4);
        if !set_walk_ok(s, s.len() as int) {
            lemma_set_walk_finds_stop(s, s.len() as int);
            let k = choose|i: int|
                0 <= i < s.len() && #[trigger] set_walk_ok(s, i) && !set_tile_ok(s, i);
            if s[k].is_empty() {
                assert(set_stop_empty(s, k));
            } else if set_number_mismatch(s, k) {
                assert(set_stop_mismatch(s, k));
            } else {
                assert(set_color_repeat(s, k));
                assert(set_stop_color(s, k));
            }
            assert(false);
        }
        assert(has_real(s));
    }
    if set_ok(s) {
        lemma_set_result_walked(s);
    }
}

/// The decision accepts a run exactly when `run_ok` holds.
proof fn lemma_run_result_ok(s: Seq<Tile>)
    requires
        s.len() >= 3,
    ensures
        run_result(s) is Ok <==> run_ok(s),
{
    lemma_run_walk_characterizes(s);
    if run_result(s) is Ok {
        if !run_walk_ok(s, s.len() as int) {
            lemma_run_walk_finds_stop(s, s.len() as int);
            let k = choose|i: int|
                0 <= i < s.len() && #[trigger] run_walk_ok(s, i) && !run_tile_ok(s, i);
            if s[k].is_empty() {
                assert(run_stop_empty(s, k));
            } else {
                assert(run_stop_invalid(s, k));
            }
            assert(false);
        }
    }
    if run_ok(s) {
        lemma_run_result_walked(s);
    }
}

/// The decision accepts a meld exactly when it is structurally legal.
pub proof fn lemma_meld_result_iff(mt: MeldType, s: Seq<Tile>)
    ensures
        meld_result(mt, s) is Ok <==> meld_ok(mt, s),
{
    if s.len() >= 3 {
        match mt {
            MeldType::Group => lemma_set_result_ok(s),
            MeldType::Run => lemma_run_result_ok(s),
        }
    }
}

/// Law: a legal meld holds 3 to 13 tiles, a set at most 4: a run's
/// size equals its number span, which fits within 1..=13.
pub proof fn lemma_meld_ok_len(mt: MeldType, s: Seq<Tile>)
    requires
        meld_ok(mt, s),
    ensures
        3 <= s.len() <= 13,
        mt == MeldType::Group ==> s.len() <= 4,
{
    match mt {
        MeldType::Group => {},
        MeldType::Run => {
            lemma_count_partition(s);
            lemma_counts(s);
            lemma_minmax(s);
            let w = choose|i: int|
                0 <= i < s.len() && (#[trigger] s[i]).is_number() && s[i].number() == min_number(
                    s,
                );
            assert(min_number(s) >= 1);
        },
    }
}

// ---------------------------------------------------------------------
// Laws of the validator.
// ---------------------------------------------------------------------

/// Law: for at least 3 sentinel-free tiles whose real tiles share one
/// color and carry strictly increasing numbers within 1..=13, run
/// validity holds exactly when the joker count equals the count of
/// missing numbers between the smallest and the largest real number.
/// In particular, one joker more or fewer is rejected.
pub proof fn lemma_run_gap_rule(s: Seq<Tile>)
    requires
        s.len() >= 3,
        forall|i: int| 0 <= i < s.len() ==> !(#[trigger] s[i]).is_empty(),
        forall|i: int, j: int|
            0 <= i < s.len() && 0 <= j < s.len() && (#[trigger] s[i]).is_number()
                && (#[trigger] s[j]).is_number() ==> s[i].color() == s[j].color(),
        forall|i: int, j: int|
            0 <= i < j < s.len() && (#[trigger] s[i]).is_number() && (#[trigger] s[j]).is_number()
                ==> s[i].number() < s[j].number(),
        forall|i: int|
            0 <= i < s.len() && (#[trigger] s[i]).is_number() ==> 1 <= s[i].number() <= 13,
    ensures
        run_ok(s) <==> count_jokers(s) + count_reals(s) == max_number(s) - min_number(s) + 1,
        meld_result(MeldType::Run, s) is Ok <==> count_jokers(s) + count_reals(s) == max_number(
            s,
        ) - min_number(s) + 1,
{
    lemma_counts(s);
    lemma_minmax(s);
    lemma_run_result_ok(s);
    if count_jokers(s) + count_reals(s) == max_number(s) - min_number(s) + 1 {
        if !has_real(s) {
            lemma_minmax_defaults(s);
            assert(false);
        }
        assert(!has_duplicate_number(s)) by {
            if has_duplicate_number(s) {
                let (i, j): (int, int) = choose|i: int, j: int|
                    0 <= i < j < s.len() && (#[trigger] s[i]).is_number()
                        && (#[trigger] s[j]).is_number() && s[i].number() == s[j].number();
                assert(s[i].number() < s[j].number());
            }
        }
        let w = choose|i: int|
            0 <= i < s.len() && (#[trigger] s[i]).is_number() && s[i].number() == max_number(s);
        assert(max_number(s) <= 13);
    }
}

/// Law: 3 or 4 sentinel-free tiles whose real tiles (at least one)
/// share one number and carry pairwise distinct colors are accepted
/// as a set.
pub proof fn lemma_set_acceptance(s: Seq<Tile>)
    requires
        3 <= s.len() <= 4,
        forall|i: int| 0 <= i < s.len() ==> !(#[trigger] s[i]).is_empty(),
        forall|i: int, j: int|
            0 <= i < s.len() && 0 <= j < s.len() && (#[trigger] s[i]).is_number()
                && (#[trigger] s[j]).is_number() ==> s[i].number() == s[j].number(),
        forall|i: int, j: int|
            0 <= i < j < s.len() && (#[trigger] s[i]).is_number() && (#[trigger] s[j]).is_number()
                ==> s[i].color() != s[j].color(),
        has_real(s),
    ensures
        set_ok(s),
        meld_result(MeldType::Group, s) is Ok,
{
    lemma_set_result_ok(s);
}

/// Law: a fifth tile always makes a set fail.
pub proof fn lemma_set_too_large(s: Seq<Tile>)
    requires
        s.len() >= 5,
    ensures
        !set_ok(s),
        meld_result(MeldType::Group, s) == Err::<(), RummikubError>(RummikubError::InvalidSet),
{
}

/// Law: a repeated real color always makes a set fail.
pub proof fn lemma_set_duplicate_color_rejected(s: Seq<Tile>, i: int, j: int)
    requires
        0 <= i < j < s.len(),
        s[i].is_number(),
        s[j].is_number(),
        s[i].color() == s[j].color(),
    ensures
        !set_ok(s),
        meld_result(MeldType::Group, s) is Err,
{
    if s.len() >= 3 {
        lemma_set_result_ok(s);
    }
}

// ---------------------------------------------------------------------
// The executable validator.
// ---------------------------------------------------------------------

impl Meld {
    /// Validate this meld's structural legality.  The result is the
    /// exact decision [`meld_result`], and it is `Ok` precisely on the
    /// structurally legal melds described by [`meld_ok`].
    pub fn validate(&self) -> (r: Result<(), RummikubError>)
        ensures
            r == meld_result(self.meld_type, self.tiles@),
            r is Ok <==> meld_ok(self.meld_type, self.tiles@),
    {
        if self.tiles.len() < 3 {
            return Err(RummikubError::MeldTooSmall);
        }
        proof {
            match self.meld_type {
                MeldType::Group => lemma_set_result_ok(self.tiles@),
                MeldType::Run => lemma_run_result_ok(self.tiles@),
            }
        }
        match self.meld_type {
            MeldType::Group => self.validate_set(),
            MeldType::Run => self.validate_run(),
        }
    }

    /// The set walk: one number, distinct colors, 3-4 tiles.
    fn validate_set(&self) -> (r: Result<(), RummikubError>)
        requires
            self.tiles@.len() >= 3,
        ensures
            r == set_result(self.tiles@),
    {
        let ghost s = self.tiles@;
        let n = self.tiles.len();
        if n > 4 {
            return Err(RummikubError::InvalidSet);
        }
        let mut number: Option<u8> = None;
        let mut rcount: usize = 0;
        let mut jcount: usize = 0;
        let mut k: usize = 0;
        while k < n
            invariant
                s == self.tiles@,
                n == s.len(),
                3 <= n <= 4,
                k <= n,
                set_walk_ok(s, k as int),
                rcount == count_reals(s.take(k as int)),
                jcount == count_jokers(s.take(k as int)),
                match number {
                    Option::None => rcount == 0,
                    Option::Some(m0) => rcount > 0 && (exists|j: int|
                        0 <= j < k && (#[trigger] s[j]).is_number() && s[j].number() == m0),
                },
            decreases n - k,
        {
            proof {
                lemma_prefix_step(s, k as int);
                lemma_counts(s.take(k as int));
                assert(forall|j: int| 0 <= j < k ==> s.take(k as int)[j] == s[j]);
            }
            match self.tiles[k].tile_type {
                TileType::Number { color: c, number: m } => {
                    match number {
                        Option::Some(m0) => {
                            proof {
                                let w = choose|j: int|
                                    0 <= j < k && (#[trigger] s[j]).is_number() && s[j].number()
                                        == m0;
                                assert forall|j: int|
                                    0 <= j < k && (#[trigger] s[j]).is_number()
                                        implies s[j].number() == m0 by {
                                    if j < w {
                                        assert(set_tile_ok(s, w));
                                    } else if j > w {
                                        assert(set_tile_ok(s, j));
                                    }
                                }
                            }
                            if m != m0 {
                                proof {
                                    assert(set_number_mismatch(s, k as int));
                                    lemma_set_result_at_stop(s, k as int);
                                }
                                return Err(RummikubError::InvalidSet);
                            }
                            proof {
                                assert(!set_number_mismatch(s, k as int));
                            }
                        }
                        Option::None => {
                            proof {
                                assert(!has_real(s.take(k as int)));
                                assert(forall|j: int|
                                    0 <= j < k ==> !(#[trigger] s[j]).is_number());
                                assert(!set_number_mismatch(s, k as int));
                            }
                            number = Some(m);
                        }
                    }
                    // scan earlier tiles for a repeated color
                    let mut j: usize = 0;
                    while j < k
                        invariant
                            s == self.tiles@,
                            n == s.len(),
                            3 <= n <= 4,
                            j <= k < n,
                            s[k as int].is_number(),
                            s[k as int].color() == c,
                            set_walk_ok(s, k as int),
                            !set_number_mismatch(s, k as int),
                            forall|i: int|
                                0 <= i < j ==> !((#[trigger] s[i]).is_number() && s[i].color()
                                    == c),
                        decreases k - j,
                    {
                        match self.tiles[j].tile_type {
                            TileType::Number { color: c2, number: _ } => {
                                if c2 == c {
                                    proof {
                                        assert(set_color_repeat(s, k as int));
                                        lemma_set_result_at_stop(s, k as int);
                                    }
                                    return Err(RummikubError::DuplicateColorInSet);
                                }
                            }
                            _ => {}
                        }
                        j += 1;
                    }
                    proof {
                        assert(!set_color_repeat(s, k as int));
                        assert(set_tile_ok(s, k as int));
                        assert forall|i: int| 0 <= i < k + 1 implies #[trigger] set_tile_ok(
                            s,
                            i,
                        ) by {}
                    }
                    rcount += 1;
                }
                TileType::Joker => {
                    proof {
                        assert(set_tile_ok(s, k as int));
                    }
                    jcount += 1;
                }
                TileType::Empty => {
                    proof {
                        lemma_set_result_at_stop(s, k as int);
                    }
                    return Err(RummikubError::EmptyTileInMeld);
                }
            }
            k += 1;
        }
        proof {
            assert(s.take(n as int) =~= s);
            lemma_set_result_walked(s);
            lemma_counts(s);
            lemma_set_walk_characterizes(s);
            lemma_count_partition(s);
        }
        if rcount == 0 {
            return Err(RummikubError::SetMustHaveRealTile);
        }
        // distinct colors used plus jokers must name 3 or 4 colors;
        // provably equal to the meld size once the walk went through
        let used = rcount + jcount;
        if used < 3 || used > 4 {
            return Err(RummikubError::InvalidSet);
        }
        if used > 4 {
            return Err(RummikubError::TooManyJokersInSet);
        }
        Ok(())
    }

    /// The run walk: one color, distinct numbers, jokers fill the gaps.
    fn validate_run(&self) -> (r: Result<(), RummikubError>)
        requires
            self.tiles@.len() >= 3,
        ensures
            r == run_result(self.tiles@),
    {
        let ghost s = self.tiles@;
        let n = self.tiles.len();
        let mut color: Option<TileColor> = None;
        let mut rcount: usize = 0;
        let mut jcount: usize = 0;
        let mut rmin: u8 = 255;
        let mut rmax: u8 = 0;
        let mut k: usize = 0;
        while k < n
            invariant
                s == self.tiles@,
                n == s.len(),
                n >= 3,
                k <= n,
                run_walk_ok(s, k as int),
                rcount == count_reals(s.take(k as int)),
                jcount == count_jokers(s.take(k as int)),
                rmin as int == min_number(s.take(k as int)),
                rmax as int == max_number(s.take(k as int)),
                match color {
                    Option::None => rcount == 0,
                    Option::Some(c0) => rcount > 0 && (exists|j: int|
                        0 <= j < k && (#[trigger] s[j]).is_number() && s[j].color() == c0),
                },
            decreases n - k,
        {
            proof {
                lemma_prefix_step(s, k as int);
                lemma_counts(s.take(k as int));
                assert(forall|j: int| 0 <= j < k ==> s.take(k as int)[j] == s[j]);
            }
            match self.tiles[k].tile_type {
                TileType::Number { color: c, number: m } => {
                    match color {
                        Option::Some(c0) => {
                            proof {
                                let w = choose|j: int|
                                    0 <= j < k && (#[trigger] s[j]).is_number() && s[j].color()
                                        == c0;
                                assert forall|j: int|
                                    0 <= j < k && (#[trigger] s[j]).is_number()
                                        implies s[j].color() == c0 by {
                                    if j < w {
                                        assert(run_tile_ok(s, w));
                                    } else if j > w {
                                        assert(run_tile_ok(s, j));
                                    }
                                }
                            }
                            if c != c0 {
                                proof {
                                    assert(run_color_mismatch(s, k as int));
                                    lemma_run_result_at_stop(s, k as int);
                                }
                                return Err(RummikubError::InvalidRun);
                            }
                            proof {
                                assert(!run_color_mismatch(s, k as int));
                            }
                        }
                        Option::None => {
                            proof {
                                assert(!has_real(s.take(k as int)));
                                assert(forall|j: int|
                                    0 <= j < k ==> !(#[trigger] s[j]).is_number());
                                assert(!run_color_mismatch(s, k as int));
                            }
                            color = Some(c);
                        }
                    }
                    if m < 1 {
                        proof {
                            assert(run_number_low(s, k as int));
                            lemma_run_result_at_stop(s, k as int);
                        }
                        return Err(RummikubError::InvalidRun);
                    }
                    proof {
                        assert(run_tile_ok(s, k as int));
                    }
                    rcount += 1;
                    if m < rmin {
                        rmin = m;
                    }
                    if m > rmax {
                        rmax = m;
                    }
                }
                TileType::Joker => {
                    proof {
                        assert(run_tile_ok(s, k as int));
                    }
                    jcount += 1;
                }
                TileType::Empty => {
                    proof {
                        lemma_run_result_at_stop(s, k as int);
                    }
                    return Err(RummikubError::EmptyTileInMeld);
                }
            }
            k += 1;
        }
        proof {
            assert(s.take(n as int) =~= s);
            lemma_run_result_walked(s);
            lemma_counts(s);
            lemma_run_walk_characterizes(s);
            lemma_count_partition(s);
            lemma_minmax(s);
        }
        if rcount == 0 {
            return Err(RummikubError::RunMustHaveRealTile);
        }
        // reject exact duplicates among the real numbers
        let mut i: usize = 0;
        while i < n
            invariant
                s == self.tiles@,
                n == s.len(),
                i <= n,
                run_walk_ok(s, n as int),
                has_real(s),
                forall|a: int, b: int|
                    0 <= a < i && a < b < n && (#[trigger] s[a]).is_number()
                        && (#[trigger] s[b]).is_number() ==> s[a].number() != s[b].number(),
            decreases n - i,
        {
            match self.tiles[i].tile_type {
                TileType::Number { color: _, number: mi } => {
                    let mut j: usize = i + 1;
                    while j < n
                        invariant
                            s == self.tiles@,
                            n == s.len(),
                            i < j <= n,
                            run_walk_ok(s, n as int),
                            has_real(s),
                            s[i as int].is_number(),
                            s[i as int].number() == mi,
                            forall|b: int|
                                i < b < j && (#[trigger] s[b]).is_number() ==> s[b].number()
                                    != mi,
                        decreases n - j,
                    {
                        match self.tiles[j].tile_type {
                            TileType::Number { color: _, number: mj } => {
                                if mi == mj {
                                    proof {
                                        assert(has_duplicate_number(s));
                                        lemma_run_result_walked(s);
                                    }
                                    return Err(RummikubError::DuplicateNumberInRun);
                                }
                            }
                            _ => {}
                        }
                        j += 1;
                    }
                }
                _ => {}
            }
            i += 1;
        }
        proof {
            assert(!has_duplicate_number(s));
            assert(has_real(s));
        }
        // the jokers must fill the interior gaps exactly
        let span = (rmax - rmin) as usize + 1;
        if jcount + rcount != span {
            return Err(RummikubError::InvalidJokerPlacement);
        }
        if rmax > 13 {
            return Err(RummikubError::RunCannotWrap);
        }
        Ok(())
    }
}

} // verus!
