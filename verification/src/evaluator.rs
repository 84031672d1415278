//! Constant-time 5-card hand evaluator.
//!
//! A hand of five cards is mapped to a rank in [1, 7462], lower is better.
//! The rank space is partitioned into fixed bands:
//!
//! | Band        | Category                          |
//! |-------------|-----------------------------------|
//! | 1           | Royal flush (ace-high straight flush) |
//! | 2-10        | Other straight flushes            |
//! | 11-166      | Four of a kind                    |
//! | 167-322     | Full house                        |
//! | 323-1599    | Flush (non-straight)              |
//! | 1600-1609   | Straight (non-flush)              |
//! | 1610-2467   | Three of a kind                   |
//! | 2468-3325   | Two pair                          |
//! | 3326-6185   | One pair                          |
//! | 6186-7462   | High card                         |
//!
//! Hands with five distinct ranks are looked up by their 13-bit rank bitmask
//! in one of two tables of 8192 entries, built once by `init_tables`. Paired
//! hands are ranked from their rank multiplicities in the canonical order of
//! each band: repeated rank(s) first, then kickers high-to-low, the kicker
//! set placed by precomputed enumeration-index tables.

use vstd::multiset::Multiset;
use vstd::prelude::*;

verus! {

broadcast use vstd::seq_lib::group_to_multiset_ensures;

// ── Spec: cards and rank multiplicities ─────────────────────────────

/// A card id is in [0, 51]: rank = id / 4 (0 = deuce .. 12 = ace), suit = id % 4.
pub open spec fn valid_cards(s: Seq<int>) -> bool {
    forall|i: int| 0 <= i < s.len() ==> 0 <= #[trigger] s[i] < 52
}

/// Number of cards in `s` of rank index `r` (order-independent).
pub open spec fn rank_count(s: Seq<int>, r: int) -> nat {
    s.to_multiset().count(4 * r) + s.to_multiset().count(4 * r + 1)
        + s.to_multiset().count(4 * r + 2) + s.to_multiset().count(4 * r + 3)
}

/// The 13 rank multiplicities of a set of cards, as a sequence indexed by rank.
pub open spec fn counts_of(s: Seq<int>) -> Seq<int> {
    Seq::new(13, |r: int| rank_count(s, r) as int)
}

/// All cards share one suit (order-independent).
pub open spec fn all_same_suit(s: Seq<int>) -> bool {
    forall|x: int, y: int|
        s.to_multiset().count(x) > 0 && s.to_multiset().count(y) > 0 ==> x % 4 == y % 4
}

// ── Spec: the rank bitmask and derived quantities ───────────────────

/// 2^i, for the value of bit `i`.
pub open spec fn bit_value(i: int) -> int
    decreases i,
{
    if i <= 0 {
        1
    } else {
        2 * bit_value(i - 1)
    }
}

/// The rank bitmask restricted to ranks below `i`: bit `r` is set iff
/// `c[r] > 0`, where `c` is a 13-entry multiplicity sequence.
pub open spec fn mask_upto(c: Seq<int>, i: int) -> int
    decreases i,
{
    if i <= 0 {
        0
    } else {
        mask_upto(c, i - 1) + if c[i - 1] > 0 {
            bit_value(i - 1)
        } else {
            0
        }
    }
}

/// The 13-bit rank bitmask of a multiplicity sequence.
pub open spec fn rank_mask(c: Seq<int>) -> int {
    mask_upto(c, 13)
}

/// Number of distinct ranks below `i`.
pub open spec fn distinct_upto(c: Seq<int>, i: int) -> nat
    decreases i,
{
    if i <= 0 {
        0
    } else {
        distinct_upto(c, i - 1) + if c[i - 1] > 0 {
            1nat
        } else {
            0nat
        }
    }
}

/// Number of distinct ranks in a multiplicity sequence.
pub open spec fn distinct_ranks(c: Seq<int>) -> nat {
    distinct_upto(c, 13)
}

// ── Spec: straights and the bitmask enumeration ─────────────────────

/// Index of a straight bitmask among the ten straights, best first:
/// 0 is ace-high, 8 is six-high, 9 is the five-high wheel; -1 otherwise.
pub open spec fn straight_index(b: int) -> int {
    if b == 0x1f00 {
        0
    } else if b == 0x0f80 {
        1
    } else if b == 0x07c0 {
        2
    } else if b == 0x03e0 {
        3
    } else if b == 0x01f0 {
        4
    } else if b == 0x00f8 {
        5
    } else if b == 0x007c {
        6
    } else if b == 0x003e {
        7
    } else if b == 0x001f {
        8
    } else if b == 0x100f {
        9
    } else {
        -1
    }
}

/// Number of set bits of a 13-bit value.
pub open spec fn pop13(b: int) -> nat
    decreases b,
{
    if b <= 0 {
        0
    } else {
        (b % 2) as nat + pop13(b / 2)
    }
}

/// A bitmask that stands for five distinct ranks not forming a straight.
pub open spec fn nonstraight5(b: int) -> bool {
    pop13(b) == 5 && straight_index(b) < 0
}

/// Number of non-straight five-rank bitmasks in [lo, hi).
pub open spec fn ns5_count(lo: int, hi: int) -> nat
    decreases hi - lo,
{
    if lo >= hi {
        0
    } else {
        (if nonstraight5(lo) {
            1nat
        } else {
            0nat
        }) + ns5_count(lo + 1, hi)
    }
}


/// Number of bitmasks in [lo, hi) with exactly `k` set bits.
pub open spec fn popk_count(k: int, lo: int, hi: int) -> nat
    decreases hi - lo,
{
    if lo >= hi {
        0
    } else {
        (if pop13(lo) == k {
            1nat
        } else {
            0nat
        }) + popk_count(k, lo + 1, hi)
    }
}

/// Counting set-bit masks over adjacent intervals adds up.
proof fn lemma_popk_split(k: int, lo: int, mid: int, hi: int)
    requires
        lo <= mid <= hi,
    ensures
        popk_count(k, lo, hi) == popk_count(k, lo, mid) + popk_count(k, mid, hi),
    decreases mid - lo,
{
    if lo < mid {
        lemma_popk_split(k, lo + 1, mid, hi);
    }
}

/// No mask has a negative number of set bits.
proof fn lemma_popk_neg(k: int, lo: int, hi: int)
    requires
        k < 0,
    ensures
        popk_count(k, lo, hi) == 0,
    decreases hi - lo,
{
    if lo < hi {
        lemma_popk_neg(k, lo + 1, hi);
    }
}

/// Sliding a window up by bit `j` turns `k`-bit masks into `k-1`-bit masks:
/// the added bit contributes one set bit to every mask in the window.
proof fn lemma_popk_shift(k: int, j: int, lo: int, hi: int)
    requires
        0 <= j,
        0 <= lo <= hi <= bit_value(j),
    ensures
        popk_count(k, lo + bit_value(j), hi + bit_value(j)) == popk_count(k - 1, lo, hi),
    decreases hi - lo,
{
    if lo < hi {
        lemma_pop_add_power(lo, j);
        lemma_popk_shift(k, j, lo + 1, hi);
    }
}

/// One step of the Pascal recursion: the masks below 2^(j+1) with `k` set
/// bits are those below 2^j with `k` bits plus, bit `j` set, those with
/// `k-1` bits.
proof fn lemma_popk_double(k: int, j: int)
    requires
        0 <= j,
    ensures
        popk_count(k, 0, bit_value(j + 1)) == popk_count(k, 0, bit_value(j)) + popk_count(
            k - 1,
            0,
            bit_value(j),
        ),
{
    lemma_bit_value_pos(j);
    assert(bit_value(j + 1) == 2 * bit_value(j));
    lemma_popk_split(k, 0, bit_value(j), bit_value(j + 1));
    lemma_popk_shift(k, j, 0, bit_value(j));
}

/// There are C(13, 5) = 1287 bitmasks below 2^13 with exactly five set bits,
/// by walking the Pascal recursion up the thirteen bits.
proof fn lemma_popk_total()
    ensures
        popk_count(5, 0, 8192) == 1287,
        popk_count(2, 0, 8192) == 78,
        popk_count(2, 0, 4096) == 66,
        popk_count(3, 0, 4096) == 220,
{
    reveal_with_fuel(bit_value, 15);
    reveal_with_fuel(popk_count, 3);
    assert(pop13(0) == 0);
    assert(popk_count(0, 0, 1) == 1);
    assert(popk_count(1, 0, 1) == 0);
    assert(popk_count(2, 0, 1) == 0);
    assert(popk_count(3, 0, 1) == 0);
    assert(popk_count(4, 0, 1) == 0);
    assert(popk_count(5, 0, 1) == 0);
    assert(popk_count(6, 0, 1) == 0);
    lemma_popk_neg(-1, 0, 1);
    lemma_popk_double(0, 0);
    lemma_popk_double(1, 0);
    lemma_popk_double(2, 0);
    lemma_popk_double(3, 0);
    lemma_popk_double(4, 0);
    lemma_popk_double(5, 0);
    lemma_popk_double(6, 0);
    assert(popk_count(0, 0, 2) == 1);
    assert(popk_count(1, 0, 2) == 1);
    assert(popk_count(2, 0, 2) == 0);
    assert(popk_count(3, 0, 2) == 0);
    assert(popk_count(4, 0, 2) == 0);
    assert(popk_count(5, 0, 2) == 0);
    assert(popk_count(6, 0, 2) == 0);
    lemma_popk_neg(-1, 0, 2);
    lemma_popk_double(0, 1);
    lemma_popk_double(1, 1);
    lemma_popk_double(2, 1);
    lemma_popk_double(3, 1);
    lemma_popk_double(4, 1);
    lemma_popk_double(5, 1);
    lemma_popk_double(6, 1);
    assert(popk_count(0, 0, 4) == 1);
    assert(popk_count(1, 0, 4) == 2);
    assert(popk_count(2, 0, 4) == 1);
    assert(popk_count(3, 0, 4) == 0);
    assert(popk_count(4, 0, 4) == 0);
    assert(popk_count(5, 0, 4) == 0);
    assert(popk_count(6, 0, 4) == 0);
    lemma_popk_neg(-1, 0, 4);
    lemma_popk_double(0, 2);
    lemma_popk_double(1, 2);
    lemma_popk_double(2, 2);
    lemma_popk_double(3, 2);
    lemma_popk_double(4, 2);
    lemma_popk_double(5, 2);
    lemma_popk_double(6, 2);
    assert(popk_count(0, 0, 8) == 1);
    assert(popk_count(1, 0, 8) == 3);
    assert(popk_count(2, 0, 8) == 3);
    assert(popk_count(3, 0, 8) == 1);
    assert(popk_count(4, 0, 8) == 0);
    assert(popk_count(5, 0, 8) == 0);
    assert(popk_count(6, 0, 8) == 0);
    lemma_popk_neg(-1, 0, 8);
    lemma_popk_double(0, 3);
    lemma_popk_double(1, 3);
    lemma_popk_double(2, 3);
    lemma_popk_double(3, 3);
    lemma_popk_double(4, 3);
    lemma_popk_double(5, 3);
    lemma_popk_double(6, 3);
    assert(popk_count(0, 0, 16) == 1);
    assert(popk_count(1, 0, 16) == 4);
    assert(popk_count(2, 0, 16) == 6);
    assert(popk_count(3, 0, 16) == 4);
    assert(popk_count(4, 0, 16) == 1);
    assert(popk_count(5, 0, 16) == 0);
    assert(popk_count(6, 0, 16) == 0);
    lemma_popk_neg(-1, 0, 16);
    lemma_popk_double(0, 4);
    lemma_popk_double(1, 4);
    lemma_popk_double(2, 4);
    lemma_popk_double(3, 4);
    lemma_popk_double(4, 4);
    lemma_popk_double(5, 4);
    lemma_popk_double(6, 4);
    assert(popk_count(0, 0, 32) == 1);
    assert(popk_count(1, 0, 32) == 5);
    assert(popk_count(2, 0, 32) == 10);
    assert(popk_count(3, 0, 32) == 10);
    assert(popk_count(4, 0, 32) == 5);
    assert(popk_count(5, 0, 32) == 1);
    assert(popk_count(6, 0, 32) == 0);
    lemma_popk_neg(-1, 0, 32);
    lemma_popk_double(0, 5);
    lemma_popk_double(1, 5);
    lemma_popk_double(2, 5);
    lemma_popk_double(3, 5);
    lemma_popk_double(4, 5);
    lemma_popk_double(5, 5);
    lemma_popk_double(6, 5);
    assert(popk_count(0, 0, 64) == 1);
    assert(popk_count(1, 0, 64) == 6);
    assert(popk_count(2, 0, 64) == 15);
    assert(popk_count(3, 0, 64) == 20);
    assert(popk_count(4, 0, 64) == 15);
    assert(popk_count(5, 0, 64) == 6);
    assert(popk_count(6, 0, 64) == 1);
    lemma_popk_neg(-1, 0, 64);
    lemma_popk_double(0, 6);
    lemma_popk_double(1, 6);
    lemma_popk_double(2, 6);
    lemma_popk_double(3, 6);
    lemma_popk_double(4, 6);
    lemma_popk_double(5, 6);
    lemma_popk_double(6, 6);
    assert(popk_count(0, 0, 128) == 1);
    assert(popk_count(1, 0, 128) == 7);
    assert(popk_count(2, 0, 128) == 21);
    assert(popk_count(3, 0, 128) == 35);
    assert(popk_count(4, 0, 128) == 35);
    assert(popk_count(5, 0, 128) == 21);
    assert(popk_count(6, 0, 128) == 7);
    lemma_popk_neg(-1, 0, 128);
    lemma_popk_double(0, 7);
    lemma_popk_double(1, 7);
    lemma_popk_double(2, 7);
    lemma_popk_double(3, 7);
    lemma_popk_double(4, 7);
    lemma_popk_double(5, 7);
    lemma_popk_double(6, 7);
    assert(popk_count(0, 0, 256) == 1);
    assert(popk_count(1, 0, 256) == 8);
    assert(popk_count(2, 0, 256) == 28);
    assert(popk_count(3, 0, 256) == 56);
    assert(popk_count(4, 0, 256) == 70);
    assert(popk_count(5, 0, 256) == 56);
    assert(popk_count(6, 0, 256) == 28);
    lemma_popk_neg(-1, 0, 256);
    lemma_popk_double(0, 8);
    lemma_popk_double(1, 8);
    lemma_popk_double(2, 8);
    lemma_popk_double(3, 8);
    lemma_popk_double(4, 8);
    lemma_popk_double(5, 8);
    lemma_popk_double(6, 8);
    assert(popk_count(0, 0, 512) == 1);
    assert(popk_count(1, 0, 512) == 9);
    assert(popk_count(2, 0, 512) == 36);
    assert(popk_count(3, 0, 512) == 84);
    assert(popk_count(4, 0, 512) == 126);
    assert(popk_count(5, 0, 512) == 126);
    assert(popk_count(6, 0, 512) == 84);
    lemma_popk_neg(-1, 0, 512);
    lemma_popk_double(0, 9);
    lemma_popk_double(1, 9);
    lemma_popk_double(2, 9);
    lemma_popk_double(3, 9);
    lemma_popk_double(4, 9);
    lemma_popk_double(5, 9);
    lemma_popk_double(6, 9);
    assert(popk_count(0, 0, 1024) == 1);
    assert(popk_count(1, 0, 1024) == 10);
    assert(popk_count(2, 0, 1024) == 45);
    assert(popk_count(3, 0, 1024) == 120);
    assert(popk_count(4, 0, 1024) == 210);
    assert(popk_count(5, 0, 1024) == 252);
    assert(popk_count(6, 0, 1024) == 210);
    lemma_popk_neg(-1, 0, 1024);
    lemma_popk_double(0, 10);
    lemma_popk_double(1, 10);
    lemma_popk_double(2, 10);
    lemma_popk_double(3, 10);
    lemma_popk_double(4, 10);
    lemma_popk_double(5, 10);
    lemma_popk_double(6, 10);
    assert(popk_count(0, 0, 2048) == 1);
    assert(popk_count(1, 0, 2048) == 11);
    assert(popk_count(2, 0, 2048) == 55);
    assert(popk_count(3, 0, 2048) == 165);
    assert(popk_count(4, 0, 2048) == 330);
    assert(popk_count(5, 0, 2048) == 462);
    assert(popk_count(6, 0, 2048) == 462);
    lemma_popk_neg(-1, 0, 2048);
    lemma_popk_double(0, 11);
    lemma_popk_double(1, 11);
    lemma_popk_double(2, 11);
    lemma_popk_double(3, 11);
    lemma_popk_double(4, 11);
    lemma_popk_double(5, 11);
    lemma_popk_double(6, 11);
    assert(popk_count(0, 0, 4096) == 1);
    assert(popk_count(1, 0, 4096) == 12);
    assert(popk_count(2, 0, 4096) == 66);
    assert(popk_count(3, 0, 4096) == 220);
    assert(popk_count(4, 0, 4096) == 495);
    assert(popk_count(5, 0, 4096) == 792);
    assert(popk_count(6, 0, 4096) == 924);
    lemma_popk_neg(-1, 0, 4096);
    lemma_popk_double(0, 12);
    lemma_popk_double(1, 12);
    lemma_popk_double(2, 12);
    lemma_popk_double(3, 12);
    lemma_popk_double(4, 12);
    lemma_popk_double(5, 12);
    lemma_popk_double(6, 12);
    assert(popk_count(0, 0, 8192) == 1);
    assert(popk_count(1, 0, 8192) == 13);
    assert(popk_count(2, 0, 8192) == 78);
    assert(popk_count(3, 0, 8192) == 286);
    assert(popk_count(4, 0, 8192) == 715);
    assert(popk_count(5, 0, 8192) == 1287);
    assert(popk_count(6, 0, 8192) == 1716);
}

/// On an interval free of straight bitmasks the two counts agree.
proof fn lemma_ns5_eq_popk(lo: int, hi: int)
    requires
        lo <= hi,
        forall|x: int| lo <= x < hi ==> straight_index(x) < 0,
    ensures
        ns5_count(lo, hi) == popk_count(5, lo, hi),
    decreases hi - lo,
{
    if lo < hi {
        lemma_ns5_eq_popk(lo + 1, hi);
    }
}

/// Every straight bitmask has five set bits.
proof fn lemma_straights_pop5()
    ensures
        forall|b: int| straight_index(b) >= 0 ==> pop13(b) == 5,
{
    reveal_with_fuel(pop13, 15);
    assert(pop13(0x1f00) == 5);
    assert(pop13(0x0f80) == 5);
    assert(pop13(0x07c0) == 5);
    assert(pop13(0x03e0) == 5);
    assert(pop13(0x01f0) == 5);
    assert(pop13(0x00f8) == 5);
    assert(pop13(0x007c) == 5);
    assert(pop13(0x003e) == 5);
    assert(pop13(0x001f) == 5);
    assert(pop13(0x100f) == 5);
}

/// Counting over adjacent intervals adds up.
proof fn lemma_ns5_count_split(lo: int, mid: int, hi: int)
    requires
        lo <= mid <= hi,
    ensures
        ns5_count(lo, hi) == ns5_count(lo, mid) + ns5_count(mid, hi),
    decreases mid - lo,
{
    if lo < mid {
        lemma_ns5_count_split(lo + 1, mid, hi);
    }
}

/// There are exactly 1277 non-straight five-rank bitmasks: the 1287 five-bit
/// masks minus the ten straights, each sitting in its own slot of the scan.
proof fn lemma_ns5_total()
    ensures
        ns5_count(0, 8192) == 1277,
{
    lemma_popk_total();
    lemma_straights_pop5();
    lemma_ns5_count_split(0, 31, 8192);
    lemma_popk_split(5, 0, 31, 8192);
    lemma_ns5_count_split(31, 32, 8192);
    lemma_popk_split(5, 31, 32, 8192);
    lemma_ns5_count_split(32, 62, 8192);
    lemma_popk_split(5, 32, 62, 8192);
    lemma_ns5_count_split(62, 63, 8192);
    lemma_popk_split(5, 62, 63, 8192);
    lemma_ns5_count_split(63, 124, 8192);
    lemma_popk_split(5, 63, 124, 8192);
    lemma_ns5_count_split(124, 125, 8192);
    lemma_popk_split(5, 124, 125, 8192);
    lemma_ns5_count_split(125, 248, 8192);
    lemma_popk_split(5, 125, 248, 8192);
    lemma_ns5_count_split(248, 249, 8192);
    lemma_popk_split(5, 248, 249, 8192);
    lemma_ns5_count_split(249, 496, 8192);
    lemma_popk_split(5, 249, 496, 8192);
    lemma_ns5_count_split(496, 497, 8192);
    lemma_popk_split(5, 496, 497, 8192);
    lemma_ns5_count_split(497, 992, 8192);
    lemma_popk_split(5, 497, 992, 8192);
    lemma_ns5_count_split(992, 993, 8192);
    lemma_popk_split(5, 992, 993, 8192);
    lemma_ns5_count_split(993, 1984, 8192);
    lemma_popk_split(5, 993, 1984, 8192);
    lemma_ns5_count_split(1984, 1985, 8192);
    lemma_popk_split(5, 1984, 1985, 8192);
    lemma_ns5_count_split(1985, 3968, 8192);
    lemma_popk_split(5, 1985, 3968, 8192);
    lemma_ns5_count_split(3968, 3969, 8192);
    lemma_popk_split(5, 3968, 3969, 8192);
    lemma_ns5_count_split(3969, 4111, 8192);
    lemma_popk_split(5, 3969, 4111, 8192);
    lemma_ns5_count_split(4111, 4112, 8192);
    lemma_popk_split(5, 4111, 4112, 8192);
    lemma_ns5_count_split(4112, 7936, 8192);
    lemma_popk_split(5, 4112, 7936, 8192);
    lemma_ns5_count_split(7936, 7937, 8192);
    lemma_popk_split(5, 7936, 7937, 8192);
    lemma_ns5_eq_popk(0, 31);
    assert(ns5_count(31, 32) == 0);
    assert(popk_count(5, 31, 32) == 1);
    lemma_ns5_eq_popk(32, 62);
    assert(ns5_count(62, 63) == 0);
    assert(popk_count(5, 62, 63) == 1);
    lemma_ns5_eq_popk(63, 124);
    assert(ns5_count(124, 125) == 0);
    assert(popk_count(5, 124, 125) == 1);
    lemma_ns5_eq_popk(125, 248);
    assert(ns5_count(248, 249) == 0);
    assert(popk_count(5, 248, 249) == 1);
    lemma_ns5_eq_popk(249, 496);
    assert(ns5_count(496, 497) == 0);
    assert(popk_count(5, 496, 497) == 1);
    lemma_ns5_eq_popk(497, 992);
    assert(ns5_count(992, 993) == 0);
    assert(popk_count(5, 992, 993) == 1);
    lemma_ns5_eq_popk(993, 1984);
    assert(ns5_count(1984, 1985) == 0);
    assert(popk_count(5, 1984, 1985) == 1);
    lemma_ns5_eq_popk(1985, 3968);
    assert(ns5_count(3968, 3969) == 0);
    assert(popk_count(5, 3968, 3969) == 1);
    lemma_ns5_eq_popk(3969, 4111);
    assert(ns5_count(4111, 4112) == 0);
    assert(popk_count(5, 4111, 4112) == 1);
    lemma_ns5_eq_popk(4112, 7936);
    assert(ns5_count(7936, 7937) == 0);
    assert(popk_count(5, 7936, 7937) == 1);
    lemma_ns5_eq_popk(7937, 8192);
}

/// A non-straight five-rank bitmask has at most 1276 such masks above it.
proof fn lemma_ns5_above_bound(b: int)
    requires
        0 <= b < 8192,
        nonstraight5(b),
    ensures
        ns5_count(b + 1, 8192) <= 1276,
{
    lemma_ns5_total();
    lemma_ns5_count_split(0, b, 8192);
    assert(ns5_count(b, 8192) == 1 + ns5_count(b + 1, 8192));
}

/// The number of `k`-bit masks in [lo, hi) is at most the interval length.
proof fn lemma_popk_count_le(k: int, lo: int, hi: int)
    requires
        lo <= hi,
    ensures
        popk_count(k, lo, hi) <= hi - lo,
    decreases hi - lo,
{
    if lo < hi {
        lemma_popk_count_le(k, lo + 1, hi);
    }
}

/// A `k`-bit mask has strictly fewer greater `k`-bit masks than the total.
proof fn lemma_popk_above_bound(k: int, b: int, space: int)
    requires
        0 <= b < space,
        pop13(b) == k,
    ensures
        popk_count(k, b + 1, space) < popk_count(k, 0, space),
{
    lemma_popk_split(k, 0, b, space);
    assert(popk_count(k, b, space) == 1 + popk_count(k, b + 1, space));
}

/// Among masks with `k` set bits, a greater mask has strictly fewer greater
/// peers: the descending enumeration index is strictly monotone.
proof fn lemma_popk_order(k: int, m1: int, m2: int, space: int)
    requires
        0 <= m2 < m1 < space,
        pop13(m1) == k,
    ensures
        popk_count(k, m1 + 1, space) < popk_count(k, m2 + 1, space),
{
    lemma_popk_split(k, m2 + 1, m1, space);
    assert(popk_count(k, m1, space) == 1 + popk_count(k, m1 + 1, space));
}


// ── The lookup tables ───────────────────────────────────────────────

/// The bitmask-keyed lookup tables. `flush` ranks hands whose five cards
/// share a suit and `unique5` ranks non-flush hands with five distinct ranks;
/// both are total on every bitmask with exactly five set bits. The three
/// index tables place a set of repeated-rank kickers in the descending
/// enumeration of its shape: `duo13` a two-rank set over all 13 ranks,
/// `duo12` and `trio12` a two- or three-rank set over the 12 slots that
/// remain when the repeated rank is taken out.
pub struct Tables {
    pub flush: Vec<u16>,
    pub unique5: Vec<u16>,
    pub duo13: Vec<u16>,
    pub duo12: Vec<u16>,
    pub trio12: Vec<u16>,
}

impl Tables {
    /// The tables hold, for every applicable bitmask, exactly the value the
    /// enumeration assigns: straights in order, the other five-rank masks by
    /// descending bitmask (flushes from 323, high cards from 6186), and each
    /// kicker set the count of greater same-shape sets.
    pub open spec fn wf(&self) -> bool {
        &&& self.flush.len() == 8192
        &&& self.unique5.len() == 8192
        &&& self.duo13.len() == 8192
        &&& self.duo12.len() == 4096
        &&& self.trio12.len() == 4096
        &&& forall|b: int|
            0 <= b < 8192 && straight_index(b) >= 0 ==> self.flush@[b] == 1 + straight_index(b)
                && self.unique5@[b] == 1600 + straight_index(b)
        &&& forall|b: int|
            0 <= b < 8192 && nonstraight5(b) ==> self.flush@[b] == 323 + ns5_count(b + 1, 8192)
                && self.unique5@[b] == 6186 + ns5_count(b + 1, 8192)
        &&& forall|b: int|
            0 <= b < 8192 && pop13(b) == 2 ==> self.duo13@[b] == popk_count(2, b + 1, 8192)
        &&& forall|b: int| 0 <= b < 4096 && pop13(b) == 2 ==> self.duo12@[b] == popk_count(2, b + 1, 4096)
        &&& forall|b: int| 0 <= b < 4096 && pop13(b) == 3 ==> self.trio12@[b] == popk_count(3, b + 1, 4096)
    }
}

/// Straight test on a bitmask, as executable code.
fn straight_index_exec(b: usize) -> (r: i32)
    ensures
        r == straight_index(b as int),
{
    if b == 0x1f00 {
        0
    } else if b == 0x0f80 {
        1
    } else if b == 0x07c0 {
        2
    } else if b == 0x03e0 {
        3
    } else if b == 0x01f0 {
        4
    } else if b == 0x00f8 {
        5
    } else if b == 0x007c {
        6
    } else if b == 0x003e {
        7
    } else if b == 0x001f {
        8
    } else if b == 0x100f {
        9
    } else {
        -1
    }
}

/// Set-bit count of a bitmask, as executable code.
#[verifier::loop_isolation(false)]
fn popcount13(b: usize) -> (r: u32)
    requires
        b < 8192,
    ensures
        r == pop13(b as int),
{
    proof {
        reveal_with_fuel(bit_value, 14);
        lemma_pop_le(b as int, 13);
    }
    let mut x: usize = b;
    let mut r: u32 = 0;
    while x > 0
        invariant
            r + pop13(x as int) == pop13(b as int),
            pop13(b as int) <= 13,
        decreases x,
    {
        proof {
            assert(pop13(x as int) == (x as int % 2) as nat + pop13(x as int / 2));
        }
        r = r + (x % 2) as u32;
        x = x / 2;
    }
    r
}

/// A value below 2^k has at most k set bits.
proof fn lemma_pop_le(b: int, k: int)
    requires
        0 <= k,
        b < bit_value(k),
    ensures
        pop13(b) <= k,
    decreases b,
{
    if b > 0 {
        assert(bit_value(k) == 2 * bit_value(k - 1));
        lemma_pop_le(b / 2, k - 1);
    }
}

/// The number of qualifying masks in [lo, hi) is at most the interval length.
proof fn lemma_ns5_count_le(lo: int, hi: int)
    requires
        lo <= hi,
    ensures
        ns5_count(lo, hi) <= hi - lo,
    decreases hi - lo,
{
    if lo < hi {
        lemma_ns5_count_le(lo + 1, hi);
    }
}

/// Build the lookup tables. Each scan runs over its key space in descending
/// order, so that a numerically greater bitmask (higher top cards, then
/// kickers) gets a better rank or a smaller enumeration index.
#[verifier::loop_isolation(false)]
pub fn init_tables() -> (t: Tables)
    ensures
        t.wf(),
{
    let mut flush: Vec<u16> = Vec::new();
    let mut unique5: Vec<u16> = Vec::new();
    let mut duo13: Vec<u16> = Vec::new();
    let mut i: usize = 0;
    while i < 8192
        invariant
            flush.len() == i,
            unique5.len() == i,
            duo13.len() == i,
            i <= 8192,
        decreases 8192 - i,
    {
        flush.push(0);
        unique5.push(0);
        duo13.push(0);
        i = i + 1;
    }
    let mut duo12: Vec<u16> = Vec::new();
    let mut trio12: Vec<u16> = Vec::new();
    let mut i2: usize = 0;
    while i2 < 4096
        invariant
            duo12.len() == i2,
            trio12.len() == i2,
            i2 <= 4096,
        decreases 4096 - i2,
    {
        duo12.push(0);
        trio12.push(0);
        i2 = i2 + 1;
    }
    let mut b: usize = 8192;
    let mut cnt: u16 = 0;
    let mut cnt2: u16 = 0;
    while b > 0
        invariant
            flush.len() == 8192,
            unique5.len() == 8192,
            duo13.len() == 8192,
            b <= 8192,
            cnt == ns5_count(b as int, 8192),
            cnt2 == popk_count(2, b as int, 8192),
            forall|x: int|
                b <= x < 8192 && straight_index(x) >= 0 ==> flush@[x] == 1 + straight_index(x)
                    && unique5@[x] == 1600 + straight_index(x),
            forall|x: int|
                b <= x < 8192 && nonstraight5(x) ==> flush@[x] == 323 + ns5_count(x + 1, 8192)
                    && unique5@[x] == 6186 + ns5_count(x + 1, 8192),
            forall|x: int|
                b <= x < 8192 && pop13(x) == 2 ==> duo13@[x] == popk_count(2, x + 1, 8192),
        decreases b,
    {
        b = b - 1;
        proof {
            lemma_ns5_count_le(b as int + 1, 8192);
            lemma_popk_count_le(2, b as int + 1, 8192);
        }
        let pc = popcount13(b);
        let si = straight_index_exec(b);
        if si >= 0 {
            flush.set(b, 1 + (si as u16));
            unique5.set(b, 1600 + (si as u16));
        } else if pc == 5 {
            flush.set(b, 323 + cnt);
            unique5.set(b, 6186 + cnt);
            cnt = cnt + 1;
        }
        if pc == 2 {
            duo13.set(b, cnt2);
            cnt2 = cnt2 + 1;
        }
    }
    let mut b2: usize = 4096;
    let mut d2: u16 = 0;
    let mut d3: u16 = 0;
    while b2 > 0
        invariant
            duo12.len() == 4096,
            trio12.len() == 4096,
            b2 <= 4096,
            d2 == popk_count(2, b2 as int, 4096),
            d3 == popk_count(3, b2 as int, 4096),
            forall|x: int|
                b2 <= x < 4096 && pop13(x) == 2 ==> duo12@[x] == popk_count(2, x + 1, 4096),
            forall|x: int|
                b2 <= x < 4096 && pop13(x) == 3 ==> trio12@[x] == popk_count(3, x + 1, 4096),
        decreases b2,
    {
        b2 = b2 - 1;
        proof {
            lemma_popk_count_le(2, b2 as int + 1, 4096);
            lemma_popk_count_le(3, b2 as int + 1, 4096);
        }
        let pc = popcount13(b2);
        if pc == 2 {
            duo12.set(b2, d2);
            d2 = d2 + 1;
        } else if pc == 3 {
            trio12.set(b2, d3);
            d3 = d3 + 1;
        }
    }
    Tables { flush, unique5, duo13, duo12, trio12 }
}

// ── Spec: ranks of paired hands, from the 13 rank multiplicities ────

/// Number of ranks below `i` whose multiplicity is exactly `k`.
pub open spec fn num_with_upto(c: Seq<int>, k: int, i: int) -> nat
    decreases i,
{
    if i <= 0 {
        0
    } else {
        num_with_upto(c, k, i - 1) + if c[i - 1] == k {
            1nat
        } else {
            0nat
        }
    }
}

/// Number of ranks whose multiplicity is exactly `k`.
pub open spec fn num_with(c: Seq<int>, k: int) -> nat {
    num_with_upto(c, k, 13)
}

/// Number of ranks below `i` whose multiplicity exceeds four.
pub open spec fn num_over4_upto(c: Seq<int>, i: int) -> nat
    decreases i,
{
    if i <= 0 {
        0
    } else {
        num_over4_upto(c, i - 1) + if c[i - 1] > 4 {
            1nat
        } else {
            0nat
        }
    }
}

/// Number of ranks whose multiplicity exceeds four.
pub open spec fn num_over4(c: Seq<int>) -> nat {
    num_over4_upto(c, 13)
}

/// Lowest rank below `i` with multiplicity `k`, or 13 if there is none.
pub open spec fn first_with_upto(c: Seq<int>, k: int, i: int) -> int
    decreases i,
{
    if i <= 0 {
        13
    } else if first_with_upto(c, k, i - 1) < 13 {
        first_with_upto(c, k, i - 1)
    } else if c[i - 1] == k {
        i - 1
    } else {
        13
    }
}

/// Lowest rank with multiplicity `k`, or 13 if there is none.
pub open spec fn first_with(c: Seq<int>, k: int) -> int {
    first_with_upto(c, k, 13)
}

/// Highest rank below `i` with multiplicity `k`, or 13 if there is none.
pub open spec fn top_with_upto(c: Seq<int>, k: int, i: int) -> int
    decreases i,
{
    if i <= 0 {
        13
    } else if c[i - 1] == k {
        i - 1
    } else {
        top_with_upto(c, k, i - 1)
    }
}

/// Highest rank with multiplicity `k`, or 13 if there is none.
pub open spec fn top_with(c: Seq<int>, k: int) -> int {
    top_with_upto(c, k, 13)
}

/// Slot of rank `k` among the 12 ranks left when rank `t` is taken out:
/// ranks above `t` slide down one slot.
pub open spec fn squeeze(k: int, t: int) -> int {
    if k > t {
        k - 1
    } else {
        k
    }
}

/// Place of the lone kicker `k` in the descending enumeration of the ranks
/// other than `q`: how many admissible ranks lie above it.
pub open spec fn solo_pos(q: int, k: int) -> int {
    12 - k - (if q > k {
        1int
    } else {
        0int
    })
}

/// Place of the kicker `k` in the descending enumeration of the ranks other
/// than the two pair ranks.
pub open spec fn duo_pos(p1: int, p2: int, k: int) -> int {
    12 - k - (if p1 > k {
        1int
    } else {
        0int
    }) - (if p2 > k {
        1int
    } else {
        0int
    })
}

/// Bitmask, over the 12 slots left by the repeated rank `t`, of the ranks
/// below `i` held exactly once.
pub open spec fn ones_mask_sq(c: Seq<int>, t: int, i: int) -> int
    decreases i,
{
    if i <= 0 {
        0
    } else {
        ones_mask_sq(c, t, i - 1) + if c[i - 1] == 1 {
            bit_value(squeeze(i - 1, t))
        } else {
            0
        }
    }
}

/// Bitmask of the ranks below `i` held exactly twice.
pub open spec fn twos_mask(c: Seq<int>, i: int) -> int
    decreases i,
{
    if i <= 0 {
        0
    } else {
        twos_mask(c, i - 1) + if c[i - 1] == 2 {
            bit_value(i - 1)
        } else {
            0
        }
    }
}

/// Rank of a hand without five distinct ranks, from its multiplicity vector:
/// the canonical ordering of each band. Within a band a hand is placed by its
/// repeated rank(s) first (for two pair, the pair set compared high pair
/// first), then by its kickers high-to-low: the place of the kicker set in
/// the descending enumeration of same-shape sets. Multiplicity vectors that
/// no five-card hand produces rank 7000.
pub open spec fn paired_rank_of(c: Seq<int>) -> int {
    let n1 = num_with(c, 1);
    let n2 = num_with(c, 2);
    let n3 = num_with(c, 3);
    let n4 = num_with(c, 4);
    let o = num_over4(c);
    if n4 == 1 && n1 == 1 && n2 == 0 && n3 == 0 && o == 0 {
        11 + (12 - first_with(c, 4)) * 12 + solo_pos(first_with(c, 4), first_with(c, 1))
    } else if n3 == 1 && n2 == 1 && n1 == 0 && n4 == 0 && o == 0 {
        167 + (12 - first_with(c, 3)) * 12 + solo_pos(first_with(c, 3), first_with(c, 2))
    } else if n3 == 1 && n1 == 2 && n2 == 0 && n4 == 0 && o == 0 {
        1610 + (12 - first_with(c, 3)) * 66 + popk_count(
            2,
            ones_mask_sq(c, first_with(c, 3), 13) + 1,
            4096,
        ) as int
    } else if n2 == 2 && n1 == 1 && n3 == 0 && n4 == 0 && o == 0 {
        2468 + popk_count(2, twos_mask(c, 13) + 1, 8192) as int * 11 + duo_pos(
            top_with(c, 2),
            first_with(c, 2),
            first_with(c, 1),
        )
    } else if n2 == 1 && n1 == 3 && n3 == 0 && n4 == 0 && o == 0 {
        3326 + (12 - first_with(c, 2)) * 220 + popk_count(
            3,
            ones_mask_sq(c, first_with(c, 2), 13) + 1,
            4096,
        ) as int
    } else {
        7000
    }
}

/// The rank of five cards: straight flushes and straights by their bitmask's
/// place among the ten straights; other five-distinct-rank hands by their
/// bitmask's place in the descending enumeration; paired hands from their
/// multiplicity vector.
pub open spec fn spec_eval5(s: Seq<int>) -> int {
    let c = counts_of(s);
    let m = rank_mask(c);
    if distinct_ranks(c) == 5 {
        if straight_index(m) >= 0 {
            if all_same_suit(s) {
                1 + straight_index(m)
            } else {
                1600 + straight_index(m)
            }
        } else if all_same_suit(s) {
            323 + ns5_count(m + 1, 8192) as int
        } else {
            6186 + ns5_count(m + 1, 8192) as int
        }
    } else {
        paired_rank_of(c)
    }
}

// ── Lemmas bridging executable counting to the specification ────────

/// Appending a card raises the multiplicity of its rank by one.
proof fn lemma_rank_count_push(s: Seq<int>, c: int)
    ensures
        forall|r: int|
            rank_count(#[trigger] s.push(c), r) == rank_count(s, r) + if c / 4 == r {
                1nat
            } else {
                0nat
            },
{
    broadcast use vstd::multiset::group_multiset_axioms;

    assert forall|r: int|
        rank_count(s.push(c), r) == rank_count(s, r) + if c / 4 == r {
            1nat
        } else {
            0nat
        } by {
        assert(s.push(c).to_multiset() =~= s.to_multiset().insert(c));
    }
}

/// A rank's multiplicity is at most the number of cards.
proof fn lemma_rank_count_le(s: Seq<int>, r: int)
    ensures
        rank_count(s, r) <= s.len(),
    decreases s.len(),
{
    if s.len() == 0 {
        assert(s.to_multiset().count(4 * r) == 0);
        assert(s.to_multiset().count(4 * r + 1) == 0);
        assert(s.to_multiset().count(4 * r + 2) == 0);
        assert(s.to_multiset().count(4 * r + 3) == 0);
    } else {
        let s0 = s.drop_last();
        assert(s0.push(s.last()) =~= s);
        lemma_rank_count_le(s0, r);
        lemma_rank_count_push(s0, s.last());
    }
}

/// Set-bit count of a partial bitmask equals the distinct-rank count, and the
/// partial bitmask stays below the next bit.
proof fn lemma_pop_mask(c: Seq<int>, i: int)
    requires
        0 <= i,
    ensures
        0 <= mask_upto(c, i) < bit_value(i),
        pop13(mask_upto(c, i)) == distinct_upto(c, i),
    decreases i,
{
    if i > 0 {
        lemma_pop_mask(c, i - 1);
        if c[i - 1] > 0 {
            lemma_pop_add_power(mask_upto(c, i - 1), i - 1);
        }
    }
}

/// Adding bit `k` to a value below 2^k adds one set bit.
proof fn lemma_pop_add_power(m: int, k: int)
    requires
        0 <= k,
        0 <= m < bit_value(k),
    ensures
        pop13(m + bit_value(k)) == pop13(m) + 1,
    decreases k,
{
    if k == 0 {
        assert(m == 0);
        assert(pop13(1) == 1 + pop13(0));
    } else {
        let h = bit_value(k - 1);
        assert(bit_value(k) == 2 * h);
        assert((m + 2 * h) % 2 == m % 2);
        assert((m + 2 * h) / 2 == m / 2 + h);
        assert(m / 2 < h);
        lemma_pop_add_power(m / 2, k - 1);
        assert(pop13(m + 2 * h) == (m % 2) as nat + pop13(m / 2 + h));
        assert(pop13(m) == (m % 2) as nat + pop13(m / 2));
    }
}

/// Bit values are positive.
proof fn lemma_bit_value_pos(i: int)
    ensures
        bit_value(i) >= 1,
    decreases i,
{
    if i > 0 {
        lemma_bit_value_pos(i - 1);
    }
}

/// Bit values grow with the bit index.
proof fn lemma_bit_value_le(i: int, j: int)
    requires
        0 <= i <= j,
    ensures
        1 <= bit_value(i) <= bit_value(j),
    decreases j - i,
{
    lemma_bit_value_pos(i);
    if i < j {
        lemma_bit_value_le(i, j - 1);
        lemma_bit_value_pos(j - 1);
    }
}

/// A lowest or highest rank with a given multiplicity is a real rank index
/// whenever some rank has that multiplicity.
proof fn lemma_with_bounds(c: Seq<int>, k: int, i: int)
    requires
        0 <= i <= 13,
    ensures
        0 <= first_with_upto(c, k, i) <= 13,
        0 <= top_with_upto(c, k, i) <= 13,
        first_with_upto(c, k, i) < 13 ==> first_with_upto(c, k, i) < i,
        top_with_upto(c, k, i) < 13 ==> top_with_upto(c, k, i) < i,
        num_with_upto(c, k, i) > 0 ==> first_with_upto(c, k, i) < i && top_with_upto(c, k, i)
            < i,
        first_with_upto(c, k, i) < 13 ==> c[first_with_upto(c, k, i)] == k,
        top_with_upto(c, k, i) < 13 ==> c[top_with_upto(c, k, i)] == k,
        num_with_upto(c, k, i) >= 2 ==> first_with_upto(c, k, i) < top_with_upto(c, k, i),
        num_with_upto(c, k, i) == 0 ==> first_with_upto(c, k, i) == 13 && top_with_upto(c, k, i)
            == 13,
    decreases i,
{
    if i > 0 {
        lemma_with_bounds(c, k, i - 1);
    }
}

/// The mask of twice-held ranks stays below bit `i` and its set-bit count is
/// the number of such ranks.
proof fn lemma_twos_mask(c: Seq<int>, i: int)
    requires
        0 <= i,
    ensures
        0 <= twos_mask(c, i) < bit_value(i),
        pop13(twos_mask(c, i)) == num_with_upto(c, 2, i),
    decreases i,
{
    if i > 0 {
        lemma_twos_mask(c, i - 1);
        if c[i - 1] == 2 {
            lemma_pop_add_power(twos_mask(c, i - 1), i - 1);
        }
    }
}

/// The squeezed mask of once-held ranks stays below the number of slots seen
/// and its set-bit count is the number of such ranks. The repeated rank `t`
/// must not itself be held once, so every added slot is fresh.
proof fn lemma_ones_mask_sq(c: Seq<int>, t: int, i: int)
    requires
        0 <= i <= 13,
        0 <= t <= 12,
        c[t] != 1,
    ensures
        0 <= ones_mask_sq(c, t, i) < bit_value(
            if i <= t {
                i
            } else {
                i - 1
            },
        ),
        pop13(ones_mask_sq(c, t, i)) == num_with_upto(c, 1, i),
    decreases i,
{
    if i > 0 {
        lemma_ones_mask_sq(c, t, i - 1);
        if c[i - 1] == 1 {
            assert(i - 1 != t);
            assert(squeeze(i - 1, t) == if i - 1 <= t {
                i - 1
            } else {
                i - 2
            });
            lemma_pop_add_power(ones_mask_sq(c, t, i - 1), squeeze(i - 1, t));
        } else {
            if i - 1 > t {
                lemma_bit_value_le(i - 2, i - 1);
            }
        }
    }
}

/// Each paired category lands in its band: the repeated-rank block offset and
/// the kicker-set index stay within the block sizes 12, 12, 66, 78 x 11 and
/// 220 that the canonical enumeration fixes.
proof fn lemma_paired_range(c: Seq<int>)
    ensures
        1 <= paired_rank_of(c) <= 7462,
        (num_with(c, 4) == 1 && num_with(c, 1) == 1 && num_with(c, 2) == 0 && num_with(c, 3) == 0
            && num_over4(c) == 0) ==> 11 <= paired_rank_of(c) <= 166,
        (num_with(c, 3) == 1 && num_with(c, 2) == 1 && num_with(c, 1) == 0 && num_with(c, 4) == 0
            && num_over4(c) == 0) ==> 167 <= paired_rank_of(c) <= 322,
        (num_with(c, 3) == 1 && num_with(c, 1) == 2 && num_with(c, 2) == 0 && num_with(c, 4) == 0
            && num_over4(c) == 0) ==> 1610 <= paired_rank_of(c) <= 2467,
        (num_with(c, 2) == 2 && num_with(c, 1) == 1 && num_with(c, 3) == 0 && num_with(c, 4) == 0
            && num_over4(c) == 0) ==> 2468 <= paired_rank_of(c) <= 3325,
        (num_with(c, 2) == 1 && num_with(c, 1) == 3 && num_with(c, 3) == 0 && num_with(c, 4) == 0
            && num_over4(c) == 0) ==> 3326 <= paired_rank_of(c) <= 6185,
{
    lemma_with_bounds(c, 1, 13);
    lemma_with_bounds(c, 2, 13);
    lemma_with_bounds(c, 3, 13);
    lemma_with_bounds(c, 4, 13);
    lemma_popk_total();
    let n1 = num_with(c, 1);
    let n2 = num_with(c, 2);
    let n3 = num_with(c, 3);
    let n4 = num_with(c, 4);
    let o = num_over4(c);
    if n3 == 1 && n1 == 2 && n2 == 0 && n4 == 0 && o == 0 {
        let t = first_with(c, 3);
        lemma_ones_mask_sq(c, t, 13);
        assert(bit_value(12) == 4096) by {
            reveal_with_fuel(bit_value, 14);
        }
        lemma_popk_above_bound(2, ones_mask_sq(c, t, 13), 4096);
    }
    if n2 == 2 && n1 == 1 && n3 == 0 && n4 == 0 && o == 0 {
        lemma_twos_mask(c, 13);
        assert(bit_value(13) == 8192) by {
            reveal_with_fuel(bit_value, 14);
        }
        lemma_popk_above_bound(2, twos_mask(c, 13), 8192);
    }
    if n2 == 1 && n1 == 3 && n3 == 0 && n4 == 0 && o == 0 {
        let pr = first_with(c, 2);
        lemma_ones_mask_sq(c, pr, 13);
        assert(bit_value(12) == 4096) by {
            reveal_with_fuel(bit_value, 14);
        }
        lemma_popk_above_bound(3, ones_mask_sq(c, pr, 13), 4096);
    }
}

// ── Executable classification ───────────────────────────────────────

/// Count the `k_bits`-bit masks above `m` in [0, space): the place of a
/// kicker set in the descending enumeration of same-shape sets, as
/// executable code without the precomputed tables.
#[verifier::loop_isolation(false)]
fn count_above(k_bits: u32, m: usize, space: usize) -> (r: u16)
    requires
        m < space <= 8192,
    ensures
        r == popk_count(k_bits as int, m as int + 1, space as int),
{
    let mut b: usize = space;
    let mut cnt: u16 = 0;
    while b > m + 1
        invariant
            m < b <= space,
            cnt == popk_count(k_bits as int, b as int, space as int),
        decreases b,
    {
        b = b - 1;
        proof {
            lemma_popk_count_le(k_bits as int, b as int + 1, space as int);
        }
        if popcount13(b) == k_bits {
            cnt = cnt + 1;
        }
    }
    cnt
}

/// Bitmask, over the 12 slots left by the repeated rank `around`, of the
/// ranks held exactly once.
#[verifier::loop_isolation(false)]
fn squeezed_singles_mask(counts: &Vec<u64>, around: usize) -> (m: usize)
    requires
        counts.len() == 13,
        around < 13,
        counts@[around as int] != 1,
    ensures
        m == ones_mask_sq(counts@.map_values(|x: u64| x as int), around as int, 13),
        m < 4096,
{
    let ghost c = counts@.map_values(|x: u64| x as int);
    proof {
        assert(bit_value(12) == 4096) by {
            reveal_with_fuel(bit_value, 14);
        }
    }
    let mut m: usize = 0;
    let mut bit: usize = 1;
    let mut j: usize = 0;
    while j < 13
        invariant
            j <= 13,
            m == ones_mask_sq(c, around as int, j as int),
            bit == bit_value(
                if j <= around {
                    j as int
                } else {
                    j as int - 1
                },
            ),
            bit <= 4096,
            m < bit,
        decreases 13 - j,
    {
        proof {
            if j < around {
                lemma_bit_value_le(j as int + 1, 12);
            } else if j > around {
                lemma_bit_value_le(j as int, 12);
            }
        }
        if counts[j] == 1 {
            m = m + bit;
        }
        if j != around {
            bit = bit * 2;
        }
        j = j + 1;
    }
    m
}

/// Bitmask of the ranks held exactly twice.
#[verifier::loop_isolation(false)]
fn pair_set_mask(counts: &Vec<u64>) -> (m: usize)
    requires
        counts.len() == 13,
    ensures
        m == twos_mask(counts@.map_values(|x: u64| x as int), 13),
        m < 8192,
{
    let ghost c = counts@.map_values(|x: u64| x as int);
    proof {
        assert(bit_value(13) == 8192) by {
            reveal_with_fuel(bit_value, 14);
        }
    }
    let mut m: usize = 0;
    let mut bit: usize = 1;
    let mut j: usize = 0;
    while j < 13
        invariant
            j <= 13,
            m == twos_mask(c, j as int),
            bit == bit_value(j as int),
            bit <= 8192,
            m < bit,
        decreases 13 - j,
    {
        proof {
            lemma_bit_value_le(j as int + 1, 13);
        }
        if counts[j] == 2 {
            m = m + bit;
        }
        bit = bit * 2;
        j = j + 1;
    }
    m
}

/// The shape of a multiplicity vector: how many ranks are held once, twice,
/// three and four times, how often more, and where the repeated and single
/// ranks sit.
struct Shape {
    n1: u32,
    n2: u32,
    n3: u32,
    n4: u32,
    over4: u32,
    first1: usize,
    first2: usize,
    first3: usize,
    first4: usize,
    top2: usize,
}

/// Tally a multiplicity vector into its shape.
#[verifier::loop_isolation(false)]
fn tally_counts(counts: &Vec<u64>) -> (sh: Shape)
    requires
        counts.len() == 13,
    ensures
        ({
            let c = counts@.map_values(|x: u64| x as int);
            &&& sh.n1 == num_with(c, 1)
            &&& sh.n2 == num_with(c, 2)
            &&& sh.n3 == num_with(c, 3)
            &&& sh.n4 == num_with(c, 4)
            &&& sh.over4 == num_over4(c)
            &&& sh.first1 == first_with(c, 1)
            &&& sh.first2 == first_with(c, 2)
            &&& sh.first3 == first_with(c, 3)
            &&& sh.first4 == first_with(c, 4)
            &&& sh.top2 == top_with(c, 2)
        }),
{
    let ghost c = counts@.map_values(|x: u64| x as int);
    let mut n1: u32 = 0;
    let mut n2: u32 = 0;
    let mut n3: u32 = 0;
    let mut n4: u32 = 0;
    let mut o: u32 = 0;
    let mut f1: usize = 13;
    let mut f2: usize = 13;
    let mut f3: usize = 13;
    let mut f4: usize = 13;
    let mut t2: usize = 13;
    let mut j: usize = 0;
    while j < 13
        invariant
            j <= 13,
            n1 == num_with_upto(c, 1, j as int),
            n2 == num_with_upto(c, 2, j as int),
            n3 == num_with_upto(c, 3, j as int),
            n4 == num_with_upto(c, 4, j as int),
            o == num_over4_upto(c, j as int),
            f1 == first_with_upto(c, 1, j as int),
            f2 == first_with_upto(c, 2, j as int),
            f3 == first_with_upto(c, 3, j as int),
            f4 == first_with_upto(c, 4, j as int),
            t2 == top_with_upto(c, 2, j as int),
            n1 <= j && n2 <= j && n3 <= j && n4 <= j && o <= j,
        decreases 13 - j,
    {
        let v = counts[j];
        if v == 1 {
            n1 = n1 + 1;
            if f1 == 13 {
                f1 = j;
            }
        } else if v == 2 {
            n2 = n2 + 1;
            if f2 == 13 {
                f2 = j;
            }
            t2 = j;
        } else if v == 3 {
            n3 = n3 + 1;
            if f3 == 13 {
                f3 = j;
            }
        } else if v == 4 {
            n4 = n4 + 1;
            if f4 == 13 {
                f4 = j;
            }
        } else if v > 4 {
            o = o + 1;
        }
        j = j + 1;
    }
    Shape { n1, n2, n3, n4, over4: o, first1: f1, first2: f2, first3: f3, first4: f4, top2: t2 }
}

/// Rank a hand without five distinct ranks from its multiplicity vector,
/// answering the kicker-set indices from the precomputed tables.
#[verifier::loop_isolation(false)]
fn rank_from_counts(t: &Tables, counts: &Vec<u64>) -> (r: u16)
    requires
        t.wf(),
        counts.len() == 13,
    ensures
        r == paired_rank_of(counts@.map_values(|x: u64| x as int)),
        1 <= r <= 7462,
{
    let ghost c = counts@.map_values(|x: u64| x as int);
    let sh = tally_counts(counts);
    proof {
        lemma_with_bounds(c, 1, 13);
        lemma_with_bounds(c, 2, 13);
        lemma_with_bounds(c, 3, 13);
        lemma_with_bounds(c, 4, 13);
        lemma_paired_range(c);
    }
    if sh.n4 == 1 && sh.n1 == 1 && sh.n2 == 0 && sh.n3 == 0 && sh.over4 == 0 {
        let kick = if sh.first4 > sh.first1 {
            12 - sh.first1 as u16 - 1
        } else {
            12 - sh.first1 as u16
        };
        11 + (12 - sh.first4 as u16) * 12 + kick
    } else if sh.n3 == 1 && sh.n2 == 1 && sh.n1 == 0 && sh.n4 == 0 && sh.over4 == 0 {
        let kick = if sh.first3 > sh.first2 {
            12 - sh.first2 as u16 - 1
        } else {
            12 - sh.first2 as u16
        };
        167 + (12 - sh.first3 as u16) * 12 + kick
    } else if sh.n3 == 1 && sh.n1 == 2 && sh.n2 == 0 && sh.n4 == 0 && sh.over4 == 0 {
        let km = squeezed_singles_mask(counts, sh.first3);
        proof {
            lemma_ones_mask_sq(c, sh.first3 as int, 13);
            lemma_popk_total();
            lemma_popk_above_bound(2, km as int, 4096);
        }
        1610 + (12 - sh.first3 as u16) * 66 + t.duo12[km]
    } else if sh.n2 == 2 && sh.n1 == 1 && sh.n3 == 0 && sh.n4 == 0 && sh.over4 == 0 {
        let pm = pair_set_mask(counts);
        proof {
            lemma_twos_mask(c, 13);
            lemma_popk_total();
            lemma_popk_above_bound(2, pm as int, 8192);
        }
        let mut kick: u16 = 12 - sh.first1 as u16;
        if sh.top2 > sh.first1 {
            kick = kick - 1;
        }
        if sh.first2 > sh.first1 {
            kick = kick - 1;
        }
        2468 + t.duo13[pm] * 11 + kick
    } else if sh.n2 == 1 && sh.n1 == 3 && sh.n3 == 0 && sh.n4 == 0 && sh.over4 == 0 {
        let km = squeezed_singles_mask(counts, sh.first2);
        proof {
            lemma_ones_mask_sq(c, sh.first2 as int, 13);
            lemma_popk_total();
            lemma_popk_above_bound(3, km as int, 4096);
        }
        3326 + (12 - sh.first2 as u16) * 220 + t.trio12[km]
    } else {
        7000
    }
}

/// Rank a hand without five distinct ranks from its multiplicity vector,
/// counting the stronger kicker sets directly instead of looking them up.
#[verifier::loop_isolation(false)]
fn rank_from_counts_scan(counts: &Vec<u64>) -> (r: u16)
    requires
        counts.len() == 13,
    ensures
        r == paired_rank_of(counts@.map_values(|x: u64| x as int)),
        1 <= r <= 7462,
{
    let ghost c = counts@.map_values(|x: u64| x as int);
    let sh = tally_counts(counts);
    proof {
        lemma_with_bounds(c, 1, 13);
        lemma_with_bounds(c, 2, 13);
        lemma_with_bounds(c, 3, 13);
        lemma_with_bounds(c, 4, 13);
        lemma_paired_range(c);
    }
    if sh.n4 == 1 && sh.n1 == 1 && sh.n2 == 0 && sh.n3 == 0 && sh.over4 == 0 {
        let kick = if sh.first4 > sh.first1 {
            12 - sh.first1 as u16 - 1
        } else {
            12 - sh.first1 as u16
        };
        11 + (12 - sh.first4 as u16) * 12 + kick
    } else if sh.n3 == 1 && sh.n2 == 1 && sh.n1 == 0 && sh.n4 == 0 && sh.over4 == 0 {
        let kick = if sh.first3 > sh.first2 {
            12 - sh.first2 as u16 - 1
        } else {
            12 - sh.first2 as u16
        };
        167 + (12 - sh.first3 as u16) * 12 + kick
    } else if sh.n3 == 1 && sh.n1 == 2 && sh.n2 == 0 && sh.n4 == 0 && sh.over4 == 0 {
        let km = squeezed_singles_mask(counts, sh.first3);
        proof {
            lemma_ones_mask_sq(c, sh.first3 as int, 13);
            lemma_popk_total();
            lemma_popk_above_bound(2, km as int, 4096);
        }
        1610 + (12 - sh.first3 as u16) * 66 + count_above(2, km, 4096)
    } else if sh.n2 == 2 && sh.n1 == 1 && sh.n3 == 0 && sh.n4 == 0 && sh.over4 == 0 {
        let pm = pair_set_mask(counts);
        proof {
            lemma_twos_mask(c, 13);
            lemma_popk_total();
            lemma_popk_above_bound(2, pm as int, 8192);
        }
        let mut kick: u16 = 12 - sh.first1 as u16;
        if sh.top2 > sh.first1 {
            kick = kick - 1;
        }
        if sh.first2 > sh.first1 {
            kick = kick - 1;
        }
        2468 + count_above(2, pm, 8192) * 11 + kick
    } else if sh.n2 == 1 && sh.n1 == 3 && sh.n3 == 0 && sh.n4 == 0 && sh.over4 == 0 {
        let km = squeezed_singles_mask(counts, sh.first2);
        proof {
            lemma_ones_mask_sq(c, sh.first2 as int, 13);
            lemma_popk_total();
            lemma_popk_above_bound(3, km as int, 4096);
        }
        3326 + (12 - sh.first2 as u16) * 220 + count_above(3, km, 4096)
    } else {
        7000
    }
}

/// All five cards share one suit exactly when the four adjacent suit
/// comparisons hold.
proof fn lemma_same_suit(a: int, b: int, c: int, d: int, e: int)
    ensures
        all_same_suit(seq![a, b, c, d, e]) <==> (a % 4 == b % 4 && b % 4 == c % 4 && c % 4 == d
            % 4 && d % 4 == e % 4),
{
    let s = seq![a, b, c, d, e];
    assert(s[0] == a && s[1] == b && s[2] == c && s[3] == d && s[4] == e);
    assert(s.contains(a) && s.contains(b) && s.contains(c) && s.contains(d) && s.contains(e));
    assert(s.to_multiset().count(a) > 0 && s.to_multiset().count(b) > 0 && s.to_multiset().count(
        c,
    ) > 0 && s.to_multiset().count(d) > 0 && s.to_multiset().count(e) > 0);
    if a % 4 == b % 4 && b % 4 == c % 4 && c % 4 == d % 4 && d % 4 == e % 4 {
        assert forall|x: int, y: int|
            s.to_multiset().count(x) > 0 && s.to_multiset().count(y) > 0 implies x % 4 == y
            % 4 by {
            assert(s.contains(x) && s.contains(y));
            assert(x == a || x == b || x == c || x == d || x == e);
            assert(y == a || y == b || y == c || y == d || y == e);
        }
    }
}

/// Evaluate a five-card hand against the tables: the rank in [1, 7462],
/// lower is better, independent of card order and of the suit labels.
/// Cards are ids in [0, 51]; repeated ids still give an in-range rank.
#[verifier::loop_isolation(false)]
pub fn evaluate_5cards(t: &Tables, c0: usize, c1: usize, c2: usize, c3: usize, c4: usize) -> (r:
    u16)
    requires
        t.wf(),
        c0 < 52,
        c1 < 52,
        c2 < 52,
        c3 < 52,
        c4 < 52,
    ensures
        r == spec_eval5(seq![c0 as int, c1 as int, c2 as int, c3 as int, c4 as int]),
        1 <= r <= 7462,
{
    let ghost s: Seq<int> = seq![c0 as int, c1 as int, c2 as int, c3 as int, c4 as int];
    let mut cards: Vec<usize> = Vec::new();
    cards.push(c0);
    cards.push(c1);
    cards.push(c2);
    cards.push(c3);
    cards.push(c4);
    let mut counts: Vec<u64> = Vec::new();
    let mut i: usize = 0;
    while i < 13
        invariant
            counts.len() == i,
            i <= 13,
            forall|j: int| 0 <= j < i ==> counts@[j] == 0,
        decreases 13 - i,
    {
        counts.push(0);
        i = i + 1;
    }
    proof {
        let e = s.subrange(0, 0);
        assert(e.len() == 0);
        assert forall|j: int| 0 <= j < 13 implies counts@[j] as int == rank_count(e, j) as int by {
            assert(e.to_multiset().count(4 * j) == 0);
            assert(e.to_multiset().count(4 * j + 1) == 0);
            assert(e.to_multiset().count(4 * j + 2) == 0);
            assert(e.to_multiset().count(4 * j + 3) == 0);
        }
    }
    proof {
        assert(cards@ =~= seq![c0, c1, c2, c3, c4]);
    }
    let mut k: usize = 0;
    while k < 5
        invariant
            counts.len() == 13,
            cards.len() == 5,
            cards@ == seq![c0, c1, c2, c3, c4],
            s == seq![c0 as int, c1 as int, c2 as int, c3 as int, c4 as int],
            k <= 5,
            forall|j: int|
                0 <= j < 13 ==> counts@[j] as int == rank_count(s.subrange(0, k as int), j) as int,
        decreases 5 - k,
    {
        let card = cards[k];
        proof {
            assert(card < 52);
            assert(s[k as int] == card as int);
            assert(s.subrange(0, k as int + 1) =~= s.subrange(0, k as int).push(s[k as int]));
            lemma_rank_count_push(s.subrange(0, k as int), s[k as int]);
            lemma_rank_count_le(s.subrange(0, k as int), s[k as int] / 4);
        }
        let r0 = card / 4;
        let prev = counts[r0];
        counts.set(r0, prev + 1);
        k = k + 1;
    }
    proof {
        assert(s.subrange(0, 5) =~= s);
    }
    let ghost cc: Seq<int> = counts_of(s);
    proof {
        assert(forall|j: int| 0 <= j < 13 ==> cc[j] == counts@[j] as int);
    }
    let suit_eq = (c0 % 4 == c1 % 4) && (c1 % 4 == c2 % 4) && (c2 % 4 == c3 % 4) && (c3 % 4 == c4
        % 4);
    proof {
        lemma_same_suit(c0 as int, c1 as int, c2 as int, c3 as int, c4 as int);
    }
    let mut mask: usize = 0;
    let mut bit: usize = 1;
    let mut distinct: u32 = 0;
    let mut i2: usize = 0;
    proof {
        assert(bit_value(13) == 8192) by {
            reveal_with_fuel(bit_value, 14);
        }
    }
    while i2 < 13
        invariant
            counts.len() == 13,
            forall|j: int| 0 <= j < 13 ==> cc[j] == counts@[j] as int,
            i2 <= 13,
            bit == bit_value(i2 as int),
            bit <= 8192,
            bit_value(13) == 8192,
            mask == mask_upto(cc, i2 as int),
            0 <= mask < bit,
            distinct == distinct_upto(cc, i2 as int),
            distinct <= i2,
        decreases 13 - i2,
    {
        proof {
            assert(bit_value(i2 as int + 1) == 2 * bit_value(i2 as int));
            lemma_bit_value_le(i2 as int + 1, 13);
        }
        if counts[i2] > 0 {
            mask = mask + bit;
            distinct = distinct + 1;
        }
        bit = bit * 2;
        i2 = i2 + 1;
    }
    if distinct == 5 {
        proof {
            lemma_pop_mask(cc, 13);
            assert(bit_value(13) == 8192) by {
                reveal_with_fuel(bit_value, 14);
            }
            assert(mask == rank_mask(cc));
            assert(pop13(mask as int) == 5);
            if straight_index(mask as int) < 0 {
                assert(nonstraight5(mask as int));
                lemma_ns5_above_bound(mask as int);
            }
        }
        if suit_eq {
            t.flush[mask]
        } else {
            t.unique5[mask]
        }
    } else {
        proof {
            assert(counts@.map_values(|x: u64| x as int) =~= cc);
        }
        rank_from_counts(t, &counts)
    }
}

// ── The prime-signature lookup ──────────────────────────────────────

/// The rank prime for a rank index: 2, 3, 5, ..., 41.
pub open spec fn rank_prime_spec(i: int) -> int {
    if i == 0 {
        2
    } else if i == 1 {
        3
    } else if i == 2 {
        5
    } else if i == 3 {
        7
    } else if i == 4 {
        11
    } else if i == 5 {
        13
    } else if i == 6 {
        17
    } else if i == 7 {
        19
    } else if i == 8 {
        23
    } else if i == 9 {
        29
    } else if i == 10 {
        31
    } else if i == 11 {
        37
    } else {
        41
    }
}

/// Multiplicity of the divisor `q` in `p`: how often `q` divides `p`.
pub open spec fn pmult(p: int, q: int) -> nat
    decreases p,
    via pmult_dec
{
    if p >= 1 && q >= 2 && p % q == 0 {
        1 + pmult(p / q, q)
    } else {
        0
    }
}

#[via_fn]
proof fn pmult_dec(p: int, q: int) {
    if p >= 1 && q >= 2 && p % q == 0 {
        vstd::arithmetic::div_mod::lemma_div_decreases(p, q);
    }
}

/// What remains of `p` after dividing out every factor `q`.
pub open spec fn pstrip(p: int, q: int) -> int
    decreases p,
    via pstrip_dec
{
    if p >= 1 && q >= 2 && p % q == 0 {
        pstrip(p / q, q)
    } else {
        p
    }
}

#[via_fn]
proof fn pstrip_dec(p: int, q: int) {
    if p >= 1 && q >= 2 && p % q == 0 {
        vstd::arithmetic::div_mod::lemma_div_decreases(p, q);
    }
}

/// What remains of `p` after dividing out the rank primes below `i`.
pub open spec fn strip_upto(p: int, i: int) -> int
    decreases i,
{
    if i <= 0 {
        p
    } else {
        pstrip(strip_upto(p, i - 1), rank_prime_spec(i - 1))
    }
}

/// The 13 multiplicities that trial division by the rank primes, smallest
/// first, recovers from a prime signature.
pub open spec fn signature_counts(p: int) -> Seq<int> {
    Seq::new(13, |i: int| pmult(strip_upto(p, i), rank_prime_spec(i)) as int)
}

/// The rank prime for a rank index, as executable code.
fn rank_prime(i: usize) -> (p: u64)
    requires
        i < 13,
    ensures
        p == rank_prime_spec(i as int),
        2 <= p <= 41,
{
    if i == 0 {
        2
    } else if i == 1 {
        3
    } else if i == 2 {
        5
    } else if i == 3 {
        7
    } else if i == 4 {
        11
    } else if i == 5 {
        13
    } else if i == 6 {
        17
    } else if i == 7 {
        19
    } else if i == 8 {
        23
    } else if i == 9 {
        29
    } else if i == 10 {
        31
    } else if i == 11 {
        37
    } else {
        41
    }
}

/// Rank a paired hand from its prime signature: factor the signature back
/// into rank multiplicities by trial division, then classify the shape.
#[verifier::loop_isolation(false)]
pub fn classify_by_counts(prime_product: u64) -> (r: u16)
    requires
        prime_product >= 1,
    ensures
        r == paired_rank_of(signature_counts(prime_product as int)),
        1 <= r <= 7462,
{
    let ghost p0: int = prime_product as int;
    let mut counts: Vec<u64> = Vec::new();
    let mut i: usize = 0;
    while i < 13
        invariant
            counts.len() == i,
            i <= 13,
            forall|j: int| 0 <= j < i ==> counts@[j] == 0,
        decreases 13 - i,
    {
        counts.push(0);
        i = i + 1;
    }
    let mut remaining: u64 = prime_product;
    let mut j: usize = 0;
    while j < 13
        invariant
            counts.len() == 13,
            j <= 13,
            remaining >= 1,
            remaining as int == strip_upto(p0, j as int),
            forall|x: int| 0 <= x < j ==> counts@[x] == signature_counts(p0)[x],
            forall|x: int| j <= x < 13 ==> counts@[x] == 0,
        decreases 13 - j,
    {
        let p = rank_prime(j);
        let ghost q: int = rank_prime_spec(j as int);
        let ghost rem0: int = remaining as int;
        while remaining % p == 0
            invariant
                counts.len() == 13,
                j < 13,
                p == q,
                2 <= p <= 41,
                remaining >= 1,
                counts@[j as int] as int + remaining as int <= rem0,
                rem0 <= u64::MAX,
                counts@[j as int] + pmult(remaining as int, q) == pmult(rem0, q),
                pstrip(remaining as int, q) == pstrip(rem0, q),
                forall|x: int| 0 <= x < j ==> counts@[x] == signature_counts(p0)[x],
                forall|x: int| j < x < 13 ==> counts@[x] == 0,
            decreases remaining,
        {
            proof {
                let r = remaining as int;
                assert(r >= p) by {
                    if r < p {
                        vstd::arithmetic::div_mod::lemma_small_mod(r as nat, p as nat);
                    }
                }
                vstd::arithmetic::div_mod::lemma_div_is_ordered_by_denominator(r, 2, q);
                vstd::arithmetic::div_mod::lemma_div_decreases(r, q);
                assert(r / q >= 1) by {
                    vstd::arithmetic::div_mod::lemma_div_is_ordered(q, r, q);
                    vstd::arithmetic::div_mod::lemma_div_by_multiple(1, q);
                } // r >= q, so the quotient is at least q / q == 1
            }
            let prev = counts[j];
            counts.set(j, prev + 1);
            remaining = remaining / p;
        }
        proof {
            assert(pmult(remaining as int, q) == 0);
            assert(pstrip(remaining as int, q) == remaining as int);
            assert(strip_upto(p0, j as int + 1) == pstrip(rem0, q));
            assert(counts@[j as int] == signature_counts(p0)[j as int]);
        }
        j = j + 1;
    }
    proof {
        assert(counts@.map_values(|x: u64| x as int) =~= signature_counts(p0));
    }
    rank_from_counts_scan(&counts)
}

/// Every five-card combination ranks between 1 (royal flush) and 7462
/// (worst high card), whatever the cards.
pub proof fn lemma_eval5_range(s: Seq<int>)
    ensures
        1 <= spec_eval5(s) <= 7462,
{
    let c = counts_of(s);
    lemma_paired_range(c);
    lemma_pop_mask(c, 13);
    assert(bit_value(13) == 8192) by {
        reveal_with_fuel(bit_value, 14);
    }
    let m = rank_mask(c);
    if distinct_ranks(c) == 5 && straight_index(m) < 0 {
        lemma_ns5_above_bound(m);
    }
}

/// Look a paired hand up by its prime signature. The signature is the product
/// of the rank primes over the five cards, a multiset-unique fingerprint.
pub fn lookup_prime_product(product: u64) -> (r: u16)
    requires
        product >= 1,
    ensures
        r == paired_rank_of(signature_counts(product as int)),
        1 <= r <= 7462,
{
    classify_by_counts(product)
}

// ── Laws of the evaluator ───────────────────────────────────────────

/// The evaluation is invariant under permutation of the five cards: it
/// depends only on the multiset of card ids.
pub proof fn lemma_eval5_permutation(s: Seq<int>, t: Seq<int>)
    requires
        s.len() == 5,
        t.len() == 5,
        s.to_multiset() == t.to_multiset(),
    ensures
        spec_eval5(s) == spec_eval5(t),
{
    assert(counts_of(s) =~= counts_of(t));
}

/// Sum of the first `i` rank multiplicities.
pub open spec fn sum_counts_upto(c: Seq<int>, i: int) -> int
    decreases i,
{
    if i <= 0 {
        0
    } else {
        sum_counts_upto(c, i - 1) + c[i - 1]
    }
}

/// Sum of the multiplicities above four, over the first `i` ranks.
pub open spec fn big_upto(c: Seq<int>, i: int) -> int
    decreases i,
{
    if i <= 0 {
        0
    } else {
        big_upto(c, i - 1) + if c[i - 1] > 4 {
            c[i - 1]
        } else {
            0
        }
    }
}

/// Appending one card to a hand raises the multiplicity of its rank by one
/// and leaves the others alone.
proof fn lemma_counts_of_push(s: Seq<int>, x: int)
    ensures
        forall|j: int|
            0 <= j < 13 ==> counts_of(s.push(x))[j] == counts_of(s)[j] + if x / 4 == j {
                1int
            } else {
                0int
            },
{
    lemma_rank_count_push(s, x);
}

/// The sum over a prefix changes by one exactly when the changed rank lies in
/// the prefix.
proof fn lemma_sum_upto_delta(c1: Seq<int>, c2: Seq<int>, r0: int, i: int)
    requires
        0 <= i <= 13,
        forall|j: int|
            0 <= j < 13 ==> c2[j] == c1[j] + if j == r0 {
                1int
            } else {
                0int
            },
    ensures
        sum_counts_upto(c2, i) == sum_counts_upto(c1, i) + if 0 <= r0 < i {
            1int
        } else {
            0int
        },
    decreases i,
{
    if i > 0 {
        lemma_sum_upto_delta(c1, c2, r0, i - 1);
    }
}

/// Five valid cards have rank multiplicities that sum to five.
pub proof fn lemma_counts_sum(s: Seq<int>)
    requires
        valid_cards(s),
    ensures
        sum_counts_upto(counts_of(s), 13) == s.len(),
    decreases s.len(),
{
    if s.len() == 0 {
        assert forall|j: int| 0 <= j < 13 implies counts_of(s)[j] == 0 by {
            assert(s.to_multiset().count(4 * j) == 0);
            assert(s.to_multiset().count(4 * j + 1) == 0);
            assert(s.to_multiset().count(4 * j + 2) == 0);
            assert(s.to_multiset().count(4 * j + 3) == 0);
        }
        assert forall|i: int| 0 <= i <= 13 implies sum_counts_upto(counts_of(s), i) == 0 by {
            lemma_sum_upto_zero(counts_of(s), i);
        }
    } else {
        let s0 = s.drop_last();
        let x = s.last();
        assert(s0.push(x) =~= s);
        lemma_counts_sum(s0);
        lemma_counts_of_push(s0, x);
        lemma_sum_upto_delta(counts_of(s0), counts_of(s), x / 4, 13);
    }
}

/// A prefix sum over an all-zero multiplicity vector is zero.
proof fn lemma_sum_upto_zero(c: Seq<int>, i: int)
    requires
        0 <= i <= 13,
        forall|j: int| 0 <= j < 13 ==> c[j] == 0,
    ensures
        sum_counts_upto(c, i) == 0,
    decreases i,
{
    if i > 0 {
        lemma_sum_upto_zero(c, i - 1);
    }
}

/// Decomposition of the multiplicity sum by shape: each rank contributes its
/// multiplicity, grouped by how often it repeats; distinct ranks are the
/// shape counts added up.
proof fn lemma_shape(c: Seq<int>, i: int)
    requires
        0 <= i <= 13,
        forall|j: int| 0 <= j < 13 ==> c[j] >= 0,
    ensures
        sum_counts_upto(c, i) == num_with_upto(c, 1, i) + 2 * num_with_upto(c, 2, i) + 3
            * num_with_upto(c, 3, i) + 4 * num_with_upto(c, 4, i) + big_upto(c, i),
        big_upto(c, i) >= 5 * num_over4_upto(c, i),
        num_over4_upto(c, i) == 0 ==> big_upto(c, i) == 0,
        distinct_upto(c, i) == num_with_upto(c, 1, i) + num_with_upto(c, 2, i) + num_with_upto(
            c,
            3,
            i,
        ) + num_with_upto(c, 4, i) + num_over4_upto(c, i),
    decreases i,
{
    if i > 0 {
        lemma_shape(c, i - 1);
    }
}

/// Band membership: the rank of five valid cards falls in the band of the
/// hand's category — straight flushes 1-10, four of a kind 11-166, full
/// houses 167-322, flushes 323-1599, straights 1600-1609, three of a kind
/// 1610-2467, two pair 2468-3325, one pair 3326-6185, high cards 6186-7462.
pub proof fn lemma_band_membership(s: Seq<int>)
    requires
        s.len() == 5,
        valid_cards(s),
    ensures
        ({
            let c = counts_of(s);
            let m = rank_mask(c);
            let r = spec_eval5(s);
            &&& (distinct_ranks(c) == 5 && straight_index(m) >= 0 && all_same_suit(s)) ==> 1 <= r
                <= 10
            &&& num_with(c, 4) == 1 ==> 11 <= r <= 166
            &&& (num_with(c, 3) == 1 && num_with(c, 2) == 1) ==> 167 <= r <= 322
            &&& (distinct_ranks(c) == 5 && straight_index(m) < 0 && all_same_suit(s)) ==> 323 <= r
                <= 1599
            &&& (distinct_ranks(c) == 5 && straight_index(m) >= 0 && !all_same_suit(s)) ==> 1600
                <= r <= 1609
            &&& (num_with(c, 3) == 1 && num_with(c, 2) == 0) ==> 1610 <= r <= 2467
            &&& num_with(c, 2) == 2 ==> 2468 <= r <= 3325
            &&& (num_with(c, 2) == 1 && num_with(c, 3) == 0 && num_with(c, 4) == 0) ==> 3326 <= r
                <= 6185
            &&& (distinct_ranks(c) == 5 && straight_index(m) < 0 && !all_same_suit(s)) ==> 6186
                <= r <= 7462
        }),
{
    let c = counts_of(s);
    lemma_counts_sum(s);
    lemma_shape(c, 13);
    lemma_with_bounds(c, 2, 13);
    lemma_with_bounds(c, 3, 13);
    lemma_with_bounds(c, 4, 13);
    lemma_pop_mask(c, 13);
    assert(bit_value(13) == 8192) by {
        reveal_with_fuel(bit_value, 14);
    }
    if distinct_ranks(c) == 5 && straight_index(rank_mask(c)) < 0 {
        lemma_ns5_above_bound(rank_mask(c));
    }
    lemma_paired_range(c);
    let n1 = num_with(c, 1);
    let n2 = num_with(c, 2);
    let n3 = num_with(c, 3);
    let n4 = num_with(c, 4);
    let o = num_over4(c);
    assert(n1 + 2 * n2 + 3 * n3 + 4 * n4 + big_upto(c, 13) == 5);
    if n4 == 1 {
        assert(n1 == 1 && n2 == 0 && n3 == 0 && o == 0);
        assert(distinct_ranks(c) == 2);
        assert(spec_eval5(s) == paired_rank_of(c));
    }
    if n3 == 1 && n2 == 1 {
        assert(n1 == 0 && n4 == 0 && o == 0);
        assert(distinct_ranks(c) == 2);
        assert(spec_eval5(s) == paired_rank_of(c));
    }
    if n3 == 1 && n2 == 0 {
        assert(n1 == 2 && n4 == 0 && o == 0);
        assert(distinct_ranks(c) == 3);
        assert(spec_eval5(s) == paired_rank_of(c));
    }
    if n2 == 2 {
        assert(n1 == 1 && n3 == 0 && n4 == 0 && o == 0);
        assert(distinct_ranks(c) == 3);
        assert(spec_eval5(s) == paired_rank_of(c));
    }
    if n2 == 1 && n3 == 0 && n4 == 0 {
        assert(big_upto(c, 13) == 0);
        assert(n1 == 3 && o == 0);
        assert(distinct_ranks(c) == 4);
        assert(spec_eval5(s) == paired_rank_of(c));
    }
}

/// Monotonicity of ranks over kickers: among hands with five distinct ranks
/// that form no straight, the hand with the larger rank bitmask — higher top
/// card, then higher kickers — ranks strictly better, comparing flushes with
/// flushes and plain hands with plain hands.
pub proof fn lemma_mask_dominance(s: Seq<int>, t: Seq<int>)
    requires
        s.len() == 5,
        t.len() == 5,
        distinct_ranks(counts_of(s)) == 5,
        distinct_ranks(counts_of(t)) == 5,
        straight_index(rank_mask(counts_of(s))) < 0,
        straight_index(rank_mask(counts_of(t))) < 0,
        rank_mask(counts_of(s)) > rank_mask(counts_of(t)),
        all_same_suit(s) == all_same_suit(t),
    ensures
        spec_eval5(s) < spec_eval5(t),
{
    lemma_pop_mask(counts_of(s), 13);
    lemma_pop_mask(counts_of(t), 13);
    assert(bit_value(13) == 8192) by {
        reveal_with_fuel(bit_value, 14);
    }
    let m1 = rank_mask(counts_of(s));
    let m2 = rank_mask(counts_of(t));
    lemma_ns5_count_split(m2 + 1, m1, 8192);
    assert(ns5_count(m1, 8192) == 1 + ns5_count(m1 + 1, 8192));
}

/// With exactly two twice-held ranks, the pair-set mask is the two bits at
/// the lower and the higher pair rank.
proof fn lemma_twos_mask_two(c: Seq<int>, i: int)
    requires
        0 <= i <= 13,
    ensures
        num_with_upto(c, 2, i) == 0 ==> twos_mask(c, i) == 0,
        num_with_upto(c, 2, i) == 1 ==> twos_mask(c, i) == bit_value(first_with_upto(c, 2, i)),
        num_with_upto(c, 2, i) == 2 ==> twos_mask(c, i) == bit_value(first_with_upto(c, 2, i))
            + bit_value(top_with_upto(c, 2, i)),
    decreases i,
{
    if i > 0 {
        lemma_twos_mask_two(c, i - 1);
        lemma_with_bounds(c, 2, i - 1);
    }
}

/// Monotonicity of ranks inside the paired bands: between two hands of the
/// same category the better hand ranks strictly lower — quads, trips and one
/// pair by the repeated rank and then the kicker set (compared as masks,
/// highest card first), a full house by trips then pair, two pair by the
/// pair-set mask then the kicker.
pub proof fn lemma_paired_dominance(s: Seq<int>, t: Seq<int>)
    requires
        s.len() == 5,
        t.len() == 5,
        valid_cards(s),
        valid_cards(t),
    ensures
        ({
            let cs = counts_of(s);
            let ct = counts_of(t);
            &&& (num_with(cs, 4) == 1 && num_with(ct, 4) == 1 && (first_with(cs, 4) > first_with(
                ct,
                4,
            ) || (first_with(cs, 4) == first_with(ct, 4) && first_with(cs, 1) > first_with(
                ct,
                1,
            )))) ==> spec_eval5(s) < spec_eval5(t)
            &&& (num_with(cs, 3) == 1 && num_with(cs, 2) == 1 && num_with(ct, 3) == 1
                && num_with(ct, 2) == 1 && (first_with(cs, 3) > first_with(ct, 3) || (first_with(
                cs,
                3,
            ) == first_with(ct, 3) && first_with(cs, 2) > first_with(ct, 2)))) ==> spec_eval5(s)
                < spec_eval5(t)
            &&& (num_with(cs, 3) == 1 && num_with(cs, 2) == 0 && num_with(ct, 3) == 1
                && num_with(ct, 2) == 0 && (first_with(cs, 3) > first_with(ct, 3) || (first_with(
                cs,
                3,
            ) == first_with(ct, 3) && ones_mask_sq(cs, first_with(cs, 3), 13) > ones_mask_sq(
                ct,
                first_with(ct, 3),
                13,
            )))) ==> spec_eval5(s) < spec_eval5(t)
            &&& (num_with(cs, 2) == 2 && num_with(ct, 2) == 2 && (twos_mask(cs, 13) > twos_mask(
                ct,
                13,
            ) || (first_with(cs, 2) == first_with(ct, 2) && top_with(cs, 2) == top_with(ct, 2)
                && first_with(cs, 1) > first_with(ct, 1)))) ==> spec_eval5(s) < spec_eval5(t)
            &&& (num_with(cs, 2) == 1 && num_with(cs, 3) == 0 && num_with(cs, 4) == 0 && num_with(
                ct,
                2,
            ) == 1 && num_with(ct, 3) == 0 && num_with(ct, 4) == 0 && (first_with(cs, 2)
                > first_with(ct, 2) || (first_with(cs, 2) == first_with(ct, 2) && ones_mask_sq(
                cs,
                first_with(cs, 2),
                13,
            ) > ones_mask_sq(ct, first_with(ct, 2), 13)))) ==> spec_eval5(s) < spec_eval5(t)
        }),
{
    lemma_band_membership(s);
    lemma_band_membership(t);
    let cs = counts_of(s);
    let ct = counts_of(t);
    lemma_counts_sum(s);
    lemma_counts_sum(t);
    lemma_shape(cs, 13);
    lemma_shape(ct, 13);
    lemma_paired_range(cs);
    lemma_paired_range(ct);
    lemma_with_bounds(cs, 1, 13);
    lemma_with_bounds(cs, 2, 13);
    lemma_with_bounds(cs, 3, 13);
    lemma_with_bounds(cs, 4, 13);
    lemma_with_bounds(ct, 1, 13);
    lemma_with_bounds(ct, 2, 13);
    lemma_with_bounds(ct, 3, 13);
    lemma_with_bounds(ct, 4, 13);
    lemma_popk_total();
    if num_with(cs, 3) == 1 && num_with(cs, 2) == 0 && num_with(ct, 3) == 1 && num_with(ct, 2)
        == 0 {
        lemma_ones_mask_sq(cs, first_with(cs, 3), 13);
        lemma_ones_mask_sq(ct, first_with(ct, 3), 13);
        assert(bit_value(12) == 4096) by {
            reveal_with_fuel(bit_value, 14);
        }
        lemma_popk_above_bound(2, ones_mask_sq(cs, first_with(cs, 3), 13), 4096);
        lemma_popk_above_bound(2, ones_mask_sq(ct, first_with(ct, 3), 13), 4096);
        if ones_mask_sq(cs, first_with(cs, 3), 13) > ones_mask_sq(ct, first_with(ct, 3), 13) {
            lemma_popk_order(
                2,
                ones_mask_sq(cs, first_with(cs, 3), 13),
                ones_mask_sq(ct, first_with(ct, 3), 13),
                4096,
            );
        }
    }
    if num_with(cs, 2) == 2 && num_with(ct, 2) == 2 {
        lemma_twos_mask(cs, 13);
        lemma_twos_mask(ct, 13);
        lemma_twos_mask_two(cs, 13);
        lemma_twos_mask_two(ct, 13);
        assert(bit_value(13) == 8192) by {
            reveal_with_fuel(bit_value, 14);
        }
        lemma_popk_above_bound(2, twos_mask(cs, 13), 8192);
        lemma_popk_above_bound(2, twos_mask(ct, 13), 8192);
        if twos_mask(cs, 13) > twos_mask(ct, 13) {
            lemma_popk_order(2, twos_mask(cs, 13), twos_mask(ct, 13), 8192);
        }
    }
    if num_with(cs, 2) == 1 && num_with(cs, 3) == 0 && num_with(cs, 4) == 0 && num_with(ct, 2)
        == 1 && num_with(ct, 3) == 0 && num_with(ct, 4) == 0 {
        lemma_ones_mask_sq(cs, first_with(cs, 2), 13);
        lemma_ones_mask_sq(ct, first_with(ct, 2), 13);
        assert(bit_value(12) == 4096) by {
            reveal_with_fuel(bit_value, 14);
        }
        lemma_popk_above_bound(3, ones_mask_sq(cs, first_with(cs, 2), 13), 4096);
        lemma_popk_above_bound(3, ones_mask_sq(ct, first_with(ct, 2), 13), 4096);
        if ones_mask_sq(cs, first_with(cs, 2), 13) > ones_mask_sq(ct, first_with(ct, 2), 13) {
            lemma_popk_order(
                3,
                ones_mask_sq(cs, first_with(cs, 2), 13),
                ones_mask_sq(ct, first_with(ct, 2), 13),
                4096,
            );
        }
    }
}

/// The evaluation is invariant under a one-to-one relabelling of the suits
/// applied uniformly to all five cards: `t` plays card `i` at the same rank
/// as `s`, with its suit renamed through the injective map `perm`.
pub proof fn lemma_eval5_suit_relabel(s: Seq<int>, t: Seq<int>, perm: Seq<int>)
    requires
        s.len() == 5,
        t.len() == 5,
        valid_cards(s),
        perm.len() == 4,
        forall|k: int| 0 <= k < 4 ==> 0 <= #[trigger] perm[k] < 4,
        forall|k: int, l: int| 0 <= k < 4 && 0 <= l < 4 && perm[k] == perm[l] ==> k == l,
        forall|i: int| 0 <= i < 5 ==> t[i] == 4 * (s[i] / 4) + perm[s[i] % 4],
    ensures
        spec_eval5(t) == spec_eval5(s),
{
    assert forall|i: int| 0 <= i < 5 implies t[i] / 4 == s[i] / 4 && t[i] % 4 == perm[s[i]
        % 4] by {
        assert(0 <= perm[s[i] % 4] < 4);
        assert((4 * (s[i] / 4) + perm[s[i] % 4]) / 4 == s[i] / 4) by (nonlinear_arith)
            requires
                0 <= perm[s[i] % 4] < 4,
        ;
        assert((4 * (s[i] / 4) + perm[s[i] % 4]) % 4 == perm[s[i] % 4]) by (nonlinear_arith)
            requires
                0 <= perm[s[i] % 4] < 4,
        ;
    }
    lemma_rank_count_map(s, t);
    assert(counts_of(t) =~= counts_of(s));
    lemma_all_same_suit_index(s);
    lemma_all_same_suit_index(t);
    assert forall|i: int, j: int| 0 <= i < 5 && 0 <= j < 5 implies (s[i] % 4 == s[j] % 4 <==> t[i]
        % 4 == t[j] % 4) by {
        assert(0 <= s[i] % 4 < 4 && 0 <= s[j] % 4 < 4);
    }
}

/// Two equally long hands whose cards agree rank by rank have the same rank
/// multiplicities.
proof fn lemma_rank_count_map(s: Seq<int>, t: Seq<int>)
    requires
        s.len() == t.len(),
        forall|i: int| 0 <= i < s.len() ==> #[trigger] t[i] / 4 == s[i] / 4,
    ensures
        forall|r: int| rank_count(t, r) == rank_count(s, r),
    decreases s.len(),
{
    if s.len() == 0 {
        assert forall|r: int| rank_count(t, r) == rank_count(s, r) by {
            assert(s.to_multiset().count(4 * r) == 0);
            assert(s.to_multiset().count(4 * r + 1) == 0);
            assert(s.to_multiset().count(4 * r + 2) == 0);
            assert(s.to_multiset().count(4 * r + 3) == 0);
            assert(t.to_multiset().count(4 * r) == 0);
            assert(t.to_multiset().count(4 * r + 1) == 0);
            assert(t.to_multiset().count(4 * r + 2) == 0);
            assert(t.to_multiset().count(4 * r + 3) == 0);
        }
    } else {
        let s0 = s.drop_last();
        let t0 = t.drop_last();
        assert(s0.push(s.last()) =~= s);
        assert(t0.push(t.last()) =~= t);
        lemma_rank_count_map(s0, t0);
        lemma_rank_count_push(s0, s.last());
        lemma_rank_count_push(t0, t.last());
        assert(t.last() / 4 == s.last() / 4);
    }
}

/// All cards share a suit exactly when every two cards agree on the suit,
/// index by index.
proof fn lemma_all_same_suit_index(s: Seq<int>)
    requires
        s.len() == 5,
    ensures
        all_same_suit(s) <==> (forall|i: int, j: int|
            0 <= i < 5 && 0 <= j < 5 ==> #[trigger] s[i] % 4 == #[trigger] s[j] % 4),
{
    if forall|i: int, j: int| 0 <= i < 5 && 0 <= j < 5 ==> #[trigger] s[i] % 4 == #[trigger] s[j]
        % 4 {
        assert forall|x: int, y: int|
            s.to_multiset().count(x) > 0 && s.to_multiset().count(y) > 0 implies x % 4 == y
            % 4 by {
            assert(s.contains(x) && s.contains(y));
            let i = choose|i: int| 0 <= i < 5 && s[i] == x;
            let j = choose|j: int| 0 <= j < 5 && s[j] == y;
            assert(s[i] % 4 == s[j] % 4);
        }
    }
    if all_same_suit(s) {
        assert forall|i: int, j: int| 0 <= i < 5 && 0 <= j < 5 implies #[trigger] s[i] % 4
            == #[trigger] s[j] % 4 by {
            assert(s.contains(s[i]) && s.contains(s[j]));
            assert(s.to_multiset().count(s[i]) > 0 && s.to_multiset().count(s[j]) > 0);
        }
    }
}

} // verus!
