//! Omaha best-hand evaluation and Monte-Carlo equity.
//!
//! The Omaha rule: a hand is made of exactly two hole cards and exactly three
//! board cards. `evaluate_omaha` returns the best rank over every such
//! pairing; `monte_carlo_equity` estimates the chance that the hero's best
//! hand beats every opponent's, over uniformly random deals of the unseen
//! cards, ties counted as half a win.

use vstd::arithmetic::div_mod::lemma_div_by_multiple;
use vstd::arithmetic::div_mod::lemma_div_is_ordered;
use vstd::arithmetic::mul::lemma_mul_inequality;
use vstd::arithmetic::mul::lemma_mul_upper_bound;
use vstd::prelude::*;

use crate::evaluator;
use crate::evaluator::Tables;
use crate::rng;

verus! {

broadcast use {
    vstd::multiset::group_multiset_axioms,
    vstd::seq_lib::group_to_multiset_ensures,
    vstd::seq_lib::to_multiset_update,
};

/// Every card id in the sequence is in [0, 51].
pub open spec fn cards_in_range(s: Seq<u8>) -> bool {
    forall|k: int| 0 <= k < s.len() ==> #[trigger] s[k] < 52
}

/// Card sequences as mathematical integer sequences.
pub open spec fn ids(s: Seq<u8>) -> Seq<int> {
    s.map_values(|x: u8| x as int)
}

/// The rank of one way to play the hand: hole cards `i` and `j` together with
/// board cards `a`, `b` and `c`.
pub open spec fn choice_rank(
    hand: Seq<int>,
    board: Seq<int>,
    i: int,
    j: int,
    a: int,
    b: int,
    c: int,
) -> int {
    evaluator::spec_eval5(seq![hand[i], hand[j], board[a], board[b], board[c]])
}

/// The index tuples the Omaha rule allows: two distinct hole cards and three
/// distinct board cards.
pub open spec fn valid_choice(
    hlen: int,
    blen: int,
    i: int,
    j: int,
    a: int,
    b: int,
    c: int,
) -> bool {
    0 <= i < j < hlen && 0 <= a < b < c < blen
}

/// Best achievable rank for an Omaha hand on a complete board: the minimum of
/// `evaluate5` over every choice of two hole cards and three board cards.
#[verifier::loop_isolation(false)]
pub fn evaluate_omaha(t: &Tables, hand: &Vec<u8>, board: &Vec<u8>) -> (best: u16)
    requires
        t.wf(),
        2 <= hand.len(),
        3 <= board.len(),
        cards_in_range(hand@),
        cards_in_range(board@),
    ensures
        1 <= best <= 7462,
        exists|i: int, j: int, a: int, b: int, c: int|
            valid_choice(hand@.len() as int, board@.len() as int, i, j, a, b, c) && best
                == #[trigger] choice_rank(ids(hand@), ids(board@), i, j, a, b, c),
        forall|i: int, j: int, a: int, b: int, c: int|
            valid_choice(hand@.len() as int, board@.len() as int, i, j, a, b, c) ==> best
                <= #[trigger] choice_rank(ids(hand@), ids(board@), i, j, a, b, c),
{
    let ghost hs: Seq<int> = ids(hand@);
    let ghost bs: Seq<int> = ids(board@);
    let ghost hlen: int = hand@.len() as int;
    let ghost blen: int = board@.len() as int;
    let mut best: u16 = u16::MAX;
    let mut i: usize = 0;
    while i < hand.len()
        invariant
            best <= u16::MAX,
            best != u16::MAX ==> 1 <= best <= 7462 && exists|i0: int, j0: int, a0: int, b0: int, c0: int|
                valid_choice(hlen, blen, i0, j0, a0, b0, c0) && best == #[trigger] choice_rank(
                    hs,
                    bs,
                    i0,
                    j0,
                    a0,
                    b0,
                    c0,
                ),
            forall|i0: int, j0: int, a0: int, b0: int, c0: int|
                valid_choice(hlen, blen, i0, j0, a0, b0, c0) && i0 < i ==> best
                    <= #[trigger] choice_rank(hs, bs, i0, j0, a0, b0, c0),
        decreases hand.len() - i,
    {
        let mut j: usize = i + 1;
        while j < hand.len()
            invariant
                i < j,
                best <= u16::MAX,
                best != u16::MAX ==> 1 <= best <= 7462 && exists|i0: int, j0: int, a0: int, b0: int, c0: int|
                    valid_choice(hlen, blen, i0, j0, a0, b0, c0) && best == #[trigger] choice_rank(
                        hs,
                        bs,
                        i0,
                        j0,
                        a0,
                        b0,
                        c0,
                    ),
                forall|i0: int, j0: int, a0: int, b0: int, c0: int|
                    valid_choice(hlen, blen, i0, j0, a0, b0, c0) && (i0 < i || (i0 == i && j0 < j))
                        ==> best <= #[trigger] choice_rank(hs, bs, i0, j0, a0, b0, c0),
            decreases hand.len() - j,
        {
            let h0 = hand[i];
            let h1 = hand[j];
            let mut a: usize = 0;
            while a < board.len()
                invariant
                    i < j < hand@.len(),
                    h0 == hand@[i as int],
                    h1 == hand@[j as int],
                    best <= u16::MAX,
                    best != u16::MAX ==> 1 <= best <= 7462 && exists|
                        i0: int,
                        j0: int,
                        a0: int,
                        b0: int,
                        c0: int,
                    |
                        valid_choice(hlen, blen, i0, j0, a0, b0, c0) && best
                            == #[trigger] choice_rank(hs, bs, i0, j0, a0, b0, c0),
                    forall|i0: int, j0: int, a0: int, b0: int, c0: int|
                        valid_choice(hlen, blen, i0, j0, a0, b0, c0) && (i0 < i || (i0 == i && j0
                            < j)) ==> best <= #[trigger] choice_rank(hs, bs, i0, j0, a0, b0, c0),
                    forall|a0: int, b0: int, c0: int|
                        valid_choice(hlen, blen, i as int, j as int, a0, b0, c0) && a0 < a ==> best
                            <= #[trigger] choice_rank(hs, bs, i as int, j as int, a0, b0, c0),
                decreases board.len() - a,
            {
                let mut b: usize = a + 1;
                while b < board.len()
                    invariant
                        i < j < hand@.len(),
                        a < b,
                        a < board@.len(),
                        h0 == hand@[i as int],
                        h1 == hand@[j as int],
                        best <= u16::MAX,
                        best != u16::MAX ==> 1 <= best <= 7462 && exists|
                            i0: int,
                            j0: int,
                            a0: int,
                            b0: int,
                            c0: int,
                        |
                            valid_choice(hlen, blen, i0, j0, a0, b0, c0) && best
                                == #[trigger] choice_rank(hs, bs, i0, j0, a0, b0, c0),
                        forall|i0: int, j0: int, a0: int, b0: int, c0: int|
                            valid_choice(hlen, blen, i0, j0, a0, b0, c0) && (i0 < i || (i0 == i
                                && j0 < j)) ==> best <= #[trigger] choice_rank(
                                hs,
                                bs,
                                i0,
                                j0,
                                a0,
                                b0,
                                c0,
                            ),
                        forall|a0: int, b0: int, c0: int|
                            valid_choice(hlen, blen, i as int, j as int, a0, b0, c0) && (a0 < a || (
                            a0 == a && b0 < b)) ==> best <= #[trigger] choice_rank(
                                hs,
                                bs,
                                i as int,
                                j as int,
                                a0,
                                b0,
                                c0,
                            ),
                    decreases board.len() - b,
                {
                    let mut c: usize = b + 1;
                    while c < board.len()
                        invariant
                            i < j < hand@.len(),
                            a < b < c,
                            a < board@.len(),
                            b < board@.len(),
                            h0 == hand@[i as int],
                            h1 == hand@[j as int],
                            best <= u16::MAX,
                            best != u16::MAX ==> 1 <= best <= 7462 && exists|
                                i0: int,
                                j0: int,
                                a0: int,
                                b0: int,
                                c0: int,
                            |
                                valid_choice(hlen, blen, i0, j0, a0, b0, c0) && best
                                    == #[trigger] choice_rank(hs, bs, i0, j0, a0, b0, c0),
                            forall|i0: int, j0: int, a0: int, b0: int, c0: int|
                                valid_choice(hlen, blen, i0, j0, a0, b0, c0) && (i0 < i || (i0 == i
                                    && j0 < j)) ==> best <= #[trigger] choice_rank(
                                    hs,
                                    bs,
                                    i0,
                                    j0,
                                    a0,
                                    b0,
                                    c0,
                                ),
                            forall|a0: int, b0: int, c0: int|
                                valid_choice(hlen, blen, i as int, j as int, a0, b0, c0) && (a0 < a
                                    || (a0 == a && b0 < b) || (a0 == a && b0 == b && c0 < c))
                                    ==> best <= #[trigger] choice_rank(
                                    hs,
                                    bs,
                                    i as int,
                                    j as int,
                                    a0,
                                    b0,
                                    c0,
                                ),
                        decreases board.len() - c,
                    {
                        let b0c = board[a];
                        let b1c = board[b];
                        let b2c = board[c];
                        let rank = evaluator::evaluate_5cards(
                            t,
                            h0 as usize,
                            h1 as usize,
                            b0c as usize,
                            b1c as usize,
                            b2c as usize,
                        );
                        proof {
                            assert(seq![
                                h0 as usize as int,
                                h1 as usize as int,
                                b0c as usize as int,
                                b1c as usize as int,
                                b2c as usize as int,
                            ] =~= seq![
                                hs[i as int],
                                hs[j as int],
                                bs[a as int],
                                bs[b as int],
                                bs[c as int],
                            ]);
                            assert(rank == choice_rank(
                                hs,
                                bs,
                                i as int,
                                j as int,
                                a as int,
                                b as int,
                                c as int,
                            ));
                        }
                        if rank < best {
                            best = rank;
                        }
                        c = c + 1;
                    }
                    b = b + 1;
                }
                a = a + 1;
            }
            j = j + 1;
        }
        i = i + 1;
    }
    proof {
        evaluator::lemma_eval5_range(seq![hs[0], hs[1], bs[0], bs[1], bs[2]]);
        assert(valid_choice(hlen, blen, 0, 1, 0, 1, 2));
        assert(best <= choice_rank(hs, bs, 0, 1, 0, 1, 2));
    }
    best
}

// ── Monte-Carlo equity ──────────────────────────────────────────────

/// A card id is among the seen cards of the deal.
pub open spec fn card_used(hero: Seq<u8>, board: Seq<u8>, dead: Seq<u8>, c: u8) -> bool {
    hero.contains(c) || board.contains(c) || dead.contains(c)
}

/// Number of card ids below `i` that are in none of the three sequences:
/// the size of the residual deck, at `i == 52`.
pub open spec fn free_upto(hero: Seq<u8>, board: Seq<u8>, dead: Seq<u8>, i: int) -> nat
    decreases i,
{
    if i <= 0 {
        0
    } else {
        free_upto(hero, board, dead, i - 1) + if !card_used(hero, board, dead, (i - 1) as u8) {
            1nat
        } else {
            0nat
        }
    }
}

/// Monte-Carlo equity with a caller-chosen seed, in parts per million.
///
/// Each iteration freshly randomises the prefix of the residual deck that the
/// deal needs (a partial Fisher-Yates shuffle), completes the board, and
/// compares the hero's best Omaha hand against every opponent's; ties count
/// half. When the residual deck cannot cover the deal the defined fallback is
/// exactly one half, 500000 ppm.
#[verifier::loop_isolation(false)]
pub fn monte_carlo_equity_seeded(
    t: &Tables,
    hero_cards: &Vec<u8>,
    board_cards: &Vec<u8>,
    dead_cards: &Vec<u8>,
    sims: usize,
    opponents: usize,
    hand_size: usize,
    seed: u64,
) -> (equity_ppm: u32)
    requires
        t.wf(),
        2 <= hero_cards.len(),
        board_cards.len() <= 5,
        cards_in_range(hero_cards@),
        cards_in_range(board_cards@),
        cards_in_range(dead_cards@),
        1 <= sims <= 0xffff_ffff,
        1 <= opponents <= 0x1_0000_0000,
        2 <= hand_size <= 6,
    ensures
        equity_ppm <= 1_000_000,
        free_upto(hero_cards@, board_cards@, dead_cards@, 52) < 5 - board_cards@.len()
            + opponents * hand_size ==> equity_ppm == 500_000,
        free_upto(hero_cards@, board_cards@, dead_cards@, 52) >= 5 - board_cards@.len()
            + opponents * hand_size ==> exists|w: int, ti: int|
            0 <= w && 0 <= ti && #[trigger] (w + ti) <= sims && equity_ppm == (2 * w + ti)
                * 500_000 / (sims as int),
{
    let ghost h: Seq<u8> = hero_cards@;
    let ghost bo: Seq<u8> = board_cards@;
    let ghost d: Seq<u8> = dead_cards@;
    // mark the seen cards
    let mut used: Vec<bool> = Vec::new();
    let mut i: usize = 0;
    while i < 52
        invariant
            used.len() == i,
            i <= 52,
            forall|x: int| 0 <= x < i ==> used@[x] == false,
        decreases 52 - i,
    {
        used.push(false);
        i = i + 1;
    }
    let mut k: usize = 0;
    while k < hero_cards.len()
        invariant
            used.len() == 52,
            k <= hero_cards.len(),
            forall|x: int|
                0 <= x < 52 ==> used@[x] == exists|y: int|
                    0 <= y < k && h[y] == #[trigger] (x as u8),
        decreases hero_cards.len() - k,
    {
        let c = hero_cards[k];
        used.set(c as usize, true);
        k = k + 1;
    }
    let mut k2: usize = 0;
    while k2 < board_cards.len()
        invariant
            used.len() == 52,
            k2 <= board_cards.len(),
            forall|x: int|
                0 <= x < 52 ==> used@[x] == (h.contains(x as u8) || exists|y: int|
                    0 <= y < k2 && bo[y] == #[trigger] (x as u8)),
        decreases board_cards.len() - k2,
    {
        let c = board_cards[k2];
        used.set(c as usize, true);
        k2 = k2 + 1;
    }
    let mut k3: usize = 0;
    while k3 < dead_cards.len()
        invariant
            used.len() == 52,
            k3 <= dead_cards.len(),
            forall|x: int|
                0 <= x < 52 ==> used@[x] == (h.contains(x as u8) || bo.contains(x as u8) || exists|
                    y: int,
                |
                    0 <= y < k3 && d[y] == #[trigger] (x as u8)),
        decreases dead_cards.len() - k3,
    {
        let c = dead_cards[k3];
        used.set(c as usize, true);
        k3 = k3 + 1;
    }
    // residual deck
    let mut deck: Vec<u8> = Vec::new();
    let mut c: usize = 0;
    while c < 52
        invariant
            used.len() == 52,
            c <= 52,
            forall|x: int| 0 <= x < 52 ==> used@[x] == card_used(h, bo, d, x as u8),
            deck.len() == free_upto(h, bo, d, c as int),
            cards_in_range(deck@),
        decreases 52 - c,
    {
        if !used[c] {
            deck.push(c as u8);
        }
        c = c + 1;
    }
    let board_needed: usize = 5 - board_cards.len();
    proof {
        lemma_mul_upper_bound(opponents as int, 0x1_0000_0000, hand_size as int, 6);
    }
    let needed64: u64 = (board_needed as u64) + (opponents as u64) * (hand_size as u64);
    if (deck.len() as u64) < needed64 {
        return 500_000;
    }
    let total_needed: usize = needed64 as usize;
    let deck_len: usize = deck.len();
    // the shuffles permute the residual deck but never change its contents
    let ghost deck_ms = deck@.to_multiset();
    let mut rng_state = rng::rng_from_seed(seed);
    let mut wins: u64 = 0;
    let mut ties: u64 = 0;
    let mut it: usize = 0;
    while it < sims
        invariant
            wins + ties <= it,
            it <= sims,
            deck.len() == deck_len,
            deck_len >= total_needed,
            cards_in_range(deck@),
            deck@.to_multiset() == deck_ms,
        decreases sims - it,
    {
        // partial Fisher-Yates: freshly randomise the needed prefix
        let mut s: usize = 0;
        while s < total_needed
            invariant
                deck.len() == deck_len,
                cards_in_range(deck@),
                s <= total_needed,
                deck@.to_multiset() == deck_ms,
            decreases total_needed - s,
        {
            let swap_idx = rng::rand_index(&mut rng_state, s, deck_len);
            let ghost d0 = deck@;
            let va = deck[s];
            let vb = deck[swap_idx];
            deck.set(s, vb);
            deck.set(swap_idx, va);
            proof {
                assert(deck@ == d0.update(s as int, vb).update(swap_idx as int, va));
                assert(d0.update(s as int, vb)[swap_idx as int] == vb);
                assert(deck@.to_multiset() =~= d0.to_multiset());
            }
            s = s + 1;
        }
        // complete the board
        let mut full_board: Vec<u8> = Vec::new();
        let mut x: usize = 0;
        while x < board_cards.len()
            invariant
                full_board.len() == x,
                x <= board_cards.len(),
                cards_in_range(full_board@),
            decreases board_cards.len() - x,
        {
            full_board.push(board_cards[x]);
            x = x + 1;
        }
        let mut y: usize = 0;
        while y < board_needed
            invariant
                full_board.len() == board_cards@.len() + y,
                y <= board_needed,
                deck.len() == deck_len,
                cards_in_range(deck@),
                cards_in_range(full_board@),
            decreases board_needed - y,
        {
            full_board.push(deck[y]);
            y = y + 1;
        }
        let hero_rank = evaluate_omaha(t, hero_cards, &full_board);
        // opponents, stopping at the first one that beats the hero
        let mut hero_wins = true;
        let mut is_tie = false;
        let mut v: usize = 0;
        let mut offset: usize = board_needed;
        while v < opponents && hero_wins
            invariant
                offset == board_needed + v * hand_size,
                v <= opponents,
                deck.len() == deck_len,
                cards_in_range(deck@),
            decreases opponents - v,
        {
            proof {
                lemma_mul_inequality(v as int + 1, opponents as int, hand_size as int);
                assert((v as int + 1) * (hand_size as int) == v as int * (hand_size as int) + (
                hand_size as int)) by (nonlinear_arith);
            }
            let mut vh: Vec<u8> = Vec::new();
            let mut z: usize = 0;
            while z < hand_size
                invariant
                    vh.len() == z,
                    z <= hand_size,
                    offset + hand_size <= deck_len,
                    deck.len() == deck_len,
                    cards_in_range(deck@),
                    cards_in_range(vh@),
                decreases hand_size - z,
            {
                vh.push(deck[offset + z]);
                z = z + 1;
            }
            let villain_rank = evaluate_omaha(t, &vh, &full_board);
            if villain_rank < hero_rank {
                hero_wins = false;
                is_tie = false;
            } else if villain_rank == hero_rank {
                is_tie = true;
            }
            offset = offset + hand_size;
            v = v + 1;
        }
        if hero_wins && !is_tie {
            wins = wins + 1;
        } else if hero_wins && is_tie {
            ties = ties + 1;
        }
        it = it + 1;
    }
    // equity = (wins + ties / 2) / sims, in parts per million
    let wins2: u64 = 2 * wins + ties;
    let num: u64 = wins2 * 500_000;
    let r64: u64 = num / (sims as u64);
    proof {
        assert(wins2 <= 2 * sims);
        assert(num <= 1_000_000 * (sims as u64));
        lemma_div_is_ordered(num as int, 1_000_000 * (sims as int), sims as int);
        lemma_div_by_multiple(1_000_000, sims as int);
    }
    r64 as u32
}

/// Monte-Carlo equity with the fixed default seed, so that identical inputs
/// give identical results.
pub fn monte_carlo_equity(
    t: &Tables,
    hero_cards: &Vec<u8>,
    board_cards: &Vec<u8>,
    dead_cards: &Vec<u8>,
    sims: usize,
    opponents: usize,
    hand_size: usize,
) -> (equity_ppm: u32)
    requires
        t.wf(),
        2 <= hero_cards.len(),
        board_cards.len() <= 5,
        cards_in_range(hero_cards@),
        cards_in_range(board_cards@),
        cards_in_range(dead_cards@),
        1 <= sims <= 0xffff_ffff,
        1 <= opponents <= 0x1_0000_0000,
        2 <= hand_size <= 6,
    ensures
        equity_ppm <= 1_000_000,
        free_upto(hero_cards@, board_cards@, dead_cards@, 52) < 5 - board_cards@.len()
            + opponents * hand_size ==> equity_ppm == 500_000,
        free_upto(hero_cards@, board_cards@, dead_cards@, 52) >= 5 - board_cards@.len()
            + opponents * hand_size ==> exists|w: int, ti: int|
            0 <= w && 0 <= ti && #[trigger] (w + ti) <= sims && equity_ppm == (2 * w + ti)
                * 500_000 / (sims as int),
{
    monte_carlo_equity_seeded(t, hero_cards, board_cards, dead_cards, sims, opponents, hand_size, 42)
}

} // verus!
