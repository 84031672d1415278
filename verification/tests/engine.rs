//! Tests for the evaluator, the Omaha enumerator, the equity simulator and
//! the strategy engine. Card ids are rank * 4 + suit with suits 0..3.

use core_engine::evaluator::{classify_by_counts, evaluate_5cards, init_tables, lookup_prime_product};
use core_engine::omaha::{evaluate_omaha, monte_carlo_equity, monte_carlo_equity_seeded};
use core_engine::solver::{compute_confidence, compute_ev, compute_strategy, solve_state, Frequencies};
use core_engine::{equity, evaluate, solve, EngineError, SolveParams};

fn params(
    format: u32,
    street: u32,
    hero: Vec<u8>,
    board: Vec<u8>,
    pot: u32,
    stack: u32,
    position: u32,
    num_players: u32,
) -> SolveParams {
    SolveParams {
        format,
        street,
        hero_cards: hero,
        board_cards: board,
        dead_cards: vec![],
        pot_bb100: pot,
        hero_stack: stack,
        villain_stacks: vec![],
        position,
        num_players,
    }
}

// ── 5-card evaluator ────────────────────────────────────────────────

#[test]
fn test_royal_flush() {
    let t = init_tables();
    // A♠ K♠ Q♠ J♠ T♠  (all suit=3, ranks 12,11,10,9,8)
    let rank = evaluate_5cards(&t, 51, 47, 43, 39, 35);
    assert_eq!(rank, 1, "Royal flush should be rank 1");
}

#[test]
fn test_flush_beats_straight() {
    let t = init_tables();
    // Flush: A♠ K♠ Q♠ J♠ 9♠ (not straight)
    let flush = evaluate_5cards(&t, 51, 47, 43, 39, 31);
    // Straight: A♣ K♦ Q♥ J♠ T♣ (not flush)
    let straight = evaluate_5cards(&t, 48, 45, 42, 39, 32);
    assert!(flush < straight, "Flush ({}) should beat straight ({})", flush, straight);
}

#[test]
fn test_pair_beats_high_card() {
    let t = init_tables();
    // Pair of aces
    let pair = evaluate_5cards(&t, 48, 49, 43, 39, 35);
    // High card: A K Q J 9
    let hc = evaluate_5cards(&t, 48, 45, 42, 39, 31);
    assert!(pair < hc, "Pair ({}) should beat high card ({})", pair, hc);
}

#[test]
fn test_rank_ordering() {
    let t = init_tables();
    let rf = evaluate_5cards(&t, 51, 47, 43, 39, 35); // royal
    let fh = evaluate_5cards(&t, 48, 49, 50, 44, 45); // full house (AAA KK)
    let pair = evaluate_5cards(&t, 48, 49, 43, 39, 35); // pair of aces
    assert!(rf < fh, "Royal ({}) < Full House ({})", rf, fh);
    assert!(fh < pair, "Full House ({}) < Pair ({})", fh, pair);
}

#[test]
fn evaluation_order_independent() {
    let t = init_tables();
    let a = evaluate_5cards(&t, 48, 45, 42, 39, 31);
    let b = evaluate_5cards(&t, 31, 39, 42, 45, 48);
    let c = evaluate_5cards(&t, 42, 48, 31, 45, 39);
    assert_eq!(a, b);
    assert_eq!(a, c);
}

#[test]
fn evaluation_suit_relabel_invariant() {
    let t = init_tables();
    // royal flush in every suit is rank 1
    for suit in 0..4u8 {
        let ids: Vec<u8> = [12u8, 11, 10, 9, 8].iter().map(|r| r * 4 + suit).collect();
        let rank = evaluate_5cards(
            &t,
            ids[0] as usize,
            ids[1] as usize,
            ids[2] as usize,
            ids[3] as usize,
            ids[4] as usize,
        );
        assert_eq!(rank, 1);
    }
    // swapping clubs and spades uniformly keeps a mixed-suit rank
    let a = evaluate_5cards(&t, 48, 45, 42, 39, 31); // suits 0,1,2,3,3
    let b = evaluate_5cards(&t, 51, 45, 42, 36, 28); // suits 3,1,2,0,0
    assert_eq!(a, b);
}

#[test]
fn band_membership_examples() {
    let t = init_tables();
    // straight flush (not royal): K♠ Q♠ J♠ T♠ 9♠
    let sf = evaluate_5cards(&t, 47, 43, 39, 35, 31);
    assert!((2..=10).contains(&sf), "straight flush got {}", sf);
    // quad aces + king
    let quads = evaluate_5cards(&t, 48, 49, 50, 51, 44);
    assert!((11..=166).contains(&quads), "quads got {}", quads);
    // aces full of kings
    let boat = evaluate_5cards(&t, 48, 49, 50, 44, 45);
    assert!((167..=322).contains(&boat), "full house got {}", boat);
    // flush A♠ K♠ Q♠ J♠ 9♠
    let flush = evaluate_5cards(&t, 51, 47, 43, 39, 31);
    assert!((323..=1599).contains(&flush), "flush got {}", flush);
    // straight, mixed suits
    let straight = evaluate_5cards(&t, 48, 45, 42, 39, 32);
    assert!((1600..=1609).contains(&straight), "straight got {}", straight);
    // trip aces
    let trips = evaluate_5cards(&t, 48, 49, 50, 44, 40);
    assert!((1610..=2467).contains(&trips), "trips got {}", trips);
    // aces and kings
    let two_pair = evaluate_5cards(&t, 48, 49, 44, 45, 40);
    assert!((2468..=3325).contains(&two_pair), "two pair got {}", two_pair);
    // pair of aces
    let pair = evaluate_5cards(&t, 48, 49, 43, 39, 35);
    assert!((3326..=6185).contains(&pair), "pair got {}", pair);
    // ace high, no flush, no straight: A K Q J 9 mixed
    let hc = evaluate_5cards(&t, 48, 45, 42, 39, 31);
    assert!((6186..=7462).contains(&hc), "high card got {}", hc);
}

#[test]
fn evaluation_always_in_range() {
    let t = init_tables();
    // a sweep of hands, including repeated ids, stays within [1, 7462]
    for a in 0..52usize {
        let r = evaluate_5cards(&t, a, (a + 7) % 52, (a + 19) % 52, (a + 30) % 52, (a + 44) % 52);
        assert!((1..=7462).contains(&r), "rank {} out of range", r);
        let dup = evaluate_5cards(&t, a, a, a, a, a);
        assert!((1..=7462).contains(&dup), "rank {} out of range", dup);
    }
}

#[test]
fn wheel_straight_flush_is_worst_straight_flush() {
    let t = init_tables();
    // 5♠ 4♠ 3♠ 2♠ A♠
    let wheel = evaluate_5cards(&t, 15, 11, 7, 3, 51);
    assert_eq!(wheel, 10);
    // 6♠ 5♠ 4♠ 3♠ 2♠ beats it
    let six_high = evaluate_5cards(&t, 19, 15, 11, 7, 3);
    assert_eq!(six_high, 9);
}

#[test]
fn prime_signature_lookup_matches_evaluator() {
    let t = init_tables();
    let primes: [u64; 13] = [2, 3, 5, 7, 11, 13, 17, 19, 23, 29, 31, 37, 41];
    // paired hands: the signature-keyed lookup and the evaluator agree
    let hands: [[usize; 5]; 4] = [
        [48, 49, 43, 39, 35],  // pair of aces
        [48, 49, 50, 44, 45],  // aces full of kings
        [48, 49, 50, 51, 44],  // quad aces
        [48, 49, 44, 45, 40],  // aces and kings
    ];
    for hand in hands.iter() {
        let product: u64 = hand.iter().map(|&c| primes[c >> 2]).product();
        let via_product = lookup_prime_product(product);
        let via_cards = evaluate_5cards(&t, hand[0], hand[1], hand[2], hand[3], hand[4]);
        assert_eq!(via_product, via_cards);
        assert_eq!(classify_by_counts(product), via_cards);
    }
}

#[test]
fn kickers_break_ties_inside_paired_bands() {
    let t = init_tables();
    // pair of aces: A-A-K-Q-J is the best one-pair hand, rank 3326; the same
    // hand with a ten in place of the jack is the next one, rank 3327
    let akqj = evaluate_5cards(&t, 48, 49, 44, 40, 36);
    let akqt = evaluate_5cards(&t, 48, 49, 44, 40, 32);
    assert_eq!(akqj, 3326);
    assert_eq!(akqt, 3327);
    // the signature-keyed lookup draws the same distinction
    let sig_akqj: u64 = 41 * 41 * 37 * 31 * 29;
    let sig_akqt: u64 = 41 * 41 * 37 * 31 * 23;
    assert_eq!(lookup_prime_product(sig_akqj), 3326);
    assert_eq!(lookup_prime_product(sig_akqt), 3327);
    // quad aces: king kicker is the best, rank 11, queen kicker next
    assert_eq!(evaluate_5cards(&t, 48, 49, 50, 51, 44), 11);
    assert_eq!(evaluate_5cards(&t, 48, 49, 50, 51, 40), 12);
    // aces full of kings is the best full house, aces full of queens next
    assert_eq!(evaluate_5cards(&t, 48, 49, 50, 44, 45), 167);
    assert_eq!(evaluate_5cards(&t, 48, 49, 50, 40, 41), 168);
    // trip aces: K-Q kickers best, K-J next
    assert_eq!(evaluate_5cards(&t, 48, 49, 50, 44, 40), 1610);
    assert_eq!(evaluate_5cards(&t, 48, 49, 50, 44, 36), 1611);
    // aces and kings with a queen kicker is the best two-pair hand
    assert_eq!(evaluate_5cards(&t, 48, 49, 44, 45, 40), 2468);
    assert_eq!(evaluate_5cards(&t, 48, 49, 44, 45, 36), 2469);
}

#[test]
fn band_edges_are_exact() {
    let t = init_tables();
    // the worst hand of each paired band sits on the band's upper edge
    // quad deuces with a trey kicker
    assert_eq!(evaluate_5cards(&t, 0, 1, 2, 3, 4), 166);
    // deuces full of treys
    assert_eq!(evaluate_5cards(&t, 0, 1, 2, 4, 5), 322);
    // trip deuces with four-trey kickers
    assert_eq!(evaluate_5cards(&t, 0, 1, 2, 8, 4), 2467);
    // treys and deuces with a four kicker
    assert_eq!(evaluate_5cards(&t, 4, 5, 0, 1, 8), 3325);
    // pair of deuces with five-four-trey kickers
    assert_eq!(evaluate_5cards(&t, 0, 1, 12, 8, 4), 6185);
    // seven-five-four-trey-deuce is the worst high card
    assert_eq!(evaluate_5cards(&t, 20, 12, 8, 4, 1), 7462);
}

#[test]
fn dominating_hands_rank_strictly_better() {
    let t = init_tables();
    let pairs: [([usize; 5], [usize; 5]); 11] = [
        // quad aces over quad kings
        ([48, 49, 50, 51, 44], [44, 45, 46, 47, 40]),
        // aces full over kings full
        ([48, 49, 50, 44, 45], [44, 45, 46, 48, 49]),
        // trip aces over trip kings
        ([48, 49, 50, 44, 40], [44, 45, 46, 48, 40]),
        // aces up over kings up
        ([48, 49, 44, 45, 40], [44, 45, 40, 41, 48]),
        // pair of aces over pair of kings
        ([48, 49, 44, 40, 36], [44, 45, 48, 40, 36]),
        // ace-high over king-high
        ([48, 45, 42, 39, 31], [45, 42, 39, 31, 24]),
        // pair of aces, king kicker over queen kicker
        ([48, 49, 44, 36, 32], [48, 49, 40, 36, 32]),
        // quad kings, ace kicker over queen kicker
        ([44, 45, 46, 47, 48], [44, 45, 46, 47, 40]),
        // kings full of aces over kings full of queens
        ([44, 45, 46, 48, 49], [44, 45, 46, 40, 41]),
        // trip queens, A-K over A-J
        ([40, 41, 42, 48, 44], [40, 41, 42, 48, 36]),
        // kings and queens, ace kicker over jack kicker
        ([44, 45, 40, 41, 48], [44, 45, 40, 41, 36]),
    ];
    for (better, worse) in pairs.iter() {
        let rb = evaluate_5cards(&t, better[0], better[1], better[2], better[3], better[4]);
        let rw = evaluate_5cards(&t, worse[0], worse[1], worse[2], worse[3], worse[4]);
        assert!(rb < rw, "expected {} ({:?}) to beat {} ({:?})", rb, better, rw, worse);
    }
    // ace-high flush over king-high flush
    let af = evaluate_5cards(&t, 51, 43, 39, 35, 31);
    let kf = evaluate_5cards(&t, 47, 43, 39, 35, 27);
    assert!(af < kf);
}

// ── Omaha ───────────────────────────────────────────────────────────

#[test]
fn test_plo5_evaluation() {
    let t = init_tables();
    // PLO5 hand: 5 cards, board: 5 cards
    let hand = vec![48, 49, 40, 36, 32]; // A♣ A♦ Q♣ J♣ T♣
    let board = vec![50, 44, 38, 30, 20]; // A♥ K♣ J♥ 8♥ 6♣
    let rank = evaluate_omaha(&t, &hand, &board);
    assert!(rank < 2000, "PLO5 with trip Aces should rank high, got {}", rank);
}

#[test]
fn test_plo6_evaluation() {
    let t = init_tables();
    // PLO6 hand: 6 cards
    let hand = vec![48, 49, 50, 40, 36, 32]; // A♣ A♦ A♥ Q♣ J♣ T♣
    let board = vec![51, 44, 38, 30, 20]; // A♠ K♣ J♥ 9♥ 7♣
    let rank = evaluate_omaha(&t, &hand, &board);
    // exactly two hole cards play, so the three hand aces cannot make quads
    // with the lone board ace; the best hand is the ace-high straight
    assert_eq!(rank, 1600, "PLO6 should find the ace-high straight, got {}", rank);
}

#[test]
fn omaha_uses_exactly_two_hole_cards() {
    let t = init_tables();
    // four spades on the board, hero holds only one spade: no flush possible
    let hand = vec![51, 48, 45, 42]; // A♠ A♣ K♦ Q♥
    let board = vec![39, 35, 31, 27, 2]; // J♠ T♠ 9♠ 8♠ 2♥
    let rank = evaluate_omaha(&t, &hand, &board);
    assert!(rank > 1599, "no flush with a single spade in hand, got {}", rank);
}

// ── Monte-Carlo equity ──────────────────────────────────────────────

#[test]
fn test_monte_carlo_plo5() {
    let t = init_tables();
    let hero = vec![48, 49, 40, 36, 32]; // strong hand
    let board = vec![50, 44, 38]; // flop with A♥
    let e = monte_carlo_equity(&t, &hero, &board, &vec![], 1000, 1, 5);
    let e = e as f64 / 1_000_000.0;
    assert!(e > 0.3 && e < 0.95, "PLO5 equity should be reasonable, got {:.3}", e);
}

#[test]
fn test_monte_carlo_plo6() {
    let t = init_tables();
    let hero = vec![48, 49, 50, 40, 36, 32];
    let board = vec![44, 38, 30]; // K♣ J♥ 8♥
    let e = monte_carlo_equity(&t, &hero, &board, &vec![], 1000, 2, 6);
    let e = e as f64 / 1_000_000.0;
    assert!(e > 0.1 && e < 0.9, "PLO6 equity with 2 villains should be reasonable, got {:.3}", e);
}

#[test]
fn equity_is_deterministic_for_fixed_seed() {
    let t = init_tables();
    let hero = vec![48, 49, 40, 36, 32];
    let board = vec![50, 44, 38];
    let a = monte_carlo_equity(&t, &hero, &board, &vec![], 500, 1, 5);
    let b = monte_carlo_equity(&t, &hero, &board, &vec![], 500, 1, 5);
    assert_eq!(a, b);
}

#[test]
fn equity_fallback_when_deck_short() {
    let t = init_tables();
    let hero = vec![48, 49, 40, 36];
    let board = vec![50, 44, 38];
    // ten opponents of five cards each need more cards than remain
    let e = monte_carlo_equity(&t, &hero, &board, &vec![], 100, 10, 5);
    assert_eq!(e, 500_000);
}

#[test]
fn equity_convergence_with_more_sims() {
    let t = init_tables();
    let hero = vec![48, 49, 40, 36]; // four hole cards
    let board = vec![50, 44, 38];
    let sd = |sims: usize| -> f64 {
        let mut values: Vec<f64> = Vec::new();
        for seed in 0..8u64 {
            let e = monte_carlo_equity_seeded(&t, &hero, &board, &vec![], sims, 1, 4, seed);
            values.push(e as f64 / 1_000_000.0);
        }
        let mean: f64 = values.iter().sum::<f64>() / values.len() as f64;
        let var: f64 =
            values.iter().map(|v| (v - mean) * (v - mean)).sum::<f64>() / values.len() as f64;
        var.sqrt()
    };
    let sd_small = sd(300);
    let sd_large = sd(600);
    // doubling the simulations shrinks the spread toward the root-two law
    assert!(
        sd_large < sd_small * 0.95 && sd_large > sd_small * 0.25,
        "sd(300) = {:.5}, sd(600) = {:.5}",
        sd_small,
        sd_large
    );
}

// ── Strategy engine ─────────────────────────────────────────────────

#[test]
fn test_strategy_premium_hand() {
    let (action, freq, _) = compute_strategy(850_000, 500, 1, 0, 1);
    assert!(
        freq.raise as f64 / 1_000_000.0 > 0.5,
        "Premium hand should raise frequently, got {:.2}",
        freq.raise as f64 / 1_000_000.0
    );
    assert!(action == 3 || action == 4, "Should recommend raise/allin");
}

#[test]
fn test_strategy_trash_hand() {
    let (action, freq, _) = compute_strategy(100_000, 500, 1, 3, 1);
    assert!(
        freq.fold as f64 / 1_000_000.0 > 0.7,
        "Trash hand should fold frequently, got {:.2}",
        freq.fold as f64 / 1_000_000.0
    );
    assert_eq!(action, 0, "Should recommend fold");
}

#[test]
fn test_low_spr_commitment() {
    // Low SPR with decent equity → all-in
    let (action, freq, _) = compute_strategy(550_000, 150, 2, 0, 1);
    assert!(freq.all_in as f64 / 1_000_000.0 > 0.5, "Low SPR + decent equity → should commit");
    assert_eq!(action, 4, "Should be all-in");
}

#[test]
fn test_low_spr_give_up() {
    // Low SPR with bad equity → fold
    let (action, freq, _) = compute_strategy(200_000, 150, 2, 0, 1);
    assert!(freq.fold as f64 / 1_000_000.0 > 0.7, "Low SPR + bad equity → should fold");
    assert_eq!(action, 0, "Should fold");
}

#[test]
fn strategy_frequencies_sum_to_one() {
    let cases: [(u32, u64, u32, u32, u64); 6] = [
        (850_000, 500, 1, 0, 1),
        (650_000, 300, 2, 5, 2),
        (500_000, 900, 3, 4, 1),
        (350_000, 250, 0, 1, 3),
        (200_000, 400, 1, 2, 1),
        (50_000, 1000, 3, 0, 4),
    ];
    for &(eq, spr, street, pos, opp) in cases.iter() {
        let (_, f, _) = compute_strategy(eq, spr, street, pos, opp);
        let sum = f.fold as u64 + f.check as u64 + f.call as u64 + f.raise as u64
            + f.all_in as u64;
        assert_eq!(sum, 1_000_000);
        for v in [f.fold, f.check, f.call, f.raise, f.all_in] {
            assert!(v <= 1_000_000);
        }
    }
}

#[test]
fn strategy_trash_bucket_is_exact() {
    // the trash row is already normalised: 0.85 fold, 0.10 check, 0.05 raise
    let (action, f, raise) = compute_strategy(50_000, 500, 1, 3, 1);
    assert_eq!(action, 0);
    assert_eq!(f.fold, 850_000);
    assert_eq!(f.check, 100_000);
    assert_eq!(f.call, 0);
    assert_eq!(f.raise, 50_000);
    assert_eq!(f.all_in, 0);
    assert_eq!(raise, 0);
}

#[test]
fn normalization_is_exact() {
    // premium row on the flop sums to one already: nothing moves
    let (action, f, _) = compute_strategy(850_000, 500, 1, 0, 1);
    assert_eq!(action, 3);
    assert_eq!((f.fold, f.check, f.call, f.raise, f.all_in), (0, 0, 150_000, 750_000, 100_000));
    // premium row on the turn: raw (0, 0, 0.15, 0.825, 0.1) is floor-divided
    // by its sum 1.075 and the remainder of 2 ppm goes to the raise entry
    let (action2, g, _) = compute_strategy(850_000, 500, 2, 0, 1);
    assert_eq!(action2, 3);
    assert_eq!((g.fold, g.check, g.call, g.raise, g.all_in), (0, 0, 139_534, 767_443, 93_023));
    let sum = g.call as u64 + g.raise as u64 + g.all_in as u64;
    assert_eq!(sum, 1_000_000);
}

#[test]
fn raise_sizing_by_street() {
    // preflop: a fixed 3 BB open (300 in BB x 100)
    let (_, _, pre) = compute_strategy(850_000, 500, 0, 0, 1);
    assert_eq!(pre, 300);
    // flop: two thirds of SPR x 100
    let (_, _, flop) = compute_strategy(850_000, 500, 1, 0, 1);
    assert_eq!(flop, 335);
    // turn: three quarters
    let (_, _, turn) = compute_strategy(850_000, 500, 2, 0, 1);
    assert_eq!(turn, 375);
    // river with a strong hand: full pot
    let (_, _, river) = compute_strategy(850_000, 500, 3, 0, 1);
    assert_eq!(river, 500);
    // river with a middling hand that still raises over a tenth: half pot
    let (_, f, river_weak) = compute_strategy(650_000, 500, 3, 3, 1);
    assert!(f.raise > 100_000);
    assert_eq!(river_weak, 250);
}

#[test]
fn position_bonus_can_move_the_bucket() {
    // 0.58 equity on the button gets the +0.06 bonus and plays the strong row
    let (_, on_button, _) = compute_strategy(580_000, 500, 1, 0, 1);
    let (_, out_of_position, _) = compute_strategy(580_000, 500, 1, 3, 1);
    assert!(on_button.raise > out_of_position.raise);
    assert!(out_of_position.fold >= on_button.fold);
}

#[test]
fn confidence_is_exact_and_clamped() {
    // 4000 sims, flop, one opponent: 0.4 x 0.6 x 0.95 = 0.228
    assert_eq!(compute_confidence(4000, 3, 1), 228_000);
    // river with many sims, one opponent: 0.8 x 0.95 x 0.95 = 0.722
    assert_eq!(compute_confidence(8000, 5, 1), 722_000);
    // tiny sims clamp up to the floor
    assert_eq!(compute_confidence(100, 0, 1), 100_000);
    // many opponents cap the penalty at 0.3
    let c = compute_confidence(10000, 5, 50);
    assert_eq!(c, 665_000); // 1.0 x 0.95 x 0.7
}

#[test]
fn ev_is_zero_for_zero_equity_fold() {
    let f = Frequencies { fold: 1_000_000, check: 0, call: 0, raise: 0, all_in: 0 };
    assert_eq!(compute_ev(0, 1000, &f, 0), 0);
    // a pure call with certain equity wins the pot
    let f2 = Frequencies { fold: 0, check: 0, call: 1_000_000, raise: 0, all_in: 0 };
    assert_eq!(compute_ev(1_000_000, 1000, &f2, 0), 1000);
}

// ── Solver end to end ───────────────────────────────────────────────

#[test]
fn solve_is_deterministic() {
    let t = init_tables();
    let p1 = params(0, 1, vec![48, 49, 40, 36, 32], vec![50, 44, 38], 1000, 5000, 0, 2);
    let p2 = params(0, 1, vec![48, 49, 40, 36, 32], vec![50, 44, 38], 1000, 5000, 0, 2);
    let r1 = solve(&t, p1);
    let r2 = solve(&t, p2);
    assert_eq!(r1, r2);
}

#[test]
fn solve_result_contracts_hold() {
    let t = init_tables();
    let p = params(1, 2, vec![48, 49, 50, 40, 36, 32], vec![44, 38, 30, 20], 2000, 3000, 5, 3);
    let r = solve(&t, p).unwrap();
    assert!(r.equity_ppm <= 1_000_000);
    assert!((100_000..=990_000).contains(&r.confidence_ppm));
    let sum = r.freq_fold_ppm as u64 + r.freq_check_ppm as u64 + r.freq_call_ppm as u64
        + r.freq_raise_ppm as u64 + r.freq_allin_ppm as u64;
    assert_eq!(sum, 1_000_000);
    assert!(r.action <= 4);
}

#[test]
fn solve_state_direct_call() {
    let t = init_tables();
    let p = params(0, 3, vec![48, 49, 40, 36, 32], vec![50, 44, 38, 30, 20], 1000, 500, 0, 2);
    // SPR is 0.5: committed or folding, never a middling action
    let r = solve_state(&t, &p);
    assert!(r.action == 0 || r.action == 4);
}

#[test]
fn solve_rejects_bad_cards() {
    let t = init_tables();
    let p = params(0, 1, vec![48, 52, 40, 36, 32], vec![50, 44, 38], 1000, 5000, 0, 2);
    assert_eq!(solve(&t, p), Err(EngineError::InvalidArgument));
    let p2 = params(0, 1, vec![48], vec![50, 44, 38], 1000, 5000, 0, 2);
    assert_eq!(solve(&t, p2), Err(EngineError::InvalidArgument));
}

// ── Boundary calls ──────────────────────────────────────────────────

#[test]
fn evaluate_checks_its_arguments() {
    let t = init_tables();
    assert_eq!(evaluate(&t, &vec![51, 47, 43, 39, 35]), Ok(1));
    assert_eq!(evaluate(&t, &vec![51, 47, 43, 39]), Err(EngineError::InvalidArgument));
    assert_eq!(evaluate(&t, &vec![51, 47, 43, 39, 52]), Err(EngineError::InvalidArgument));
}

#[test]
fn equity_checks_its_arguments() {
    let t = init_tables();
    let ok = equity(&t, &vec![48, 49, 40, 36], &vec![50, 44, 38], 500).unwrap();
    assert!(ok <= 1_000_000);
    assert_eq!(
        equity(&t, &vec![48, 49, 40], &vec![50, 44, 38], 500),
        Err(EngineError::InvalidArgument)
    );
    assert_eq!(
        equity(&t, &vec![48, 49, 40, 36], &vec![50, 44, 38], 0),
        Err(EngineError::InvalidArgument)
    );
}
