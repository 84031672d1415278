//! The strategy engine: a deterministic, closed-form mapping from equity and
//! context (stack-to-pot ratio, street, position, opponent count) to a mixed
//! strategy over {fold, check, call, raise, all-in}, a raise size, an expected
//! value, and a confidence score.
//!
//! All quantities are exact integers: probabilities in parts per million
//! (ppm), street multipliers in per mille, stack-to-pot ratio in hundredths,
//! chips in BB x 100.

use vstd::arithmetic::div_mod::lemma_div_by_multiple;
use vstd::arithmetic::div_mod::lemma_div_is_ordered;
use vstd::arithmetic::div_mod::lemma_fundamental_div_mod;
use vstd::prelude::*;

use crate::evaluator::Tables;
use crate::omaha;
use crate::SolveParams;
use crate::SolveResult;

verus! {

/// An action-frequency vector in ppm over fold, check, call, raise, all-in.
#[derive(Clone, Copy, Debug, PartialEq, Eq, Structural)]
pub struct Frequencies {
    pub fold: u32,
    pub check: u32,
    pub call: u32,
    pub raise: u32,
    pub all_in: u32,
}

/// Street aggression multiplier, in per mille: later streets play more
/// polarised.
pub open spec fn spec_street_mult(street: int) -> int {
    if street == 0 {
        850
    } else if street == 1 {
        1000
    } else if street == 2 {
        1100
    } else if street == 3 {
        1250
    } else {
        1000
    }
}

/// Positional equity bonus in ppm: the button and late seats play more hands.
pub open spec fn spec_pos_bonus(position: int) -> int {
    if position == 0 {
        60000
    } else if position == 5 {
        40000
    } else if position == 4 {
        20000
    } else {
        0
    }
}

/// Multi-way penalty in ppm: each opponent past the first tightens play.
pub open spec fn spec_multiway_penalty(opponents: int) -> int {
    if opponents > 1 {
        40000 * (opponents - 1)
    } else {
        0
    }
}

/// Equity adjusted for position and opponent count, clamped to [0, 1].
pub open spec fn spec_adj_equity(equity: int, position: int, opponents: int) -> int {
    let raw = equity + spec_pos_bonus(position) - spec_multiway_penalty(opponents);
    if raw < 0 {
        0
    } else if raw > 1_000_000 {
        1_000_000
    } else {
        raw
    }
}

/// The raw frequency table of the standard branch, in ppm, before
/// normalisation: one row per adjusted-equity bucket, the raise entry scaled
/// by the street multiplier `m` (per mille).
pub open spec fn spec_raw_freqs(adj: int, m: int) -> Seq<int> {
    if adj > 750000 {
        seq![0, 0, 150000, 750 * m, 100000]
    } else if adj > 600000 {
        seq![0, 100000, 400000, 500 * m, 0]
    } else if adj > 450000 {
        seq![100000, 300000, 450000, 150 * m, 0]
    } else if adj > 300000 {
        seq![350000, 400000, 150000, 100 * m, 0]
    } else if adj > 180000 {
        seq![550000, 350000, 0, 100 * m, 0]
    } else {
        seq![850000, 100000, 0, 50000, 0]
    }
}

/// Sum of a five-entry vector.
pub open spec fn spec_sum5(f: Seq<int>) -> int {
    f[0] + f[1] + f[2] + f[3] + f[4]
}

/// First index of a maximal entry: ties go to the lower index.
pub open spec fn spec_argmax5(f: Seq<int>) -> int {
    if f[0] >= f[1] && f[0] >= f[2] && f[0] >= f[3] && f[0] >= f[4] {
        0
    } else if f[1] >= f[2] && f[1] >= f[3] && f[1] >= f[4] {
        1
    } else if f[2] >= f[3] && f[2] >= f[4] {
        2
    } else if f[3] >= f[4] {
        3
    } else {
        4
    }
}

/// Raise size in BB x 100: a fixed 3 BB open preflop; otherwise a street-set
/// fraction of the pot-sized stack (the river bets pot with a strong hand,
/// half pot otherwise), capped at 99,999. Zero when the strategy hardly ever
/// raises.
pub open spec fn spec_raise_amount(adj: int, street: int, spr_cents: int, f: Seq<int>) -> int {
    if f[3] > 100000 || f[4] > 100000 {
        if street == 0 {
            300
        } else {
            let pct: int = if street == 1 {
                67
            } else if street == 2 {
                75
            } else if street == 3 {
                if adj > 700000 {
                    100
                } else {
                    50
                }
            } else {
                67
            };
            let amount = pct * spr_cents / 100;
            if amount > 99999 {
                99999
            } else {
                amount
            }
        }
    } else {
        0
    }
}

/// Normalisation of a raw row: entries are floor-divided so that the vector
/// sums to at most 1,000,000 ppm, and the remainder goes to the most frequent
/// action, which is also the recommended one. Returns (action, frequencies).
pub open spec fn spec_normalize5(raw: Seq<int>) -> (int, Seq<int>) {
    let s = spec_sum5(raw);
    let g = seq![
        raw[0] * 1000000 / s,
        raw[1] * 1000000 / s,
        raw[2] * 1000000 / s,
        raw[3] * 1000000 / s,
        raw[4] * 1000000 / s,
    ];
    let a = spec_argmax5(g);
    (a, g.update(a, g[a] + (1000000 - spec_sum5(g))))
}

/// The whole strategy: action, normalised frequency vector, raise size.
///
/// Below a stack-to-pot ratio of two the hand is either committed (all-in)
/// or given up. Otherwise the bucket row is normalised to sum to exactly
/// 1,000,000 ppm.
pub open spec fn spec_compute_strategy(
    equity: int,
    spr_cents: int,
    street: int,
    position: int,
    opponents: int,
) -> (int, Seq<int>, int) {
    let adj = spec_adj_equity(equity, position, opponents);
    if spr_cents < 200 {
        if adj > 400000 {
            (4, seq![0, 0, 0, 100000, 900000], 0)
        } else {
            (0, seq![850000, 0, 150000, 0, 0], 0)
        }
    } else {
        let raw = spec_raw_freqs(adj, spec_street_mult(street));
        let (a, f) = spec_normalize5(raw);
        (a, f, spec_raise_amount(adj, street, spr_cents, f))
    }
}

/// Normalise a raw frequency row, as executable code.
#[verifier::rlimit(100)]
fn normalize5(r0: u64, r1: u64, r2: u64, r3: u64, r4: u64) -> (res: (u32, Frequencies))
    requires
        r0 <= 2_000_000,
        r1 <= 2_000_000,
        r2 <= 2_000_000,
        r3 <= 2_000_000,
        r4 <= 2_000_000,
        r0 + r1 + r2 + r3 + r4 >= 1,
    ensures
        ({
            let (a, f) = spec_normalize5(
                seq![r0 as int, r1 as int, r2 as int, r3 as int, r4 as int],
            );
            &&& res.0 == a
            &&& res.1.fold == f[0]
            &&& res.1.check == f[1]
            &&& res.1.call == f[2]
            &&& res.1.raise == f[3]
            &&& res.1.all_in == f[4]
        }),
        res.1.fold + res.1.check + res.1.call + res.1.raise + res.1.all_in == 1_000_000,
        res.1.fold <= 1_000_000 && res.1.check <= 1_000_000 && res.1.call <= 1_000_000
            && res.1.raise <= 1_000_000 && res.1.all_in <= 1_000_000,
        res.0 <= 4,
{
    let s: u64 = r0 + r1 + r2 + r3 + r4;
    let g0: u64 = r0 * 1000000 / s;
    let g1: u64 = r1 * 1000000 / s;
    let g2: u64 = r2 * 1000000 / s;
    let g3: u64 = r3 * 1000000 / s;
    let g4: u64 = r4 * 1000000 / s;
    proof {
        let si = s as int;
        lemma_div_add_le(r0 as int * 1000000, r1 as int * 1000000, si);
        lemma_div_add_le(r0 as int * 1000000 + r1 as int * 1000000, r2 as int * 1000000, si);
        lemma_div_add_le(
            r0 as int * 1000000 + r1 as int * 1000000 + r2 as int * 1000000,
            r3 as int * 1000000,
            si,
        );
        lemma_div_add_le(
            r0 as int * 1000000 + r1 as int * 1000000 + r2 as int * 1000000 + r3 as int * 1000000,
            r4 as int * 1000000,
            si,
        );
        assert((r0 as int * 1000000 + r1 as int * 1000000 + r2 as int * 1000000 + r3 as int
            * 1000000 + r4 as int * 1000000) == si * 1000000);
        lemma_div_by_multiple(1000000, si);
        assert((1000000 * si) / si == 1000000);
        assert(si * 1000000 == 1000000 * si) by (nonlinear_arith);
        lemma_div_add_le(r1 as int * 1000000, r2 as int * 1000000, si);
        lemma_div_add_le(r2 as int * 1000000, r3 as int * 1000000, si);
        lemma_div_add_le(r3 as int * 1000000, r4 as int * 1000000, si);
        lemma_div_add_le(r4 as int * 1000000, 0, si);
    }
    let gsum: u64 = g0 + g1 + g2 + g3 + g4;
    let deficit: u64 = 1000000 - gsum;
    let action: u32 = if g0 >= g1 && g0 >= g2 && g0 >= g3 && g0 >= g4 {
        0
    } else if g1 >= g2 && g1 >= g3 && g1 >= g4 {
        1
    } else if g2 >= g3 && g2 >= g4 {
        2
    } else if g3 >= g4 {
        3
    } else {
        4
    };
    let f0: u64 = if action == 0 {
        g0 + deficit
    } else {
        g0
    };
    let f1: u64 = if action == 1 {
        g1 + deficit
    } else {
        g1
    };
    let f2: u64 = if action == 2 {
        g2 + deficit
    } else {
        g2
    };
    let f3: u64 = if action == 3 {
        g3 + deficit
    } else {
        g3
    };
    let f4: u64 = if action == 4 {
        g4 + deficit
    } else {
        g4
    };
    let freqs = Frequencies {
        fold: f0 as u32,
        check: f1 as u32,
        call: f2 as u32,
        raise: f3 as u32,
        all_in: f4 as u32,
    };
    proof {
        let gseq: Seq<int> = seq![g0 as int, g1 as int, g2 as int, g3 as int, g4 as int];
        assert(action == spec_argmax5(gseq));
        let fseq = gseq.update(action as int, gseq[action as int] + (1000000 - spec_sum5(gseq)));
        assert(fseq[0] == f0 && fseq[1] == f1 && fseq[2] == f2 && fseq[3] == f3 && fseq[4] == f4);
    }
    (action, freqs)
}

/// Floor division distributes over addition with a loss: the floors of the
/// parts never exceed the floor of the sum.
proof fn lemma_div_add_le(a: int, b: int, s: int)
    requires
        0 <= a,
        0 <= b,
        0 < s,
    ensures
        a / s + b / s <= (a + b) / s,
        0 <= a / s,
{
    lemma_fundamental_div_mod(a, s);
    lemma_fundamental_div_mod(b, s);
    let q = a / s + b / s;
    assert(s * (a / s + b / s) == s * (a / s) + s * (b / s)) by (nonlinear_arith);
    assert(s * q <= a + b);
    lemma_div_is_ordered(s * q, a + b, s);
    lemma_div_by_multiple(q, s);
    assert((q * s) / s == q);
    assert(q * s == s * q) by (nonlinear_arith);
    assert(0 <= a / s) by {
        lemma_div_is_ordered(0, a, s);
        assert(0int / s == 0) by {
            lemma_div_by_multiple(0, s);
        }
    }
}

/// Compute the mixed strategy for an equity (ppm), stack-to-pot ratio
/// (hundredths), street, position and opponent count. Returns the
/// recommended action, the frequency vector, and the raise size.
///
/// The frequency vector always sums to exactly 1,000,000 ppm with every
/// entry in [0, 1,000,000].
#[verifier::rlimit(100)]
pub fn compute_strategy(
    equity_ppm: u32,
    spr_cents: u64,
    street: u32,
    position: u32,
    opponents: u64,
) -> (res: (u32, Frequencies, u32))
    requires
        equity_ppm <= 1_000_000,
        spr_cents <= 0x1_0000_0000_0000,
    ensures
        ({
            let (a, f, raise) = spec_compute_strategy(
                equity_ppm as int,
                spr_cents as int,
                street as int,
                position as int,
                opponents as int,
            );
            &&& res.0 == a
            &&& res.1.fold == f[0]
            &&& res.1.check == f[1]
            &&& res.1.call == f[2]
            &&& res.1.raise == f[3]
            &&& res.1.all_in == f[4]
            &&& res.2 == raise
        }),
        res.1.fold + res.1.check + res.1.call + res.1.raise + res.1.all_in == 1_000_000,
        res.1.fold <= 1_000_000 && res.1.check <= 1_000_000 && res.1.call <= 1_000_000
            && res.1.raise <= 1_000_000 && res.1.all_in <= 1_000_000,
        res.0 <= 4,
        res.2 <= 100_000,
{
    let ghost adj_spec: int = spec_adj_equity(
        equity_ppm as int,
        position as int,
        opponents as int,
    );
    // adjusted equity, clamped to [0, 1]
    let bonus: u64 = if position == 0 {
        60000
    } else if position == 5 {
        40000
    } else if position == 4 {
        20000
    } else {
        0
    };
    // with enough opponents the penalty alone exceeds any possible equity and
    // the clamp lands on zero either way, so capping the computation is exact
    let penalty: u64 = if opponents > 1 {
        if opponents - 1 > 100 {
            4_000_000
        } else {
            40000 * (opponents - 1)
        }
    } else {
        0
    };
    let gross: u64 = equity_ppm as u64 + bonus;
    let adj: u64 = if gross <= penalty {
        0
    } else if gross - penalty > 1_000_000 {
        1_000_000
    } else {
        gross - penalty
    };
    proof {
        assert(adj == adj_spec);
    }
    if spr_cents < 200 {
        if adj > 400000 {
            return (
                4,
                Frequencies { fold: 0, check: 0, call: 0, raise: 100000, all_in: 900000 },
                0,
            );
        } else {
            return (
                0,
                Frequencies { fold: 850000, check: 0, call: 150000, raise: 0, all_in: 0 },
                0,
            );
        }
    }
    let m: u64 = if street == 0 {
        850
    } else if street == 1 {
        1000
    } else if street == 2 {
        1100
    } else if street == 3 {
        1250
    } else {
        1000
    };
    let (r0, r1, r2, r3, r4): (u64, u64, u64, u64, u64) = if adj > 750000 {
        (0, 0, 150000, 750 * m, 100000)
    } else if adj > 600000 {
        (0, 100000, 400000, 500 * m, 0)
    } else if adj > 450000 {
        (100000, 300000, 450000, 150 * m, 0)
    } else if adj > 300000 {
        (350000, 400000, 150000, 100 * m, 0)
    } else if adj > 180000 {
        (550000, 350000, 0, 100 * m, 0)
    } else {
        (850000, 100000, 0, 50000, 0)
    };
    let ghost raw: Seq<int> = spec_raw_freqs(adj as int, m as int);
    proof {
        assert(raw =~= seq![r0 as int, r1 as int, r2 as int, r3 as int, r4 as int]);
    }
    let (action, freqs) = normalize5(r0, r1, r2, r3, r4);
    // raise sizing
    let raise_amount: u32 = if freqs.raise > 100000 || freqs.all_in > 100000 {
        if street == 0 {
            300
        } else {
            let pct: u64 = if street == 1 {
                67
            } else if street == 2 {
                75
            } else if street == 3 {
                if adj > 700000 {
                    100
                } else {
                    50
                }
            } else {
                67
            };
            proof {
                assert(pct as int * (spr_cents as int) <= 100 * 0x1_0000_0000_0000int)
                    by (nonlinear_arith)
                    requires
                        0 <= pct as int <= 100,
                        0 <= spr_cents as int <= 0x1_0000_0000_0000,
                ;
            }
            let amount: u64 = pct * spr_cents / 100;
            if amount > 99999 {
                99999
            } else {
                amount as u32
            }
        }
    } else {
        0
    };
    (action, freqs, raise_amount)
}

/// Expected value of the mixed strategy, in BB x 100, scaled exactly: calling
/// risks half the pot, raising risks the raise, checking realises half the
/// call value and the all-in fraction is weighted up by one fifth; folding
/// contributes nothing. The exact rational is truncated toward zero and
/// saturated to the 32-bit range.
pub open spec fn spec_ev(equity: int, pot: int, f: Seq<int>, raise: int) -> int {
    let evc2 = pot * (3 * equity - 1000000);
    let evr2 = 2 * equity * (pot + raise) - 2 * (1000000 - equity) * raise;
    let total = f[1] * 5 * evc2 + f[2] * 10 * evc2 + f[3] * 10 * evr2 + f[4] * 12 * evr2;
    let ev = if total >= 0 {
        total / 20_000_000_000_000
    } else {
        -((-total) / 20_000_000_000_000)
    };
    if ev > 0x7fff_ffff {
        0x7fff_ffff
    } else if ev < -0x8000_0000 {
        -0x8000_0000
    } else {
        ev
    }
}

/// Expected value of the strategy in BB x 100.
pub fn compute_ev(equity_ppm: u32, pot: u32, frequencies: &Frequencies, raise: u32) -> (ev: i32)
    requires
        equity_ppm <= 1_000_000,
        frequencies.fold <= 1_000_000,
        frequencies.check <= 1_000_000,
        frequencies.call <= 1_000_000,
        frequencies.raise <= 1_000_000,
        frequencies.all_in <= 1_000_000,
        raise <= 100_000,
    ensures
        ev == spec_ev(
            equity_ppm as int,
            pot as int,
            seq![
                frequencies.fold as int,
                frequencies.check as int,
                frequencies.call as int,
                frequencies.raise as int,
                frequencies.all_in as int,
            ],
            raise as int,
        ),
{
    let e: i128 = equity_ppm as i128;
    let p: i128 = pot as i128;
    let r: i128 = raise as i128;
    let d1: i128 = 3 * e - 1000000;
    proof {
        assert(p as int * (d1 as int) <= 8589934590000000 && p as int * (d1 as int)
            >= -8589934590000000) by (nonlinear_arith)
            requires
                0 <= p as int <= 4294967295,
                -1000000 <= d1 as int <= 2000000,
        ;
    }
    let evc2: i128 = p * d1;
    let pr: i128 = p + r;
    proof {
        assert(2 * (e as int) * (pr as int) <= 2000000 * 4294967295 + 2000000 * 100000 && 0 <= 2
            * (e as int) * (pr as int)) by (nonlinear_arith)
            requires
                0 <= e as int <= 1000000,
                0 <= pr as int <= 4294967295 + 100000,
        ;
        assert(0 <= 2 * (1000000 - e as int) * (r as int) <= 2000000 * 100000)
            by (nonlinear_arith)
            requires
                0 <= e as int <= 1000000,
                0 <= r as int <= 100000,
        ;
    }
    let evr2: i128 = 2 * e * pr - 2 * (1000000 - e) * r;
    proof {
        assert(-8790034590000000 <= evc2 as int <= 8790034590000000);
        assert(-8790034590000000 <= evr2 as int <= 8790034590000000);
        assert(-105480415080000000000000 <= (frequencies.check as int) * 5 * (evc2 as int)
            <= 105480415080000000000000) by (nonlinear_arith)
            requires
                0 <= frequencies.check as int <= 1000000,
                -8790034590000000 <= evc2 as int <= 8790034590000000,
        ;
        assert(-105480415080000000000000 <= (frequencies.call as int) * 10 * (evc2 as int)
            <= 105480415080000000000000) by (nonlinear_arith)
            requires
                0 <= frequencies.call as int <= 1000000,
                -8790034590000000 <= evc2 as int <= 8790034590000000,
        ;
        assert(-105480415080000000000000 <= (frequencies.raise as int) * 10 * (evr2 as int)
            <= 105480415080000000000000) by (nonlinear_arith)
            requires
                0 <= frequencies.raise as int <= 1000000,
                -8790034590000000 <= evr2 as int <= 8790034590000000,
        ;
        assert(-105480415080000000000000 <= (frequencies.all_in as int) * 12 * (evr2 as int)
            <= 105480415080000000000000) by (nonlinear_arith)
            requires
                0 <= frequencies.all_in as int <= 1000000,
                -8790034590000000 <= evr2 as int <= 8790034590000000,
        ;
    }
    let t1: i128 = (frequencies.check as i128) * 5 * evc2;
    let t2: i128 = (frequencies.call as i128) * 10 * evc2;
    let t3: i128 = (frequencies.raise as i128) * 10 * evr2;
    let t4: i128 = (frequencies.all_in as i128) * 12 * evr2;
    let total: i128 = t1 + t2 + t3 + t4;
    let ev: i128 = if total >= 0 {
        ((total as u128) / 20_000_000_000_000) as i128
    } else {
        -((((-total) as u128) / 20_000_000_000_000) as i128)
    };
    if ev > 0x7fff_ffff {
        0x7fff_ffff
    } else if ev < -0x8000_0000 {
        (-0x8000_0000) as i32
    } else {
        ev as i32
    }
}

/// Confidence in the answer, in ppm: more simulations, a fuller board and
/// fewer opponents give more confidence; always within [100,000, 990,000].
pub open spec fn spec_confidence(sims: int, board_len: int, opponents: int) -> int {
    let sim_conf = if sims * 100 > 1_000_000 {
        1_000_000
    } else {
        sims * 100
    };
    let board_conf: int = if board_len == 0 {
        300000
    } else if board_len == 3 {
        600000
    } else if board_len == 4 {
        800000
    } else if board_len == 5 {
        950000
    } else {
        500000
    };
    let opp_penalty = if 50000 * opponents > 300000 {
        300000
    } else {
        50000 * opponents
    };
    let c = (sim_conf * board_conf / 1_000_000) * (1_000_000 - opp_penalty) / 1_000_000;
    if c < 100000 {
        100000
    } else if c > 990000 {
        990000
    } else {
        c
    }
}

/// Confidence in the solver answer, in ppm.
pub fn compute_confidence(sims: usize, board_len: usize, opponents: u64) -> (c: u32)
    requires
        sims <= 0xffff_ffff,
    ensures
        c == spec_confidence(sims as int, board_len as int, opponents as int),
        100_000 <= c <= 990_000,
{
    let sim_conf: u64 = if (sims as u64) * 100 > 1_000_000 {
        1_000_000
    } else {
        (sims as u64) * 100
    };
    let board_conf: u64 = if board_len == 0 {
        300000
    } else if board_len == 3 {
        600000
    } else if board_len == 4 {
        800000
    } else if board_len == 5 {
        950000
    } else {
        500000
    };
    let opp_penalty: u64 = if opponents > 6 {
        300000
    } else if 50000 * opponents > 300000 {
        300000
    } else {
        50000 * opponents
    };
    proof {
        assert(sim_conf as int * board_conf as int <= 1_000_000int * 1_000_000 && 0
            <= sim_conf as int * board_conf as int) by (nonlinear_arith)
            requires
                0 <= sim_conf as int <= 1_000_000,
                0 <= board_conf as int <= 1_000_000,
        ;
    }
    let sb: u64 = sim_conf * board_conf;
    let p1: u64 = sb / 1_000_000;
    proof {
        lemma_div_is_ordered(sb as int, 1_000_000int * 1_000_000, 1_000_000);
        lemma_div_by_multiple(1_000_000, 1_000_000);
        assert(p1 <= 1_000_000);
        assert(p1 as int * (1_000_000 - opp_penalty as int) <= 1_000_000int * 1_000_000 && 0
            <= p1 as int * (1_000_000 - opp_penalty as int)) by (nonlinear_arith)
            requires
                0 <= p1 as int <= 1_000_000,
                0 <= 1_000_000 - opp_penalty as int <= 1_000_000,
        ;
    }
    let p2: u64 = p1 * (1_000_000 - opp_penalty);
    let c: u64 = p2 / 1_000_000;
    if c < 100000 {
        100000
    } else if c > 990000 {
        990000
    } else {
        c as u32
    }
}

/// Number of opponents derived from the player count: everyone but the hero,
/// and at least one.
pub open spec fn spec_opponents(num_players: int) -> int {
    if num_players >= 2 {
        num_players - 1
    } else {
        1
    }
}

/// Simulation budget by format and street: PLO6 trades accuracy for speed;
/// later streets get more simulations.
pub open spec fn spec_sims(format: int, street: int) -> int {
    if format == 1 {
        3000
    } else if street == 3 {
        8000
    } else if street == 2 {
        5000
    } else {
        4000
    }
}

/// The solver answer as a function of the game state and the Monte-Carlo
/// equity (ppm) measured for it: everything after the simulation is
/// deterministic, so two answers for one state can differ only through the
/// equity estimate.
pub open spec fn spec_solve_from_equity(p: SolveParams, eq: int) -> SolveResult {
    let opponents = spec_opponents(p.num_players as int);
    let pot1: int = if p.pot_bb100 >= 1 {
        p.pot_bb100 as int
    } else {
        1
    };
    let spr_cents = (p.hero_stack as int) * 100 / pot1;
    let (a, f, raise) = spec_compute_strategy(
        eq,
        spr_cents,
        p.street as int,
        p.position as int,
        opponents,
    );
    let sims = spec_sims(p.format as int, p.street as int);
    SolveResult {
        action: a as u32,
        raise_amount_bb100: raise as u32,
        equity_ppm: eq as u32,
        ev_bb100: spec_ev(eq, pot1, f, raise) as i32,
        freq_fold_ppm: f[0] as u32,
        freq_check_ppm: f[1] as u32,
        freq_call_ppm: f[2] as u32,
        freq_raise_ppm: f[3] as u32,
        freq_allin_ppm: f[4] as u32,
        confidence_ppm: spec_confidence(sims, p.board_cards@.len() as int, opponents) as u32,
    }
}

/// Determinism of the answer: two solver results for one game state that
/// rest on the same equity estimate are identical, field by field. The
/// equity estimate itself is fixed by the simulator's default seed, so
/// identical requests give identical answers.
pub proof fn lemma_solve_deterministic(p: SolveParams, eq: int, r1: SolveResult, r2: SolveResult)
    requires
        r1 == spec_solve_from_equity(p, eq),
        r2 == spec_solve_from_equity(p, eq),
    ensures
        r1 == r2,
{
}

/// Solve one game state: simulate the equity, then apply the strategy
/// engine. The answer is `spec_solve_from_equity` at the measured equity,
/// so everything but the Monte-Carlo estimate is pinned down exactly.
pub fn solve_state(t: &Tables, params: &SolveParams) -> (res: SolveResult)
    requires
        t.wf(),
        2 <= params.hero_cards@.len(),
        params.board_cards@.len() <= 5,
        omaha::cards_in_range(params.hero_cards@),
        omaha::cards_in_range(params.board_cards@),
        omaha::cards_in_range(params.dead_cards@),
    ensures
        exists|eq: int| 0 <= eq <= 1_000_000 && res == spec_solve_from_equity(*params, eq),
        res.equity_ppm <= 1_000_000,
        100_000 <= res.confidence_ppm <= 990_000,
        res.freq_fold_ppm + res.freq_check_ppm + res.freq_call_ppm + res.freq_raise_ppm
            + res.freq_allin_ppm == 1_000_000,
{
    let hand_size: usize = if params.format == 1 {
        6
    } else {
        5
    };
    let sims: usize = if params.format == 1 {
        3000
    } else if params.street == 3 {
        8000
    } else if params.street == 2 {
        5000
    } else {
        4000
    };
    let opponents: u64 = if params.num_players >= 2 {
        (params.num_players - 1) as u64
    } else {
        1
    };
    let equity_ppm = omaha::monte_carlo_equity(
        t,
        &params.hero_cards,
        &params.board_cards,
        &params.dead_cards,
        sims,
        opponents as usize,
        hand_size,
    );
    let pot1: u32 = if params.pot_bb100 >= 1 {
        params.pot_bb100
    } else {
        1
    };
    let spr_cents: u64 = (params.hero_stack as u64) * 100 / (pot1 as u64);
    let (action, freqs, raise_amount) = compute_strategy(
        equity_ppm,
        spr_cents,
        params.street,
        params.position,
        opponents,
    );
    let ev_bb100 = compute_ev(equity_ppm, pot1, &freqs, raise_amount);
    let confidence_ppm = compute_confidence(sims, params.board_cards.len(), opponents);
    let res = SolveResult {
        action,
        raise_amount_bb100: raise_amount,
        equity_ppm,
        ev_bb100,
        freq_fold_ppm: freqs.fold,
        freq_check_ppm: freqs.check,
        freq_call_ppm: freqs.call,
        freq_raise_ppm: freqs.raise,
        freq_allin_ppm: freqs.all_in,
        confidence_ppm,
    };
    proof {
        assert(res == spec_solve_from_equity(*params, equity_ppm as int));
    }
    res
}

} // verus!
