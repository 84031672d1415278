//! Core poker solving engine for Pot-Limit Omaha (PLO5, PLO6) and No-Limit
//! Hold'em: a constant-time 5-card hand evaluator, an Omaha best-hand
//! enumerator, a Monte-Carlo equity estimator, and a deterministic strategy
//! engine.
//!
//! Chip amounts are in BB x 100 fixed point. Probabilities — equity, action
//! frequencies, confidence — are integers in parts per million (ppm), so that
//! every contract is exact: 1,000,000 stands for probability one.

use vstd::prelude::*;

pub mod evaluator;
pub mod omaha;
mod rng;
pub mod solver;

verus! {

/// Why a boundary call was rejected.
#[derive(Clone, Copy, Debug, PartialEq, Eq, Structural)]
pub enum EngineError {
    /// A card count or card id outside what the call accepts.
    InvalidArgument,
}

/// A solver request: the game state one decision is to be made for.
pub struct SolveParams {
    /// 0 = PLO5, 1 = PLO6, 2 = NLH.
    pub format: u32,
    /// 0 = preflop, 1 = flop, 2 = turn, 3 = river.
    pub street: u32,
    /// Hero hole cards as card ids (0-51).
    pub hero_cards: Vec<u8>,
    /// Board cards as card ids (0-51).
    pub board_cards: Vec<u8>,
    /// Known dead or folded cards.
    pub dead_cards: Vec<u8>,
    /// Pot size in BB x 100.
    pub pot_bb100: u32,
    /// Hero stack in BB x 100.
    pub hero_stack: u32,
    /// Villain stacks in BB x 100.
    pub villain_stacks: Vec<u32>,
    /// Hero position: 0 = BTN, 1 = SB, 2 = BB, 3 = UTG, 4 = MP, 5 = CO.
    pub position: u32,
    /// Number of players still in the hand.
    pub num_players: u32,
}

/// A solver answer: the recommended action with its mixed strategy.
#[derive(Clone, Copy, Debug, PartialEq, Eq, Structural)]
pub struct SolveResult {
    /// Recommended action: 0 = fold, 1 = check, 2 = call, 3 = raise, 4 = all-in.
    pub action: u32,
    /// Raise size in BB x 100; 0 with action 4 means shove the whole stack.
    pub raise_amount_bb100: u32,
    /// Hero equity in ppm.
    pub equity_ppm: u32,
    /// Expected value in BB x 100.
    pub ev_bb100: i32,
    /// Action frequencies in ppm; they sum to exactly 1,000,000.
    pub freq_fold_ppm: u32,
    pub freq_check_ppm: u32,
    pub freq_call_ppm: u32,
    pub freq_raise_ppm: u32,
    pub freq_allin_ppm: u32,
    /// Confidence in the answer, in ppm, within [100,000, 990,000].
    pub confidence_ppm: u32,
}

/// Raw 5-card evaluation at the boundary: exactly five cards, each a valid
/// id, give the hand's rank; anything else is an argument error.
pub fn evaluate(t: &evaluator::Tables, cards: &Vec<u8>) -> (res: Result<u32, EngineError>)
    requires
        t.wf(),
    ensures
        res matches Ok(r) <==> cards@.len() == 5 && omaha::cards_in_range(cards@),
        res matches Ok(r) ==> r == evaluator::spec_eval5(omaha::ids(cards@)) && 1 <= r <= 7462,
        res matches Err(e) ==> e == EngineError::InvalidArgument,
{
    if cards.len() != 5 {
        return Err(EngineError::InvalidArgument);
    }
    let mut k: usize = 0;
    while k < 5
        invariant
            cards@.len() == 5,
            k <= 5,
            forall|x: int| 0 <= x < k ==> #[trigger] cards@[x] < 52,
        decreases 5 - k,
    {
        if cards[k] >= 52 {
            return Err(EngineError::InvalidArgument);
        }
        k = k + 1;
    }
    let r = evaluator::evaluate_5cards(
        t,
        cards[0] as usize,
        cards[1] as usize,
        cards[2] as usize,
        cards[3] as usize,
        cards[4] as usize,
    );
    proof {
        assert(omaha::ids(cards@) =~= seq![
            cards@[0] as usize as int,
            cards@[1] as usize as int,
            cards@[2] as usize as int,
            cards@[3] as usize as int,
            cards@[4] as usize as int,
        ]);
    }
    Ok(r as u32)
}

/// Equity at the boundary: hero against one uniformly random opponent whose
/// hand size is the hero's. The hand size must be 4, 5 or 6, the board at
/// most five known cards, every id valid, and at least one simulation run.
pub fn equity(
    t: &evaluator::Tables,
    hero_cards: &Vec<u8>,
    board_cards: &Vec<u8>,
    sims: u32,
) -> (res: Result<u32, EngineError>)
    requires
        t.wf(),
    ensures
        res matches Ok(r) <==> (4 <= hero_cards@.len() <= 6 && board_cards@.len() <= 5
            && omaha::cards_in_range(hero_cards@) && omaha::cards_in_range(board_cards@) && 1
            <= sims),
        res matches Ok(r) ==> r <= 1_000_000,
        res matches Ok(r) ==> (omaha::free_upto(hero_cards@, board_cards@, Seq::<u8>::empty(), 52)
            < 5 - board_cards@.len() + hero_cards@.len() ==> r == 500_000),
        res matches Ok(r) ==> (omaha::free_upto(hero_cards@, board_cards@, Seq::<u8>::empty(), 52)
            >= 5 - board_cards@.len() + hero_cards@.len() ==> exists|w: int, ti: int|
            0 <= w && 0 <= ti && #[trigger] (w + ti) <= sims && r == (2 * w + ti) * 500_000 / (
            sims as int)),
        res matches Err(e) ==> e == EngineError::InvalidArgument,
{
    if hero_cards.len() < 4 || hero_cards.len() > 6 {
        return Err(EngineError::InvalidArgument);
    }
    if board_cards.len() > 5 {
        return Err(EngineError::InvalidArgument);
    }
    if sims < 1 {
        return Err(EngineError::InvalidArgument);
    }
    let mut k: usize = 0;
    while k < hero_cards.len()
        invariant
            k <= hero_cards@.len(),
            forall|x: int| 0 <= x < k ==> #[trigger] hero_cards@[x] < 52,
        decreases hero_cards@.len() - k,
    {
        if hero_cards[k] >= 52 {
            return Err(EngineError::InvalidArgument);
        }
        k = k + 1;
    }
    let mut k2: usize = 0;
    while k2 < board_cards.len()
        invariant
            k2 <= board_cards@.len(),
            forall|x: int| 0 <= x < k2 ==> #[trigger] board_cards@[x] < 52,
        decreases board_cards@.len() - k2,
    {
        if board_cards[k2] >= 52 {
            return Err(EngineError::InvalidArgument);
        }
        k2 = k2 + 1;
    }
    let dead: Vec<u8> = Vec::new();
    proof {
        assert(dead@ =~= Seq::<u8>::empty());
    }
    let hand_size = hero_cards.len();
    let e = omaha::monte_carlo_equity(
        t,
        hero_cards,
        board_cards,
        &dead,
        sims as usize,
        1,
        hand_size,
    );
    Ok(e)
}

/// Solve a game state: the main entry point. Rejects malformed card inputs;
/// on valid input the result is the strategy engine's answer for the
/// Monte-Carlo equity of the state.
pub fn solve(t: &evaluator::Tables, params: SolveParams) -> (res: Result<
    SolveResult,
    EngineError,
>)
    requires
        t.wf(),
    ensures
        res matches Ok(r) <==> (2 <= params.hero_cards@.len() && params.board_cards@.len() <= 5
            && omaha::cards_in_range(params.hero_cards@) && omaha::cards_in_range(
            params.board_cards@,
        ) && omaha::cards_in_range(params.dead_cards@)),
        res matches Ok(r) ==> exists|eq: int|
            0 <= eq <= 1_000_000 && r == solver::spec_solve_from_equity(params, eq),
        res matches Err(e) ==> e == EngineError::InvalidArgument,
{
    if params.hero_cards.len() < 2 {
        return Err(EngineError::InvalidArgument);
    }
    if params.board_cards.len() > 5 {
        return Err(EngineError::InvalidArgument);
    }
    let mut k: usize = 0;
    while k < params.hero_cards.len()
        invariant
            k <= params.hero_cards@.len(),
            forall|x: int| 0 <= x < k ==> #[trigger] params.hero_cards@[x] < 52,
        decreases params.hero_cards@.len() - k,
    {
        if params.hero_cards[k] >= 52 {
            return Err(EngineError::InvalidArgument);
        }
        k = k + 1;
    }
    let mut k2: usize = 0;
    while k2 < params.board_cards.len()
        invariant
            k2 <= params.board_cards@.len(),
            forall|x: int| 0 <= x < k2 ==> #[trigger] params.board_cards@[x] < 52,
        decreases params.board_cards@.len() - k2,
    {
        if params.board_cards[k2] >= 52 {
            return Err(EngineError::InvalidArgument);
        }
        k2 = k2 + 1;
    }
    let mut k3: usize = 0;
    while k3 < params.dead_cards.len()
        invariant
            k3 <= params.dead_cards@.len(),
            forall|x: int| 0 <= x < k3 ==> #[trigger] params.dead_cards@[x] < 52,
        decreases params.dead_cards@.len() - k3,
    {
        if params.dead_cards[k3] >= 52 {
            return Err(EngineError::InvalidArgument);
        }
        k3 = k3 + 1;
    }
    Ok(solver::solve_state(t, &params))
}

} // verus!
