//! Decisions drawn from a tactical analysis of the hand: when to consult it,
//! which analysed actions tie for best, and how to choose among them.
use crate::bot::BotTurn;
use crate::engine::{same_action, Action};
use crate::heuristic::play::{
    choose_opening_raise, choose_play, opening_raise_chance_of, play_choice,
};
use crate::heuristic::raise::{raise_action, raise_choice};
use crate::heuristic::raise_response::{
    choose_mao_de_onze_response, choose_raise_response, eleven_chance_of, eleven_response_of,
    raise_call_chance_of, raise_response_of,
};
use crate::heuristic::BotProfile;
use rand::rngs::StdRng;
use vstd::prelude::*;

verus! {

/// The integer part of the analysis of one action: whether it forces a hand
/// win in every sampled deal and its worst-case signed points.
#[derive(Debug)]
pub struct TacticalOutcome {
    pub action: Action,
    pub force_hand_win: bool,
    pub worst_case_signed_points: i32,
}

/// The analysis is consulted when the turn matches the exact match state, no
/// mão de onze decision is pending, and the hand is past its opening (two or
/// fewer cards, a pending raise, a finished round or a card on the table).
pub open spec fn tactical_oracle_applies(turn: BotTurn, exact_state_matches: bool) -> bool {
    match turn.view.hand {
        None => false,
        Some(h) => exact_state_matches && h.public_state.pending_decision is None && (
        h.hand@.len() <= 2 || h.public_state.pending_raise is Some
            || h.public_state.completed_rounds@.len() != 0
            || h.public_state.current_round.plays@.len() != 0),
    }
}

/// Whether to decide this turn from the tactical analysis; `exact_state_matches`
/// tells whether the turn is the one the exact match state yields.
pub fn should_use_tactical_oracle(turn: &BotTurn, exact_state_matches: bool) -> (r: bool)
    ensures
        r == tactical_oracle_applies(*turn, exact_state_matches),
{
    let hand = match &turn.view.hand {
        Some(h) => h,
        None => {
            return false;
        },
    };
    if !exact_state_matches {
        return false;
    }
    if hand.public_state.pending_decision.is_some() {
        return false;
    }
    hand.hand.len() <= 2 || hand.public_state.pending_raise.is_some()
        || hand.public_state.completed_rounds.len() != 0
        || hand.public_state.current_round.plays.len() != 0
}

/// Index of the first outcome that forces a hand win by making the raise the
/// bot would make.
pub open spec fn forced_raise_index_of(turn: BotTurn, outcomes: Seq<TacticalOutcome>) -> Option<int> {
    match raise_choice(turn) {
        None => None,
        Some(raise) => first_forcing(outcomes, raise, 0),
    }
}

pub open spec fn first_forcing(outcomes: Seq<TacticalOutcome>, raise: Action, from: int) -> Option<int>
    decreases outcomes.len() - from,
{
    if from < 0 || from >= outcomes.len() {
        None
    } else if outcomes[from].force_hand_win && outcomes[from].action@ == raise@ {
        Some(from)
    } else {
        first_forcing(outcomes, raise, from + 1)
    }
}

/// The analysed raise that forces a hand win, if the bot would make that raise.
pub fn forced_raise_summary(turn: &BotTurn, outcomes: &Vec<TacticalOutcome>) -> (r: Option<usize>)
    ensures
        match r {
            Some(k) => forced_raise_index_of(*turn, outcomes@) == Some(k as int),
            None => forced_raise_index_of(*turn, outcomes@) is None,
        },
{
    let raise = match raise_action(turn) {
        Some(a) => a,
        None => {
            return None;
        },
    };
    let mut i: usize = 0;
    while i < outcomes.len()
        invariant
            i <= outcomes.len(),
            raise_choice(*turn) == Some(raise),
            first_forcing(outcomes@, raise, 0) == first_forcing(outcomes@, raise, i as int),
        decreases outcomes.len() - i,
    {
        if outcomes[i].force_hand_win && same_action(&outcomes[i].action, &raise) {
            return Some(i);
        }
        i = i + 1;
    }
    None
}

pub open spec fn force_score(o: TacticalOutcome) -> int {
    if o.force_hand_win { 1 } else { 0 }
}

/// Whether some outcome forces a hand win.
pub open spec fn any_forcing(outcomes: Seq<TacticalOutcome>) -> bool {
    exists|i: int| 0 <= i < outcomes.len() && (#[trigger] outcomes[i]).force_hand_win
}

/// Outcomes that tie for best: forcing a hand win if any does, then the
/// highest worst case among those.
pub open spec fn is_best(outcomes: Seq<TacticalOutcome>, i: int) -> bool {
    &&& 0 <= i < outcomes.len()
    &&& outcomes[i].force_hand_win == any_forcing(outcomes)
    &&& forall|j: int|
        0 <= j < outcomes.len() && (#[trigger] outcomes[j]).force_hand_win == any_forcing(outcomes)
            ==> outcomes[j].worst_case_signed_points <= outcomes[i].worst_case_signed_points
}

/// The indices, in order, of the outcomes that tie for best on forcing a hand
/// win and then on the worst case (the last tie-break, on average points,
/// is made by the caller).
pub fn best_by_force_and_worst_case(outcomes: &Vec<TacticalOutcome>) -> (r: Vec<usize>)
    ensures
        forall|k: int| 0 <= k < r@.len() ==> is_best(outcomes@, #[trigger] r@[k] as int),
        forall|i: int| is_best(outcomes@, i) ==> r@.contains(i as usize),
        forall|a: int, b: int| 0 <= a < b < r@.len() ==> r@[a] < r@[b],
{
    let mut forcing = false;
    let mut i: usize = 0;
    while i < outcomes.len()
        invariant
            i <= outcomes.len(),
            forcing == exists|j: int| 0 <= j < i && (#[trigger] outcomes@[j]).force_hand_win,
        decreases outcomes.len() - i,
    {
        if outcomes[i].force_hand_win {
            forcing = true;
        }
        i = i + 1;
    }
    let mut best: Option<i32> = None;
    i = 0;
    while i < outcomes.len()
        invariant
            i <= outcomes.len(),
            forcing == any_forcing(outcomes@),
            match best {
                None => forall|j: int| 0 <= j < i ==> (#[trigger] outcomes@[j]).force_hand_win != forcing,
                Some(b) => (exists|j: int| 0 <= j < i && (#[trigger] outcomes@[j]).force_hand_win == forcing
                    && outcomes@[j].worst_case_signed_points == b) && forall|j: int|
                    0 <= j < i && (#[trigger] outcomes@[j]).force_hand_win == forcing
                        ==> outcomes@[j].worst_case_signed_points <= b,
            },
        decreases outcomes.len() - i,
    {
        if outcomes[i].force_hand_win == forcing {
            let w = outcomes[i].worst_case_signed_points;
            best = match best {
                None => Some(w),
                Some(b) => if w > b { Some(w) } else { Some(b) },
            };
        }
        i = i + 1;
    }
    let mut out: Vec<usize> = Vec::new();
    let best_value = match best {
        Some(b) => b,
        None => {
            return out;
        },
    };
    i = 0;
    while i < outcomes.len()
        invariant
            i <= outcomes.len(),
            forcing == any_forcing(outcomes@),
            forall|j: int| 0 <= j < outcomes@.len() && (#[trigger] outcomes@[j]).force_hand_win == forcing
                ==> outcomes@[j].worst_case_signed_points <= best_value,
            forall|k: int| 0 <= k < out@.len() ==> is_best(outcomes@, #[trigger] out@[k] as int),
            forall|k: int| 0 <= k < out@.len() ==> #[trigger] out@[k] < i,
            forall|j: int| 0 <= j < i && is_best(outcomes@, j) ==> out@.contains(j as usize),
            forall|a: int, b: int| 0 <= a < b < out@.len() ==> out@[a] < out@[b],
            forall|j: int| 0 <= j < outcomes@.len() && is_best(outcomes@, j) ==> outcomes@[j].worst_case_signed_points == best_value,
        decreases outcomes.len() - i,
    {
        let ghost prev = out@;
        if outcomes[i].force_hand_win == forcing && outcomes[i].worst_case_signed_points == best_value {
            out.push(i);
            proof {
                assert(is_best(outcomes@, i as int));
                assert forall|j: int| 0 <= j < i && is_best(outcomes@, j) implies out@.contains(j as usize) by {
                    let k = choose|k: int| 0 <= k < prev.len() && prev[k] == j as usize;
                    assert(out@[k] == j as usize);
                }
                assert(out@[out@.len() - 1] == i);
            }
        } else {
            proof {
                assert(!is_best(outcomes@, i as int));
            }
        }
        i = i + 1;
    }
    out
}

/// The tactical choice among the best analysed actions, given the outcomes of
/// the draws. `turn` is the turn restricted to those actions: a raise when one
/// of them forces a hand win and raising is worthwhile, else the heuristic
/// raise answer, mão de onze answer, opening raise or card play, else the
/// first of them.
pub open spec fn tactical_choice_of(
    turn: BotTurn,
    profile: BotProfile,
    any_forced: bool,
    raise_draw: bool,
    eleven_draw: bool,
    opening_draw: bool,
) -> Option<Action> {
    if turn.legal_actions@.len() == 0 {
        None
    } else if any_forced && raise_choice(turn) is Some {
        raise_choice(turn)
    } else if raise_response_of(turn, profile, raise_draw) is Some {
        raise_response_of(turn, profile, raise_draw)
    } else if eleven_response_of(turn, eleven_draw) is Some {
        eleven_response_of(turn, eleven_draw)
    } else if opening_draw && opening_raise_chance_of(turn, profile) is Some && raise_choice(turn) is Some {
        raise_choice(turn)
    } else if play_choice(turn) is Some {
        play_choice(turn)
    } else {
        Some(turn.legal_actions@[0])
    }
}

/// Chooses among the best analysed actions (`turn` restricted to them, see
/// `tactical_choice_of`); the choice is always one of those actions.
pub fn choose_tactical_action(
    turn: &BotTurn,
    profile: BotProfile,
    any_forced: bool,
    rng: &mut StdRng,
) -> (r: Option<Action>)
    ensures
        r is None <==> turn.legal_actions@.len() == 0,
        r matches Some(a) ==> turn.legal_actions@.contains(a),
        exists|rd: bool, ed: bool, od: bool|
            r == tactical_choice_of(*turn, profile, any_forced, rd, ed, od),
{
    if turn.legal_actions.len() == 0 {
        assert(tactical_choice_of(*turn, profile, any_forced, false, false, false) is None);
        return None;
    }
    if any_forced {
        if let Some(a) = raise_action(turn) {
            assert(Some(a) == tactical_choice_of(*turn, profile, any_forced, false, false, false));
            return Some(a);
        }
    }
    if let Some(a) = choose_raise_response(turn, profile, rng) {
        assert(Some(a) == tactical_choice_of(*turn, profile, any_forced, true, false, false)
            || Some(a) == tactical_choice_of(*turn, profile, any_forced, false, false, false));
        return Some(a);
    }
    let ghost rd = if raise_response_of(*turn, profile, true) is None { true } else { false };
    assert(raise_response_of(*turn, profile, rd) is None);
    if let Some(a) = choose_mao_de_onze_response(turn, profile, rng) {
        assert(Some(a) == tactical_choice_of(*turn, profile, any_forced, rd, true, false)
            || Some(a) == tactical_choice_of(*turn, profile, any_forced, rd, false, false));
        return Some(a);
    }
    let ghost ed = if eleven_response_of(*turn, true) is None { true } else { false };
    assert(eleven_response_of(*turn, ed) is None);
    if let Some(a) = choose_opening_raise(turn, profile, rng) {
        assert(Some(a) == tactical_choice_of(*turn, profile, any_forced, rd, ed, true));
        return Some(a);
    }
    if let Some(a) = choose_play(turn, profile) {
        assert(Some(a) == tactical_choice_of(*turn, profile, any_forced, rd, ed, false));
        return Some(a);
    }
    let first = turn.legal_actions[0].clone();
    assert(Some(first) == tactical_choice_of(*turn, profile, any_forced, rd, ed, false));
    Some(first)
}

} // verus!
