//! The simple trainer bot: fixed thresholds, no bluffing.
use crate::bot::{is_single_choice, single_choice_decision, BotDecision, BotError, BotTurn};
use crate::engine::{is_manilha_rank, Action, Turnup};
use crate::heuristic::cards::{
    candidates_of, candidates_well_formed, is_play_of, lemma_candidates_well_formed, lemma_max_strength_bounds,
    lemma_strengths_bounded, card_strengths, collect_candidates, count_at_least,
    count_manilhas, first_play_card, lemma_manilha_count_positive, lemma_top_of_hand, manilha_count, max_strength, public_card_strength, strength_of,
    strengths_at_least, strengths_of, top_strength, turn_candidates, visible_opponent_play,
    CandidateAction,
};
use crate::heuristic::play::{
    card_power, candidate_move, eligible, lemma_answer_setup, lemma_candidate_strength, lemma_move_plays_card,
    lemma_weakest_eligible, pick_weakest, plays_card, shown_opponent_strength, weakest_eligible, PickRule,
};
use crate::heuristic::raise::{first_raise, lemma_first_raise_in};
use crate::heuristic::raise_response::{offers, present_as};
use crate::rng::{seed_bytes_of, seeded_std_rng, gen_index, seed_bytes, shuffle_indices, std_rng_from_seed};
use rand::rngs::StdRng;
use vstd::prelude::*;

verus! {

/// A bot with fixed, readable rules, meant as a training opponent.
#[derive(Debug)]
pub struct SimpleTrainerBot {
    rng: StdRng,
}

fn offers_action(legal: &Vec<Action>, which: u8) -> (r: bool)
    requires
        which < 4,
    ensures
        r == offers(legal@, unit_action(which)),
{
    let mut i: usize = 0;
    while i < legal.len()
        invariant
            i <= legal.len(),
            which < 4,
            forall|j: int| 0 <= j < i ==> legal@[j] != unit_action(which),
        decreases legal.len() - i,
    {
        let hit = match &legal[i] {
            Action::AcceptRaise => which == 0,
            Action::Fold => which == 1,
            Action::AcceptEleven => which == 2,
            Action::FoldEleven => which == 3,
            _ => false,
        };
        if hit {
            assert(legal@[i as int] == unit_action(which));
            return true;
        }
        i = i + 1;
    }
    false
}

/// The answer actions by number: accept raise, fold, accept eleven, fold eleven.
pub open spec fn unit_action(which: u8) -> Action {
    if which == 0 {
        Action::AcceptRaise
    } else if which == 1 {
        Action::Fold
    } else if which == 2 {
        Action::AcceptEleven
    } else {
        Action::FoldEleven
    }
}

/// The trainer's answer to a pending raise or mão de onze. A raise is accepted
/// when it is to 3 or less, with a manilha or with a card of 9+, folded when it
/// is to 6 or more and nothing is above 7, else accepted. A mão de onze is
/// accepted with a manilha or a card of 8+. When only one answer is legal,
/// that one.
pub open spec fn special_response_of(turn: BotTurn) -> Option<Action> {
    match turn.view.hand {
        None => None,
        Some(h) => match h.public_state.pending_raise {
            Some(pending) => {
                let has_accept = offers(turn.legal_actions@, Action::AcceptRaise);
                let has_fold = offers(turn.legal_actions@, Action::Fold);
                if !has_accept || !has_fold {
                    if has_accept { Some(Action::AcceptRaise) } else { present_as(has_fold, Action::Fold) }
                } else {
                    match turn.turnup {
                        None => None,
                        Some(t) => {
                            let top = max_strength(strengths_of(h.hand@, t));
                            let m = manilha_count(h.hand@, t);
                            if pending.to <= 3 || m > 0 || top >= 9 {
                                Some(Action::AcceptRaise)
                            } else if pending.to >= 6 && top <= 7 {
                                Some(Action::Fold)
                            } else {
                                Some(Action::AcceptRaise)
                            }
                        },
                    }
                }
            },
            None => match h.public_state.pending_decision {
                Some(_) => {
                    let has_accept = offers(turn.legal_actions@, Action::AcceptEleven);
                    let has_fold = offers(turn.legal_actions@, Action::FoldEleven);
                    if !has_accept || !has_fold {
                        if has_accept { Some(Action::AcceptEleven) } else { present_as(has_fold, Action::FoldEleven) }
                    } else {
                        match turn.turnup {
                            None => None,
                            Some(t) => {
                                let top = max_strength(strengths_of(h.hand@, t));
                                let m = manilha_count(h.hand@, t);
                                if m > 0 || top >= 8 {
                                    Some(Action::AcceptEleven)
                                } else {
                                    Some(Action::FoldEleven)
                                }
                            },
                        }
                    }
                },
                None => None,
            },
        },
    }
}

/// The trainer's answer to a pending raise or mão de onze (see
/// `special_response_of`).
pub fn choose_special_response(turn: &BotTurn) -> (r: Option<Action>)
    ensures
        r == special_response_of(*turn),
{
    let hand = match &turn.view.hand {
        Some(h) => h,
        None => {
            return None;
        },
    };
    if let Some(pending) = &hand.public_state.pending_raise {
        let has_accept = offers_action(&turn.legal_actions, 0);
        let has_fold = offers_action(&turn.legal_actions, 1);
        if !has_accept || !has_fold {
            return if has_accept {
                Some(Action::AcceptRaise)
            } else if has_fold {
                Some(Action::Fold)
            } else {
                None
            };
        }
        let turnup = match &turn.turnup {
            Some(t) => t,
            None => {
                return None;
            },
        };
        let strengths = card_strengths(&hand.hand, turnup);
        let top = top_strength(&strengths);
        let m = count_manilhas(&hand.hand, turnup);
        if pending.to <= 3 || m > 0 || top >= 9 {
            return Some(Action::AcceptRaise);
        }
        if pending.to >= 6 && top <= 7 {
            return Some(Action::Fold);
        }
        return Some(Action::AcceptRaise);
    }
    if hand.public_state.pending_decision.is_some() {
        let has_accept = offers_action(&turn.legal_actions, 2);
        let has_fold = offers_action(&turn.legal_actions, 3);
        if !has_accept || !has_fold {
            return if has_accept {
                Some(Action::AcceptEleven)
            } else if has_fold {
                Some(Action::FoldEleven)
            } else {
                None
            };
        }
        let turnup = match &turn.turnup {
            Some(t) => t,
            None => {
                return None;
            },
        };
        let strengths = card_strengths(&hand.hand, turnup);
        let top = top_strength(&strengths);
        let m = count_manilhas(&hand.hand, turnup);
        if m > 0 || top >= 8 {
            return Some(Action::AcceptEleven);
        }
        return Some(Action::FoldEleven);
    }
    None
}

/// The trainer's opening raise: the first legal raise, taken before any card
/// of the round is played when the hand is worth less than 6 and holds a
/// manilha, two cards of 8+ or a card of 10+.
pub open spec fn simple_raise_of(turn: BotTurn) -> Option<Action> {
    match (first_raise(turn.legal_actions@), turn.view.hand, turn.turnup) {
        (Some(raise), Some(h), Some(t)) => {
            let strengths = strengths_of(h.hand@, t);
            let top = max_strength(strengths);
            let strong = count_at_least(strengths, 8);
            let m = manilha_count(h.hand@, t);
            if h.public_state.current_round.plays@.len() == 0 && h.public_state.hand_value < 6 && (m
                > 0 || strong >= 2 || top >= 10) {
                Some(raise)
            } else {
                None
            }
        },
        _ => None,
    }
}

fn first_legal_raise(legal: &Vec<Action>) -> (r: Option<Action>)
    ensures
        r == first_raise(legal@),
{
    let mut i: usize = 0;
    assert(legal@.skip(0) == legal@);
    while i < legal.len()
        invariant
            i <= legal.len(),
            first_raise(legal@) == first_raise(legal@.skip(i as int)),
        decreases legal.len() - i,
    {
        assert(legal@.skip(i as int).drop_first() == legal@.skip(i + 1));
        assert(legal@.skip(i as int)[0] == legal@[i as int]);
        if let Action::Raise { to } = &legal[i] {
            return Some(Action::Raise { to: *to });
        }
        i = i + 1;
    }
    None
}

/// The trainer's opening raise (see `simple_raise_of`).
pub fn choose_raise(turn: &BotTurn) -> (r: Option<Action>)
    ensures
        r == simple_raise_of(*turn),
        r matches Some(a) ==> turn.legal_actions@.contains(a),
{
    proof {
        lemma_first_raise_in(turn.legal_actions@);
    }
    let raise = match first_legal_raise(&turn.legal_actions) {
        Some(a) => a,
        None => {
            return None;
        },
    };
    let hand = match &turn.view.hand {
        Some(h) => h,
        None => {
            return None;
        },
    };
    let turnup = match &turn.turnup {
        Some(t) => t,
        None => {
            return None;
        },
    };
    if hand.public_state.current_round.plays.len() != 0 {
        return None;
    }
    let strengths = card_strengths(&hand.hand, turnup);
    let top = top_strength(&strengths);
    let strong_count = strengths_at_least(&strengths, 8);
    let m = count_manilhas(&hand.hand, turnup);
    if hand.public_state.hand_value < 6 && (m > 0 || strong_count >= 2 || top >= 10) {
        return Some(raise);
    }
    None
}

/// `up`, else `down`.
pub open spec fn up_or_down(c: CandidateAction) -> Option<Action> {
    if c.up is Some { c.up } else { c.down }
}

/// The trainer's card play once the card at `pick` of the candidates is
/// drawn among the weakest: answering a shown card it plays its weakest winning
/// card (face up when legal); otherwise the drawn card, face down when the
/// round has started, hiding is legal and the card is 5 or weaker.
pub open spec fn simple_play_of(turn: BotTurn, pick: int) -> Option<Action> {
    match (turn.view.hand, turn.turnup) {
        (Some(h), Some(t)) => {
            let cands = candidates_of(h.hand@, turn.legal_actions@, t);
            if cands.len() == 0 {
                None
            } else {
                let plays = h.public_state.current_round.plays@;
                let winning = match first_play_card(plays, turn.player, true) {
                    Some(shown) => weakest_eligible(
                        cands,
                        PickRule::Beats(strength_of(shown.rank, shown.suit, t) as u8),
                    ),
                    None => None,
                };
                match winning {
                    Some(k) => up_or_down(cands[k]),
                    None => {
                        let chosen = cands[pick];
                        if plays.len() != 0 && chosen.down is Some && chosen.strength <= 5 {
                            chosen.down
                        } else {
                            up_or_down(chosen)
                        }
                    },
                }
            }
        },
        _ => None,
    }
}

/// `pick` indexes one of the weakest candidates of the turn.
pub open spec fn weakest_pick(turn: BotTurn, pick: int) -> bool {
    match (turn.view.hand, turn.turnup) {
        (Some(h), Some(t)) => {
            let cands = candidates_of(h.hand@, turn.legal_actions@, t);
            cands.len() == 0 || 0 <= pick < cands.len() && cands[pick].strength == cands[weakest_eligible(
                cands,
                PickRule::Any,
            )->0].strength
        },
        _ => true,
    }
}

/// The trainer's card play: some weakest card is drawn uniformly (by shuffling
/// the weakest cards) and played as `simple_play_of` says.
pub fn choose_play(turn: &BotTurn, rng: &mut StdRng) -> (r: Option<Action>)
    ensures
        exists|pick: int| weakest_pick(*turn, pick) && r == simple_play_of(*turn, pick),
        r matches Some(a) ==> turn.legal_actions@.contains(a),
{
    let hand = match &turn.view.hand {
        Some(h) => h,
        None => {
            assert(simple_play_of(*turn, 0) is None);
            return None;
        },
    };
    let turnup = match &turn.turnup {
        Some(t) => t,
        None => {
            assert(simple_play_of(*turn, 0) is None);
            return None;
        },
    };
    let candidates = collect_candidates(turn, turnup);
    let ghost cands = candidates@;
    if candidates.len() == 0 {
        assert(simple_play_of(*turn, 0) is None);
        return None;
    }
    proof {
        lemma_weakest_eligible(cands, PickRule::Any);
    }
    let weakest = pick_weakest(&candidates, &PickRule::Any).unwrap();
    let weakest_strength = candidates[weakest].strength;
    let started = hand.public_state.current_round.plays.len() != 0;
    if let Some(shown) = visible_opponent_play(&hand.public_state.current_round.plays, turn.player) {
        let target = public_card_strength(&shown, turnup);
        let rule = PickRule::Beats(target);
        proof {
            lemma_weakest_eligible(cands, rule);
        }
        if let Some(k) = pick_weakest(&candidates, &rule) {
            let c = &candidates[k];
            let r = match &c.up {
                Some(up) => Some(up.clone()),
                None => match &c.down {
                    Some(down) => Some(down.clone()),
                    None => None,
                },
            };
            assert(weakest_pick(*turn, weakest as int) && r == simple_play_of(*turn, weakest as int));
            return r;
        }
    }
    let mut weakest_indices: Vec<usize> = Vec::new();
    let mut i: usize = 0;
    while i < candidates.len()
        invariant
            i <= candidates.len(),
            candidates@ == cands,
            weakest_strength == cands[weakest as int].strength,
            weakest < cands.len(),
            forall|j: int| 0 <= j < weakest_indices@.len() ==> (#[trigger] weakest_indices@[j]) < cands.len()
                && cands[weakest_indices@[j] as int].strength == weakest_strength,
            i > weakest ==> weakest_indices@.contains(weakest),
        decreases candidates.len() - i,
    {
        let ghost prev = weakest_indices@;
        if candidates[i].strength == weakest_strength {
            weakest_indices.push(i);
        }
        proof {
            if i > weakest {
                let j = choose|j: int| 0 <= j < prev.len() && prev[j] == weakest;
                assert(weakest_indices@[j] == weakest);
            } else if i == weakest {
                assert(weakest_indices@[weakest_indices@.len() - 1] == weakest);
            }
        }
        i = i + 1;
    }
    let ghost before = weakest_indices@;
    shuffle_indices(rng, &mut weakest_indices);
    proof {
        assert(before.to_multiset().count(weakest) > 0) by {
            before.to_multiset_ensures();
        }
        weakest_indices@.to_multiset_ensures();
        before.to_multiset_ensures();
        assert(weakest_indices@.len() > 0);
    }
    let pick = weakest_indices[0];
    proof {
        assert(weakest_indices@.contains(pick));
        weakest_indices@.to_multiset_ensures();
        before.to_multiset_ensures();
        assert(weakest_indices@.to_multiset().count(pick) > 0);
        assert(before.to_multiset().count(pick) > 0);
        assert(before.contains(pick));
    }
    let chosen = &candidates[pick];
    let r = if started && chosen.down.is_some() && chosen.strength <= 5 {
        match &chosen.down {
            Some(down) => Some(down.clone()),
            None => None,
        }
    } else {
        match &chosen.up {
            Some(up) => Some(up.clone()),
            None => match &chosen.down {
                Some(down) => Some(down.clone()),
                None => None,
            },
        }
    };
    assert(weakest_pick(*turn, pick as int) && r == simple_play_of(*turn, pick as int));
    r
}

/// The trainer's choice and its explanation: a special response, else an
/// opening raise, else the card play (with the weakest card at `pick`), else
/// the legal action at `fallback`.
pub open spec fn simple_choice(turn: BotTurn, pick: int, fallback: int) -> (Action, Seq<char>) {
    if special_response_of(turn) is Some {
        (
            special_response_of(turn)->0,
            "Simple trainer bot resolved a special response from the current hand texture."@,
        )
    } else if simple_raise_of(turn) is Some {
        (simple_raise_of(turn)->0, "Simple trainer bot found an opening raise worth taking."@)
    } else if simple_play_of(turn, pick) is Some {
        (simple_play_of(turn, pick)->0, "Simple trainer bot selected a single tactical card play."@)
    } else {
        (turn.legal_actions@[fallback], "Simple trainer bot fell back to a random legal action."@)
    }
}

proof fn lemma_weakest_pick_exists(turn: BotTurn)
    ensures
        exists|pick: int| weakest_pick(turn, pick),
{
    match (turn.view.hand, turn.turnup) {
        (Some(h), Some(t)) => {
            let cands = candidates_of(h.hand@, turn.legal_actions@, t);
            lemma_weakest_eligible(cands, PickRule::Any);
            if cands.len() > 0 {
                assert(weakest_pick(turn, weakest_eligible(cands, PickRule::Any)->0));
            } else {
                assert(weakest_pick(turn, 0));
            }
        },
        _ => {
            assert(weakest_pick(turn, 0));
        },
    }
}

proof fn lemma_special_legal(turn: BotTurn)
    ensures
        special_response_of(turn) matches Some(a) ==> turn.legal_actions@.contains(a),
{
}

impl SimpleTrainerBot {
    /// The bot's random source.
    pub closed spec fn generator(&self) -> StdRng {
        self.rng
    }

    /// A bot seeded with `seed` (little-endian in the first eight seed bytes).
    pub fn from_seed(seed: u64) -> (r: Self)
        ensures
            r.generator() == seeded_std_rng(seed_bytes_of(seed)),
    {
        SimpleTrainerBot { rng: std_rng_from_seed(seed_bytes(seed)) }
    }

    /// A bot drawing from `rng`.
    pub fn new(rng: StdRng) -> (r: Self)
        ensures
            r.generator() == rng,
    {
        SimpleTrainerBot { rng }
    }

    /// The trainer's decision: an error exactly when no action is legal, else
    /// the single-choice decision `simple_choice` gives for some draw, always
    /// a legal action.
    pub fn choose_decision(&mut self, turn: &BotTurn) -> (r: Result<BotDecision, BotError>)
        ensures
            r is Err <==> turn.legal_actions@.len() == 0,
            r matches Err(e) ==> e == BotError::NoLegalActions,
            r matches Ok(d) ==> turn.legal_actions@.contains(d.action),
            r matches Ok(d) ==> exists|pick: int, k: int|
                weakest_pick(*turn, pick) && 0 <= k < turn.legal_actions@.len() && is_single_choice(
                    d,
                    simple_choice(*turn, pick, k).0,
                    simple_choice(*turn, pick, k).1,
                ),
    {
        if turn.legal_actions.len() == 0 {
            return Err(BotError::NoLegalActions);
        }
        proof {
            lemma_special_legal(*turn);
            lemma_weakest_pick_exists(*turn);
        }
        if let Some(action) = choose_special_response(turn) {
            let d = single_choice_decision(
                action,
                String::from_str(
                    "Simple trainer bot resolved a special response from the current hand texture.",
                ),
            );
            proof {
                let pick = choose|pick: int| weakest_pick(*turn, pick);
                assert(is_single_choice(d, simple_choice(*turn, pick, 0).0, simple_choice(*turn, pick, 0).1));
            }
            return Ok(d);
        }
        if let Some(action) = choose_raise(turn) {
            let d = single_choice_decision(
                action,
                String::from_str("Simple trainer bot found an opening raise worth taking."),
            );
            proof {
                let pick = choose|pick: int| weakest_pick(*turn, pick);
                assert(is_single_choice(d, simple_choice(*turn, pick, 0).0, simple_choice(*turn, pick, 0).1));
            }
            return Ok(d);
        }
        let played = choose_play(turn, &mut self.rng);
        let ghost pick = choose|pick: int| weakest_pick(*turn, pick) && played == simple_play_of(*turn, pick);
        if let Some(action) = played {
            let d = single_choice_decision(
                action,
                String::from_str("Simple trainer bot selected a single tactical card play."),
            );
            assert(is_single_choice(d, simple_choice(*turn, pick, 0).0, simple_choice(*turn, pick, 0).1));
            return Ok(d);
        }
        let index = gen_index(&mut self.rng, turn.legal_actions.len());
        let d = single_choice_decision(
            turn.legal_actions[index].clone(),
            String::from_str("Simple trainer bot fell back to a random legal action."),
        );
        assert(is_single_choice(d, simple_choice(*turn, pick, index as int).0, simple_choice(*turn, pick, index as int).1));
        Ok(d)
    }
}

impl crate::bot::BotDecisionSource for SimpleTrainerBot {
    /// See the inherent `choose_decision`.
    fn choose_decision(&mut self, turn: &BotTurn) -> (r: Result<BotDecision, BotError>)
        ensures
            r is Err <==> turn.legal_actions@.len() == 0,
            r matches Err(e) ==> e == BotError::NoLegalActions,
            r matches Ok(d) ==> turn.legal_actions@.contains(d.action),
            r matches Ok(d) ==> exists|pick: int, k: int|
                weakest_pick(*turn, pick) && 0 <= k < turn.legal_actions@.len() && is_single_choice(
                    d,
                    simple_choice(*turn, pick, k).0,
                    simple_choice(*turn, pick, k).1,
                ),
    {
        SimpleTrainerBot::choose_decision(self, turn)
    }
}

impl crate::bot::Bot for SimpleTrainerBot {
    /// The action of `choose_decision`: the one `simple_choice` gives for some
    /// draw, always legal; an error exactly when no action is legal.
    fn choose_action(&mut self, turn: &BotTurn) -> (r: Result<Action, BotError>)
        ensures
            r is Err <==> turn.legal_actions@.len() == 0,
            r matches Err(e) ==> e == BotError::NoLegalActions,
            r matches Ok(a) ==> turn.legal_actions@.contains(a),
            r matches Ok(a) ==> exists|pick: int, k: int|
                weakest_pick(*turn, pick) && 0 <= k < turn.legal_actions@.len() && a == simple_choice(
                    *turn,
                    pick,
                    k,
                ).0,
    {
        match SimpleTrainerBot::choose_decision(self, turn) {
            Ok(d) => Ok(d.action),
            Err(e) => Err(e),
        }
    }
}

/// The trainer folds a raise to 6 or more, when both answers are legal, if no
/// card in hand is a manilha and none is stronger than 7.
pub proof fn lemma_trainer_folds_big_raises_when_weak(turn: BotTurn)
    requires
        turn.view.hand is Some,
        turn.view.hand->0.public_state.pending_raise is Some,
        turn.view.hand->0.public_state.pending_raise->0.to >= 6,
        turn.legal_actions@.contains(Action::AcceptRaise),
        turn.legal_actions@.contains(Action::Fold),
        turn.turnup is Some,
        forall|i: int|
            0 <= i < turn.view.hand->0.hand@.len() ==> !is_manilha_rank(
                #[trigger] turn.view.hand->0.hand@[i].rank,
                turn.turnup->0,
            ) && strength_of(turn.view.hand->0.hand@[i].rank, turn.view.hand->0.hand@[i].suit, turn.turnup->0) <= 7,
    ensures
        special_response_of(turn) == Some(Action::Fold),
{
    let cards = turn.view.hand->0.hand@;
    let t = turn.turnup->0;
    lemma_manilha_count_positive(cards, t);
    lemma_top_of_hand(cards, t, 7);
}

/// The trainer accepts a raise, when both answers are legal, if the raise is
/// to 3 or less, or the hand holds a manilha, or a card of strength 9 or more.
pub proof fn lemma_trainer_accepts_with_strength_or_small_raises(turn: BotTurn, i: int)
    requires
        turn.view.hand is Some,
        turn.view.hand->0.public_state.pending_raise is Some,
        turn.legal_actions@.contains(Action::AcceptRaise),
        turn.legal_actions@.contains(Action::Fold),
        turn.turnup is Some,
        turn.view.hand->0.public_state.pending_raise->0.to <= 3 || (0 <= i < turn.view.hand->0.hand@.len() && (
        is_manilha_rank(turn.view.hand->0.hand@[i].rank, turn.turnup->0) || strength_of(
            turn.view.hand->0.hand@[i].rank,
            turn.view.hand->0.hand@[i].suit,
            turn.turnup->0,
        ) >= 9)),
    ensures
        special_response_of(turn) == Some(Action::AcceptRaise),
{
    let cards = turn.view.hand->0.hand@;
    let t = turn.turnup->0;
    lemma_manilha_count_positive(cards, t);
    lemma_top_of_hand(cards, t, 13);
    if 0 <= i < cards.len() && is_manilha_rank(cards[i].rank, t) {
        assert(manilha_count(cards, t) > 0);
    }
}

/// Answering a shown card that some playable card beats, the trainer plays
/// the weakest card that beats it (no weaker playable card also beats it),
/// face up whenever that is legal, whatever card the draw picked.
pub proof fn lemma_trainer_answers_with_the_weakest_winning_card(turn: BotTurn, pick: int, i: int)
    requires
        turn.view.hand is Some,
        turn.turnup is Some,
        shown_opponent_strength(turn) is Some,
        0 <= i < turn_candidates(turn, turn.turnup->0).len(),
        card_power(turn_candidates(turn, turn.turnup->0)[i], turn.turnup->0) > shown_opponent_strength(turn)->0,
    ensures
        simple_play_of(turn, pick) is Some,
        ({
            let t = turn.turnup->0;
            let cands = turn_candidates(turn, t);
            let target = shown_opponent_strength(turn)->0;
            exists|k: int|
                #![trigger cands[k]]
                0 <= k < cands.len() && card_power(cands[k], t) > target && (forall|m: int|
                    0 <= m < cands.len() && card_power(#[trigger] cands[m], t) > target ==> card_power(cands[k], t)
                        <= card_power(cands[m], t)) && plays_card(
                    simple_play_of(turn, pick)->0,
                    cands[k].card.id@,
                    turn.legal_actions@,
                    true,
                )
        }),
{
    let t = turn.turnup->0;
    let cands = turn_candidates(turn, t);
    lemma_answer_setup(turn);
    let target = shown_opponent_strength(turn)->0;
    let tu = target as u8;
    let rule = PickRule::Beats(tu);
    lemma_weakest_eligible(cands, rule);
    assert(eligible(cands[i], rule));
    let k = weakest_eligible(cands, rule)->0;
    lemma_move_plays_card(turn, k, false, false);
    assert(up_or_down(cands[k]) == candidate_move(cands[k], false, false));
    assert forall|m: int| 0 <= m < cands.len() && card_power(#[trigger] cands[m], t) > target implies card_power(
        cands[k],
        t,
    ) <= card_power(cands[m], t) by {
        assert(eligible(cands[m], rule));
    }
}

/// When no playable card beats a shown card (or none is shown), the trainer
/// plays one of its weakest playable cards, the one the draw picked.
pub proof fn lemma_trainer_otherwise_plays_a_weakest_card(turn: BotTurn, pick: int)
    requires
        turn.view.hand is Some,
        turn.turnup is Some,
        turn_candidates(turn, turn.turnup->0).len() > 0,
        weakest_pick(turn, pick),
        shown_opponent_strength(turn) is Some ==> forall|m: int|
            0 <= m < turn_candidates(turn, turn.turnup->0).len() ==> card_power(
                #[trigger] turn_candidates(turn, turn.turnup->0)[m],
                turn.turnup->0,
            ) <= shown_opponent_strength(turn)->0,
    ensures
        simple_play_of(turn, pick) is Some,
        ({
            let t = turn.turnup->0;
            let cands = turn_candidates(turn, t);
            let a = simple_play_of(turn, pick)->0;
            &&& 0 <= pick < cands.len()
            &&& forall|m: int| 0 <= m < cands.len() ==> card_power(cands[pick], t) <= card_power(#[trigger] cands[m], t)
            &&& turn.legal_actions@.contains(a)
            &&& (is_play_of(a, cands[pick].card.id@, true) || is_play_of(a, cands[pick].card.id@, false))
        }),
{
    let h = turn.view.hand->0;
    let t = turn.turnup->0;
    let legal = turn.legal_actions@;
    let cands = turn_candidates(turn, t);
    lemma_candidates_well_formed(h.hand@, legal, t);
    assert forall|m: int| 0 <= m < cands.len() implies (#[trigger] cands[m]).strength == card_power(cands[m], t) by {
        lemma_candidate_strength(h.hand@, legal, t, m);
    }
    if shown_opponent_strength(turn) is Some {
        lemma_answer_setup(turn);
        let tu = shown_opponent_strength(turn)->0 as u8;
        lemma_weakest_eligible(cands, PickRule::Beats(tu));
    }
    lemma_weakest_eligible(cands, PickRule::Any);
    lemma_move_plays_card(turn, pick, false, false);
    assert(up_or_down(cands[pick]) == candidate_move(cands[pick], false, false));
}

/// The trainer answers a mão de onze it owes, when both answers are legal
/// and no raise is pending, by accepting exactly when the hand holds a
/// manilha or a card of strength 8 or more.
pub proof fn lemma_trainer_eleven_answer(turn: BotTurn)
    requires
        turn.view.hand is Some,
        turn.view.hand->0.public_state.pending_raise is None,
        turn.view.hand->0.public_state.pending_decision is Some,
        turn.legal_actions@.contains(Action::AcceptEleven),
        turn.legal_actions@.contains(Action::FoldEleven),
        turn.turnup is Some,
    ensures
        special_response_of(turn) == if exists|i: int|
            0 <= i < turn.view.hand->0.hand@.len() && (is_manilha_rank(
                #[trigger] turn.view.hand->0.hand@[i].rank,
                turn.turnup->0,
            ) || strength_of(turn.view.hand->0.hand@[i].rank, turn.view.hand->0.hand@[i].suit, turn.turnup->0)
                >= 8) {
            Some(Action::AcceptEleven)
        } else {
            Some(Action::FoldEleven)
        },
{
    let cards = turn.view.hand->0.hand@;
    let t = turn.turnup->0;
    lemma_manilha_count_positive(cards, t);
    lemma_top_of_hand(cards, t, 7);
    lemma_top_of_hand(cards, t, 13);
    let s = strengths_of(cards, t);
    lemma_max_strength_bounds(s);
    lemma_strengths_bounded(cards, t);
    if max_strength(s) >= 8 {
        let k = choose|k: int| 0 <= k < s.len() && s[k] == max_strength(s);
        assert(s[k] == strength_of(cards[k].rank, cards[k].suit, t) as u8);
        assert(strength_of(cards[k].rank, cards[k].suit, t) >= 8);
    }
    if manilha_count(cards, t) > 0 {
        let k = choose|k: int| 0 <= k < cards.len() && is_manilha_rank(#[trigger] cards[k].rank, t);
        assert(is_manilha_rank(cards[k].rank, t));
    }
}

} // verus!
