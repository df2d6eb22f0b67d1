//! Which card to play, whether to raise before playing, and opening raises.
use crate::bot::BotTurn;
use crate::engine::{Action, Card, Turnup};
use crate::heuristic::cards::{
    candidates_of, candidates_well_formed, is_play_of, lemma_candidates_well_formed, lemma_find_play_none, card_strengths, collect_candidates, count_manilhas,
    first_play_card, is_highest_manilha_clubs, is_top_manilha, manilha_count, max_strength,
    count_at_least, public_card_strength, strength_of, strengths_at_least, strengths_of,
    top_strength, turn_candidates, visible_opponent_play, CandidateAction,
};
use crate::heuristic::raise::{raise_action, raise_choice};
use crate::heuristic::BotProfile;
use crate::rng::gen_ratio;
use rand::rngs::StdRng;
use vstd::prelude::*;

verus! {

/// Which candidates a search may pick.
pub enum PickRule {
    Any,
    Beats(u8),
    NotTopManilha(Turnup),
}

pub open spec fn eligible(c: CandidateAction, rule: PickRule) -> bool {
    match rule {
        PickRule::Any => true,
        PickRule::Beats(target) => c.strength > target,
        PickRule::NotTopManilha(t) => !is_top_manilha(c.card, t),
    }
}

/// Index of the weakest eligible candidate, the earliest one on ties (what a
/// stable sort by strength followed by a search from the front finds).
pub open spec fn weakest_eligible(cands: Seq<CandidateAction>, rule: PickRule) -> Option<int>
    decreases cands.len(),
{
    if cands.len() == 0 {
        None
    } else {
        let prev = weakest_eligible(cands.drop_last(), rule);
        let last = cands.len() - 1;
        if eligible(cands[last], rule) && (prev is None || cands[last].strength
            < cands[prev->0].strength) {
            Some(last)
        } else {
            prev
        }
    }
}

pub proof fn lemma_weakest_eligible(cands: Seq<CandidateAction>, rule: PickRule)
    ensures
        weakest_eligible(cands, rule) matches Some(k) ==> 0 <= k < cands.len() && eligible(
            cands[k],
            rule,
        ),
        weakest_eligible(cands, rule) is None ==> forall|i: int|
            0 <= i < cands.len() ==> !eligible(#[trigger] cands[i], rule),
        weakest_eligible(cands, rule) matches Some(k) ==> forall|i: int|
            0 <= i < cands.len() && eligible(#[trigger] cands[i], rule) ==> cands[k].strength
                <= cands[i].strength,
    decreases cands.len(),
{
    if cands.len() > 0 {
        lemma_weakest_eligible(cands.drop_last(), rule);
        assert forall|i: int| 0 <= i < cands.len() - 1 implies cands[i] == cands.drop_last()[i] by {}
    }
}

fn is_eligible(c: &CandidateAction, rule: &PickRule) -> (r: bool)
    ensures
        r == eligible(*c, *rule),
{
    match rule {
        PickRule::Any => true,
        PickRule::Beats(target) => c.strength > *target,
        PickRule::NotTopManilha(t) => !is_highest_manilha_clubs(&c.card, t),
    }
}

/// Finds the weakest eligible candidate (earliest on ties).
pub fn pick_weakest(cands: &Vec<CandidateAction>, rule: &PickRule) -> (r: Option<usize>)
    ensures
        match r {
            Some(k) => weakest_eligible(cands@, *rule) == Some(k as int),
            None => weakest_eligible(cands@, *rule) is None,
        },
{
    let mut best: Option<usize> = None;
    let mut i: usize = 0;
    while i < cands.len()
        invariant
            i <= cands.len(),
            match best {
                Some(k) => k < i && weakest_eligible(cands@.take(i as int), *rule) == Some(
                    k as int,
                ),
                None => weakest_eligible(cands@.take(i as int), *rule) is None,
            },
        decreases cands.len() - i,
    {
        assert(cands@.take(i + 1).drop_last() == cands@.take(i as int));
        assert(cands@.take(i + 1)[i as int] == cands@[i as int]);
        let better = match best {
            None => true,
            Some(k) => {
                assert(cands@.take(i + 1)[k as int] == cands@[k as int]);
                cands[i].strength < cands[k].strength
            },
        };
        if is_eligible(&cands[i], rule) && better {
            best = Some(i);
        }
        i = i + 1;
    }
    assert(cands@.take(cands.len() as int) == cands@);
    best
}

/// The move for a chosen card: face down when reacting without winning the
/// round face up (if hiding is legal), otherwise face up when legal, else face down.
pub open spec fn candidate_move(c: CandidateAction, reacting: bool, up_wins: bool) -> Option<Action> {
    if reacting && !up_wins && c.down is Some {
        c.down
    } else if c.up is Some {
        c.up
    } else {
        c.down
    }
}

/// Plays the chosen candidate card (see `candidate_move`).
pub fn choose_candidate_action(candidate: &CandidateAction, reacting: bool, face_up_would_win_round: bool) -> (r: Option<Action>)
    ensures
        r == candidate_move(*candidate, reacting, face_up_would_win_round),
{
    if reacting && !face_up_would_win_round {
        if let Some(down) = &candidate.down {
            return Some(down.clone());
        }
    }
    match &candidate.up {
        Some(up) => Some(up.clone()),
        None => match &candidate.down {
            Some(down) => Some(down.clone()),
            None => None,
        },
    }
}

pub open spec fn all_beat(cands: Seq<CandidateAction>, target: u8) -> bool {
    forall|i: int| 0 <= i < cands.len() ==> (#[trigger] cands[i]).strength > target
}

pub open spec fn none_beat(cands: Seq<CandidateAction>, target: u8) -> bool {
    forall|i: int| 0 <= i < cands.len() ==> (#[trigger] cands[i]).strength <= target
}

/// The heuristic card play. Answering a shown card: if every card wins or none
/// does, play the weakest (face down when it cannot win); otherwise the weakest
/// winning card, face up. Leading: the weakest card that is not the clubs
/// manilha (or the weakest card if that is all there is), face up when legal.
pub open spec fn play_choice(turn: BotTurn) -> Option<Action> {
    match (turn.view.hand, turn.turnup) {
        (Some(h), Some(t)) => {
            let cands = candidates_of(h.hand@, turn.legal_actions@, t);
            if cands.len() == 0 {
                None
            } else {
                match first_play_card(h.public_state.current_round.plays@, turn.player, true) {
                    Some(shown) => {
                        let target = strength_of(shown.rank, shown.suit, t) as u8;
                        let all_win = all_beat(cands, target);
                        let none_win = none_beat(cands, target);
                        if all_win || none_win {
                            candidate_move(
                                cands[weakest_eligible(cands, PickRule::Any)->0],
                                true,
                                !none_win,
                            )
                        } else {
                            candidate_move(
                                cands[weakest_eligible(cands, PickRule::Beats(target))->0],
                                true,
                                true,
                            )
                        }
                    },
                    None => match weakest_eligible(cands, PickRule::NotTopManilha(t)) {
                        Some(k) => candidate_move(cands[k], false, false),
                        None => candidate_move(
                            cands[weakest_eligible(cands, PickRule::Any)->0],
                            false,
                            false,
                        ),
                    },
                }
            }
        },
        _ => None,
    }
}

proof fn lemma_candidate_move_legal(c: CandidateAction, reacting: bool, up_wins: bool, legal: Seq<Action>)
    requires
        c.up matches Some(a) ==> legal.contains(a),
        c.down matches Some(a) ==> legal.contains(a),
        c.up is Some || c.down is Some,
    ensures
        candidate_move(c, reacting, up_wins) matches Some(a) && legal.contains(a),
{
}

fn all_strengths_above(cands: &Vec<CandidateAction>, target: u8) -> (r: bool)
    ensures
        r == all_beat(cands@, target),
{
    let mut i: usize = 0;
    while i < cands.len()
        invariant
            i <= cands.len(),
            forall|j: int| 0 <= j < i ==> (#[trigger] cands@[j]).strength > target,
        decreases cands.len() - i,
    {
        if cands[i].strength <= target {
            return false;
        }
        i = i + 1;
    }
    true
}

fn all_strengths_at_most(cands: &Vec<CandidateAction>, target: u8) -> (r: bool)
    ensures
        r == none_beat(cands@, target),
{
    let mut i: usize = 0;
    while i < cands.len()
        invariant
            i <= cands.len(),
            forall|j: int| 0 <= j < i ==> (#[trigger] cands@[j]).strength <= target,
        decreases cands.len() - i,
    {
        if cands[i].strength > target {
            return false;
        }
        i = i + 1;
    }
    true
}

/// The heuristic bot's card play for this turn (see `play_choice`); always a
/// legal action when there is one.
pub fn choose_play(turn: &BotTurn, profile: BotProfile) -> (r: Option<Action>)
    ensures
        r == play_choice(*turn),
        r matches Some(a) ==> turn.legal_actions@.contains(a),
{
    let hand = match &turn.view.hand {
        Some(h) => h,
        None => {
            return None;
        },
    };
    let turnup = match &turn.turnup {
        Some(t) => t,
        None => {
            return None;
        },
    };
    let candidates = collect_candidates(turn, turnup);
    if candidates.len() == 0 {
        return None;
    }
    let ghost cands = candidates@;
    proof {
        lemma_weakest_eligible(cands, PickRule::Any);
    }
    let weakest = pick_weakest(&candidates, &PickRule::Any);
    let weakest = match weakest {
        Some(k) => k,
        None => {
            return None;
        },
    };
    proof {
        lemma_candidate_move_legal(cands[weakest as int], true, true, turn.legal_actions@);
        lemma_candidate_move_legal(cands[weakest as int], true, false, turn.legal_actions@);
        lemma_candidate_move_legal(cands[weakest as int], false, false, turn.legal_actions@);
    }
    match visible_opponent_play(&hand.public_state.current_round.plays, turn.player) {
        Some(shown) => {
            let target = public_card_strength(&shown, turnup);
            let all_win = all_strengths_above(&candidates, target);
            let none_win = all_strengths_at_most(&candidates, target);
            if all_win || none_win {
                return choose_candidate_action(&candidates[weakest], true, !none_win);
            }
            let rule = PickRule::Beats(target);
            proof {
                lemma_weakest_eligible(cands, rule);
            }
            match pick_weakest(&candidates, &rule) {
                Some(k) => {
                    proof {
                        lemma_candidate_move_legal(cands[k as int], true, true, turn.legal_actions@);
                    }
                    choose_candidate_action(&candidates[k], true, true)
                },
                None => None,
            }
        },
        None => {
            let rule = PickRule::NotTopManilha(*turnup);
            proof {
                lemma_weakest_eligible(cands, rule);
            }
            match pick_weakest(&candidates, &rule) {
                Some(k) => {
                    proof {
                        lemma_candidate_move_legal(cands[k as int], false, false, turn.legal_actions@);
                    }
                    choose_candidate_action(&candidates[k], false, false)
                },
                None => choose_candidate_action(&candidates[weakest], false, false),
            }
        },
    }
}

/// Whether the bot should raise now instead of exposing the clubs manilha:
/// the chosen play is that card, the seat already won a round of this hand,
/// and a worthwhile raise is legal.
pub open spec fn raise_before_killer(turn: BotTurn, chosen: Option<Action>) -> bool {
    match chosen {
        Some(Action::PlayFaceUp { card_id }) => killer_play(turn, card_id@),
        Some(Action::PlayFaceDown { card_id }) => killer_play(turn, card_id@),
        _ => false,
    }
}

pub open spec fn killer_play(turn: BotTurn, id: Seq<char>) -> bool {
    match (turn.view.hand, turn.turnup) {
        (Some(h), Some(t)) => match first_card_with_id(h.hand@, id) {
            Some(card) => is_top_manilha(card, t) && won_a_round(
                h.public_state.completed_rounds@.map_values(|r: crate::engine::PublicCompletedRound| r.winner),
                turn.player,
            ) && raise_choice(turn) is Some,
            None => false,
        },
        _ => false,
    }
}

/// The first card of a hand with the given id.
pub open spec fn first_card_with_id(hand: Seq<Card>, id: Seq<char>) -> Option<Card>
    decreases hand.len(),
{
    if hand.len() == 0 {
        None
    } else if hand[0].id@ == id {
        Some(hand[0])
    } else {
        first_card_with_id(hand.drop_first(), id)
    }
}

/// Whether some finished round was won by `player`.
pub open spec fn won_a_round(winners: Seq<Option<u8>>, player: u8) -> bool {
    exists|i: int| 0 <= i < winners.len() && winners[i] == Some(player)
}

fn find_card<'a>(hand: &'a Vec<Card>, id: &String) -> (r: Option<&'a Card>)
    ensures
        match r {
            Some(c) => first_card_with_id(hand@, id@) == Some(*c),
            None => first_card_with_id(hand@, id@) is None,
        },
{
    let mut i: usize = 0;
    assert(hand@.skip(0) == hand@);
    while i < hand.len()
        invariant
            i <= hand.len(),
            first_card_with_id(hand@, id@) == first_card_with_id(hand@.skip(i as int), id@),
        decreases hand.len() - i,
    {
        assert(hand@.skip(i as int).drop_first() == hand@.skip(i + 1));
        assert(hand@.skip(i as int)[0] == hand@[i as int]);
        if hand[i].id.eq(id) {
            return Some(&hand[i]);
        }
        i = i + 1;
    }
    None
}

/// Whether the bot should raise before showing its clubs manilha (see
/// `raise_before_killer`).
pub fn should_raise_before_showing_killer_card(turn: &BotTurn, chosen_play: Option<&Action>) -> (r: bool)
    ensures
        r == raise_before_killer(*turn, match chosen_play { Some(a) => Some(*a), None => None }),
{
    let card_id = match chosen_play {
        Some(Action::PlayFaceUp { card_id }) => card_id,
        Some(Action::PlayFaceDown { card_id }) => card_id,
        _ => {
            return false;
        },
    };
    let hand = match &turn.view.hand {
        Some(h) => h,
        None => {
            return false;
        },
    };
    let turnup = match &turn.turnup {
        Some(t) => t,
        None => {
            return false;
        },
    };
    let card = match find_card(&hand.hand, card_id) {
        Some(c) => c,
        None => {
            return false;
        },
    };
    if !is_highest_manilha_clubs(card, turnup) {
        return false;
    }
    let ghost winners = hand.public_state.completed_rounds@.map_values(
        |r: crate::engine::PublicCompletedRound| r.winner,
    );
    let mut prior_round_win = false;
    let mut i: usize = 0;
    while i < hand.public_state.completed_rounds.len()
        invariant
            i <= hand.public_state.completed_rounds.len(),
            winners.len() == hand.public_state.completed_rounds@.len(),
            winners == hand.public_state.completed_rounds@.map_values(
                |r: crate::engine::PublicCompletedRound| r.winner,
            ),
            prior_round_win == exists|j: int| 0 <= j < i && winners[j] == Some(turn.player),
        decreases hand.public_state.completed_rounds.len() - i,
    {
        assert(winners[i as int] == hand.public_state.completed_rounds@[i as int].winner);
        if hand.public_state.completed_rounds[i].winner == Some(turn.player) {
            prior_round_win = true;
        }
        i = i + 1;
    }
    prior_round_win && raise_action(turn).is_some()
}

/// Base chance (in percent) of an opening raise for each profile.
pub open spec fn opening_base(profile: BotProfile) -> int {
    match profile {
        BotProfile::Conservative => 5,
        BotProfile::Balanced => 14,
        BotProfile::Aggressive => 26,
        BotProfile::Tricky => 18,
    }
}

/// Least bluffing chance (in percent) with a hand that has nothing.
pub open spec fn opening_bluff_floor(profile: BotProfile) -> int {
    match profile {
        BotProfile::Conservative => 1,
        BotProfile::Balanced => 4,
        BotProfile::Aggressive => 8,
        BotProfile::Tricky => 12,
    }
}

/// Chance (in percent) of an opening raise: the profile's base, +26 with a
/// manilha, +18 with two cards of strength 8 or more, +10 when the best card
/// is 12 or more, -16 with no manilha and nothing above 7 (but never below the
/// profile's bluff floor for a hand with nothing), kept within 0 to 90.
pub open spec fn opening_percent(profile: BotProfile, strengths: Seq<u8>, manilhas: nat) -> int {
    let top = max_strength(strengths);
    let strong = count_at_least(strengths, 8);
    let p0 = opening_base(profile) + (if manilhas > 0 { 26int } else { 0int }) + (if strong >= 2 {
        18int
    } else {
        0int
    }) + (if top >= 12 { 10int } else { 0int }) - (if top <= 7 && manilhas == 0 {
        16int
    } else {
        0int
    });
    let p1 = if strong == 0 && manilhas == 0 && top <= 7 && p0 < opening_bluff_floor(profile) {
        opening_bluff_floor(profile)
    } else {
        p0
    };
    if p1 < 0 {
        0
    } else if p1 > 90 {
        90
    } else {
        p1
    }
}

/// When an opening raise is considered (a worthwhile raise is legal, no card
/// of the round is on the table yet and the hand is worth less than 9), the
/// chance in percent of making it.
pub open spec fn opening_raise_chance_of(turn: BotTurn, profile: BotProfile) -> Option<int> {
    match (raise_choice(turn), turn.view.hand, turn.turnup) {
        (Some(_), Some(h), Some(t)) => if h.public_state.current_round.plays@.len() != 0
            || h.public_state.hand_value >= 9 {
            None
        } else {
            Some(opening_percent(profile, strengths_of(h.hand@, t), manilha_count(h.hand@, t)))
        },
        _ => None,
    }
}

fn profile_base(profile: BotProfile) -> (r: i32)
    ensures
        r == opening_base(profile),
{
    match profile {
        BotProfile::Conservative => 5,
        BotProfile::Balanced => 14,
        BotProfile::Aggressive => 26,
        BotProfile::Tricky => 18,
    }
}

fn profile_floor(profile: BotProfile) -> (r: i32)
    ensures
        r == opening_bluff_floor(profile),
{
    match profile {
        BotProfile::Conservative => 1,
        BotProfile::Balanced => 4,
        BotProfile::Aggressive => 8,
        BotProfile::Tricky => 12,
    }
}

/// The chance in percent of an opening raise this turn, or `None` when no
/// opening raise is considered (see `opening_raise_chance_of`).
pub fn opening_raise_chance(turn: &BotTurn, profile: BotProfile) -> (r: Option<u32>)
    ensures
        match r {
            Some(p) => opening_raise_chance_of(*turn, profile) == Some(p as int),
            None => opening_raise_chance_of(*turn, profile) is None,
        },
        r matches Some(p) ==> p <= 90,
{
    if raise_action(turn).is_none() {
        return None;
    }
    let hand = match &turn.view.hand {
        Some(h) => h,
        None => {
            return None;
        },
    };
    let turnup = match &turn.turnup {
        Some(t) => t,
        None => {
            return None;
        },
    };
    if hand.public_state.current_round.plays.len() != 0 {
        return None;
    }
    if hand.public_state.hand_value >= 9 {
        return None;
    }
    let strengths = card_strengths(&hand.hand, turnup);
    let top = top_strength(&strengths);
    let strong_count = strengths_at_least(&strengths, 8);
    let manilhas = count_manilhas(&hand.hand, turnup);
    let mut p: i32 = profile_base(profile);
    if manilhas > 0 {
        p = p + 26;
    }
    if strong_count >= 2 {
        p = p + 18;
    }
    if top >= 12 {
        p = p + 10;
    }
    if top <= 7 && manilhas == 0 {
        p = p - 16;
    }
    if strong_count == 0 && manilhas == 0 && top <= 7 {
        let floor = profile_floor(profile);
        if p < floor {
            p = floor;
        }
    }
    if p < 0 {
        p = 0;
    }
    if p > 90 {
        p = 90;
    }
    Some(p as u32)
}

/// The opening raise for the outcome `draw` of the chance draw: the raise
/// `raise_action` picks when a chance is considered and the draw came out
/// true, else none.
pub open spec fn opening_raise_of(turn: BotTurn, profile: BotProfile, draw: bool) -> Option<Action> {
    if draw && opening_raise_chance_of(turn, profile) is Some {
        raise_choice(turn)
    } else {
        None
    }
}

/// The opening raise for a given outcome of the chance draw (see
/// `opening_raise_of`).
pub fn choose_opening_raise_with_draw(turn: &BotTurn, profile: BotProfile, draw: bool) -> (r: Option<Action>)
    ensures
        r == opening_raise_of(*turn, profile, draw),
        r matches Some(a) ==> turn.legal_actions@.contains(a),
{
    if draw && opening_raise_chance(turn, profile).is_some() {
        raise_action(turn)
    } else {
        None
    }
}

/// An opening raise drawn with the chance of `opening_raise_chance`: either no
/// action, or the raise `raise_action` picks; never a raise when none is
/// considered or the chance is zero.
pub fn choose_opening_raise(turn: &BotTurn, profile: BotProfile, rng: &mut StdRng) -> (r: Option<Action>)
    ensures
        r == opening_raise_of(*turn, profile, true) || r == opening_raise_of(*turn, profile, false),
        opening_raise_chance_of(*turn, profile) matches Some(p) && p == 0 ==> r is None,
        r matches Some(a) ==> turn.legal_actions@.contains(a),
{
    let draw = match opening_raise_chance(turn, profile) {
        None => false,
        Some(p) => gen_ratio(rng, p, 100),
    };
    choose_opening_raise_with_draw(turn, profile, draw)
}

/// The strength of the card the opponent showed face up this round, if any.
pub open spec fn shown_opponent_strength(turn: BotTurn) -> Option<nat> {
    match (turn.view.hand, turn.turnup) {
        (Some(h), Some(t)) => match first_play_card(h.public_state.current_round.plays@, turn.player, true) {
            Some(c) => Some(strength_of(c.rank, c.suit, t)),
            None => None,
        },
        _ => None,
    }
}

/// The strength of a playable card under the turn's turnup.
pub open spec fn card_power(c: CandidateAction, t: Turnup) -> nat {
    strength_of(c.card.rank, c.card.suit, t)
}

/// Answering a shown card when some playable cards beat it and some do not,
/// the bot plays a card that beats it, the weakest such card (no weaker
/// playable card also beats it), face up whenever face up is legal for it.
pub proof fn lemma_answers_with_the_weakest_winning_card(turn: BotTurn, i: int, j: int)
    requires
        turn.view.hand is Some,
        turn.turnup is Some,
        shown_opponent_strength(turn) is Some,
        0 <= i < turn_candidates(turn, turn.turnup->0).len(),
        0 <= j < turn_candidates(turn, turn.turnup->0).len(),
        card_power(turn_candidates(turn, turn.turnup->0)[i], turn.turnup->0) > shown_opponent_strength(turn)->0,
        card_power(turn_candidates(turn, turn.turnup->0)[j], turn.turnup->0) <= shown_opponent_strength(turn)->0,
    ensures
        play_choice(turn) is Some,
        ({
            let t = turn.turnup->0;
            let cands = turn_candidates(turn, t);
            let target = shown_opponent_strength(turn)->0;
            let a = play_choice(turn)->0;
            exists|k: int|
                #![trigger cands[k]]
                0 <= k < cands.len() && card_power(cands[k], t) > target && (forall|m: int|
                    0 <= m < cands.len() && card_power(#[trigger] cands[m], t) > target ==> card_power(cands[k], t)
                        <= card_power(cands[m], t)) && turn.legal_actions@.contains(a) && (is_play_of(
                    a,
                    cands[k].card.id@,
                    true,
                ) || (is_play_of(a, cands[k].card.id@, false) && forall|x: int|
                    0 <= x < turn.legal_actions@.len() ==> !is_play_of(
                        #[trigger] turn.legal_actions@[x],
                        cands[k].card.id@,
                        true,
                    )))
        }),
{
    let h = turn.view.hand->0;
    let t = turn.turnup->0;
    let cands = turn_candidates(turn, t);
    let legal = turn.legal_actions@;
    let shown = first_play_card(h.public_state.current_round.plays@, turn.player, true)->0;
    let target = strength_of(shown.rank, shown.suit, t);
    lemma_candidates_well_formed(h.hand@, legal, t);
    assert(target <= 13);
    let tu = target as u8;
    assert forall|m: int| 0 <= m < cands.len() implies (#[trigger] cands[m]).strength == card_power(cands[m], t) by {
        lemma_candidate_strength(h.hand@, legal, t, m);
    }
    assert(!all_beat(cands, tu)) by {
        assert(cands[j].strength <= tu);
    }
    assert(!none_beat(cands, tu)) by {
        assert(cands[i].strength > tu);
    }
    lemma_weakest_eligible(cands, PickRule::Beats(tu));
    let k = weakest_eligible(cands, PickRule::Beats(tu))->0;
    let c = cands[k];
    assert(play_choice(turn) == candidate_move(c, true, true));
    lemma_find_play_none(legal, c.card.id@, true);
    let a = play_choice(turn)->0;
    assert(0 <= k < cands.len() && card_power(cands[k], t) > target);
    assert forall|m: int| 0 <= m < cands.len() && card_power(#[trigger] cands[m], t) > target implies card_power(
        cands[k],
        t,
    ) <= card_power(cands[m], t) by {
        assert(eligible(cands[m], PickRule::Beats(tu)));
    }
    lemma_candidate_strength(h.hand@, legal, t, k);
    assert(legal.contains(a));
    assert(is_play_of(a, c.card.id@, true) || (is_play_of(a, c.card.id@, false) && forall|x: int|
        0 <= x < legal.len() ==> !is_play_of(#[trigger] legal[x], c.card.id@, true)));
}

pub proof fn lemma_candidate_strength(hand: Seq<Card>, legal: Seq<Action>, t: Turnup, m: int)
    requires
        0 <= m < candidates_of(hand, legal, t).len(),
    ensures
        candidates_of(hand, legal, t)[m].strength == strength_of(
            candidates_of(hand, legal, t)[m].card.rank,
            candidates_of(hand, legal, t)[m].card.suit,
            t,
        ),
        candidates_of(hand, legal, t)[m].up == crate::heuristic::cards::find_play(
            legal,
            candidates_of(hand, legal, t)[m].card.id@,
            true,
        ),
        candidates_of(hand, legal, t)[m].down == crate::heuristic::cards::find_play(
            legal,
            candidates_of(hand, legal, t)[m].card.id@,
            false,
        ),
    decreases hand.len(),
{
    let rest = candidates_of(hand.drop_last(), legal, t);
    if m < rest.len() {
        lemma_candidate_strength(hand.drop_last(), legal, t, m);
        assert(candidates_of(hand, legal, t)[m] == rest[m]);
    } else {
        let c = hand.last();
        assert(strength_of(c.rank, c.suit, t) <= 13);
    }
}

/// `a` plays the card `id`: in the preferred way (face up when `up`, face down
/// otherwise) whenever a legal action plays it that way, else the other way.
pub open spec fn plays_card(a: Action, id: Seq<char>, legal: Seq<Action>, up: bool) -> bool {
    legal.contains(a) && (is_play_of(a, id, up) || (is_play_of(a, id, !up) && forall|x: int|
        0 <= x < legal.len() ==> !is_play_of(#[trigger] legal[x], id, up)))
}

pub proof fn lemma_move_plays_card(turn: BotTurn, k: int, reacting: bool, up_wins: bool)
    requires
        turn.view.hand is Some,
        turn.turnup is Some,
        0 <= k < turn_candidates(turn, turn.turnup->0).len(),
    ensures
        candidate_move(turn_candidates(turn, turn.turnup->0)[k], reacting, up_wins) is Some,
        plays_card(
            candidate_move(turn_candidates(turn, turn.turnup->0)[k], reacting, up_wins)->0,
            turn_candidates(turn, turn.turnup->0)[k].card.id@,
            turn.legal_actions@,
            !(reacting && !up_wins),
        ),
{
    let h = turn.view.hand->0;
    let t = turn.turnup->0;
    let legal = turn.legal_actions@;
    let c = turn_candidates(turn, t)[k];
    lemma_candidates_well_formed(h.hand@, legal, t);
    lemma_candidate_strength(h.hand@, legal, t, k);
    lemma_find_play_none(legal, c.card.id@, true);
    lemma_find_play_none(legal, c.card.id@, false);
    assert(c.up is Some || c.down is Some);
}

pub proof fn lemma_answer_setup(turn: BotTurn)
    requires
        turn.view.hand is Some,
        turn.turnup is Some,
        shown_opponent_strength(turn) is Some,
    ensures
        shown_opponent_strength(turn)->0 <= 13,
        forall|m: int|
            0 <= m < turn_candidates(turn, turn.turnup->0).len() ==> (#[trigger] turn_candidates(turn, turn.turnup->0)[m]).strength
                == card_power(turn_candidates(turn, turn.turnup->0)[m], turn.turnup->0) && card_power(
                turn_candidates(turn, turn.turnup->0)[m],
                turn.turnup->0,
            ) <= 13,
{
    let h = turn.view.hand->0;
    let t = turn.turnup->0;
    let legal = turn.legal_actions@;
    let cands = turn_candidates(turn, t);
    lemma_candidates_well_formed(h.hand@, legal, t);
    let shown = first_play_card(h.public_state.current_round.plays@, turn.player, true)->0;
    assert(strength_of(shown.rank, shown.suit, t) <= 13);
    assert forall|m: int| 0 <= m < cands.len() implies (#[trigger] cands[m]).strength == card_power(cands[m], t)
        && card_power(cands[m], t) <= 13 by {
        lemma_candidate_strength(h.hand@, legal, t, m);
    }
}

/// Answering a shown card that no playable card beats, the bot gives up the
/// round as cheaply as it can: it plays a weakest playable card, face down
/// whenever hiding that card is legal.
pub proof fn lemma_losing_answers_throw_the_weakest_card_face_down(turn: BotTurn)
    requires
        turn.view.hand is Some,
        turn.turnup is Some,
        shown_opponent_strength(turn) is Some,
        turn_candidates(turn, turn.turnup->0).len() > 0,
        forall|m: int|
            0 <= m < turn_candidates(turn, turn.turnup->0).len() ==> card_power(
                #[trigger] turn_candidates(turn, turn.turnup->0)[m],
                turn.turnup->0,
            ) <= shown_opponent_strength(turn)->0,
    ensures
        play_choice(turn) is Some,
        ({
            let t = turn.turnup->0;
            let cands = turn_candidates(turn, t);
            exists|k: int|
                #![trigger cands[k]]
                0 <= k < cands.len() && (forall|m: int|
                    0 <= m < cands.len() ==> card_power(cands[k], t) <= card_power(#[trigger] cands[m], t)) && plays_card(
                    play_choice(turn)->0,
                    cands[k].card.id@,
                    turn.legal_actions@,
                    false,
                )
        }),
{
    let t = turn.turnup->0;
    let cands = turn_candidates(turn, t);
    lemma_answer_setup(turn);
    let tu = shown_opponent_strength(turn)->0 as u8;
    assert(none_beat(cands, tu));
    assert(!all_beat(cands, tu)) by {
        assert(cands[0].strength <= tu);
    }
    lemma_weakest_eligible(cands, PickRule::Any);
    let k = weakest_eligible(cands, PickRule::Any)->0;
    lemma_move_plays_card(turn, k, true, false);
    assert(forall|m: int| 0 <= m < cands.len() ==> card_power(cands[k], t) <= card_power(#[trigger] cands[m], t));
}

/// Answering a shown card that every playable card beats, the bot wins the
/// round with a weakest playable card, face up whenever that is legal.
pub proof fn lemma_sure_wins_use_the_weakest_card_face_up(turn: BotTurn)
    requires
        turn.view.hand is Some,
        turn.turnup is Some,
        shown_opponent_strength(turn) is Some,
        turn_candidates(turn, turn.turnup->0).len() > 0,
        forall|m: int|
            0 <= m < turn_candidates(turn, turn.turnup->0).len() ==> card_power(
                #[trigger] turn_candidates(turn, turn.turnup->0)[m],
                turn.turnup->0,
            ) > shown_opponent_strength(turn)->0,
    ensures
        play_choice(turn) is Some,
        ({
            let t = turn.turnup->0;
            let cands = turn_candidates(turn, t);
            exists|k: int|
                #![trigger cands[k]]
                0 <= k < cands.len() && (forall|m: int|
                    0 <= m < cands.len() ==> card_power(cands[k], t) <= card_power(#[trigger] cands[m], t)) && plays_card(
                    play_choice(turn)->0,
                    cands[k].card.id@,
                    turn.legal_actions@,
                    true,
                )
        }),
{
    let t = turn.turnup->0;
    let cands = turn_candidates(turn, t);
    lemma_answer_setup(turn);
    let tu = shown_opponent_strength(turn)->0 as u8;
    assert(all_beat(cands, tu));
    assert(!none_beat(cands, tu)) by {
        assert(cands[0].strength > tu);
    }
    lemma_weakest_eligible(cands, PickRule::Any);
    let k = weakest_eligible(cands, PickRule::Any)->0;
    lemma_move_plays_card(turn, k, true, true);
    assert(forall|m: int| 0 <= m < cands.len() ==> card_power(cands[k], t) <= card_power(#[trigger] cands[m], t));
}

/// With no face-up card to answer, the bot keeps the clubs manilha back: when
/// it can play another card, it plays a weakest playable card that is not the
/// clubs manilha, face up whenever that is legal.
pub proof fn lemma_leads_keep_the_clubs_manilha_back(turn: BotTurn, i: int)
    requires
        turn.view.hand is Some,
        turn.turnup is Some,
        shown_opponent_strength(turn) is None,
        0 <= i < turn_candidates(turn, turn.turnup->0).len(),
        !is_top_manilha(turn_candidates(turn, turn.turnup->0)[i].card, turn.turnup->0),
    ensures
        play_choice(turn) is Some,
        ({
            let t = turn.turnup->0;
            let cands = turn_candidates(turn, t);
            exists|k: int|
                #![trigger cands[k]]
                0 <= k < cands.len() && !is_top_manilha(cands[k].card, t) && (forall|m: int|
                    0 <= m < cands.len() && !is_top_manilha(#[trigger] cands[m].card, t) ==> card_power(cands[k], t)
                        <= card_power(cands[m], t)) && plays_card(
                    play_choice(turn)->0,
                    cands[k].card.id@,
                    turn.legal_actions@,
                    true,
                )
        }),
{
    let h = turn.view.hand->0;
    let t = turn.turnup->0;
    let legal = turn.legal_actions@;
    let cands = turn_candidates(turn, t);
    lemma_candidates_well_formed(h.hand@, legal, t);
    assert forall|m: int| 0 <= m < cands.len() implies (#[trigger] cands[m]).strength == card_power(cands[m], t) by {
        lemma_candidate_strength(h.hand@, legal, t, m);
    }
    let rule = PickRule::NotTopManilha(t);
    lemma_weakest_eligible(cands, rule);
    assert(eligible(cands[i], rule));
    let k = weakest_eligible(cands, rule)->0;
    lemma_move_plays_card(turn, k, false, false);
    assert forall|m: int|
        0 <= m < cands.len() && !is_top_manilha(#[trigger] cands[m].card, t) implies card_power(cands[k], t)
            <= card_power(cands[m], t) by {
        assert(eligible(cands[m], rule));
    }
}

} // verus!
