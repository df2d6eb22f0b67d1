//! Answers to a pending raise and to the mão de onze decision.
use crate::bot::BotTurn;
use crate::engine::{is_manilha_rank, Action, Turnup};
use crate::heuristic::cards::{
    lemma_manilha_count_positive, lemma_top_of_hand, strength_of,
    card_strengths, count_manilhas, lemma_max_strength_bounds, lemma_strengths_bounded,
    manilha_count, max_strength, own_shown_strength, own_visible_current_strength, strength_sum,
    strengths_of, sum_strengths, top_strength,
};
use crate::heuristic::BotProfile;
use crate::rng::gen_ratio;
use rand::rngs::StdRng;
use vstd::prelude::*;

verus! {

/// Whether some legal action equals `a`.
pub open spec fn offers(legal: Seq<Action>, a: Action) -> bool {
    legal.contains(a)
}

fn offers_unit(legal: &Vec<Action>, accept: bool, eleven: bool) -> (r: bool)
    ensures
        r == offers(
            legal@,
            if eleven {
                if accept { Action::AcceptEleven } else { Action::FoldEleven }
            } else {
                if accept { Action::AcceptRaise } else { Action::Fold }
            },
        ),
{
    let ghost target = if eleven {
        if accept { Action::AcceptEleven } else { Action::FoldEleven }
    } else {
        if accept { Action::AcceptRaise } else { Action::Fold }
    };
    let mut i: usize = 0;
    while i < legal.len()
        invariant
            i <= legal.len(),
            target == (if eleven {
                if accept { Action::AcceptEleven } else { Action::FoldEleven }
            } else {
                if accept { Action::AcceptRaise } else { Action::Fold }
            }),
            forall|j: int| 0 <= j < i ==> legal@[j] != target,
        decreases legal.len() - i,
    {
        let hit = match &legal[i] {
            Action::AcceptRaise => !eleven && accept,
            Action::Fold => !eleven && !accept,
            Action::AcceptEleven => eleven && accept,
            Action::FoldEleven => eleven && !accept,
            _ => false,
        };
        if hit {
            assert(legal@[i as int] == target);
            return true;
        }
        i = i + 1;
    }
    false
}

/// `Some(a)` when `present`.
pub open spec fn present_as(present: bool, a: Action) -> Option<Action> {
    if present { Some(a) } else { None }
}

/// Profile shift (hundredths) of the chance to call with a last card.
pub open spec fn lone_profile_shift(profile: BotProfile) -> int {
    match profile {
        BotProfile::Conservative => -10,
        BotProfile::Balanced => 0,
        BotProfile::Aggressive => 18,
        BotProfile::Tricky => 8,
    }
}

/// Shift (hundredths) of the chance to call for the size of the raise.
pub open spec fn lone_stake_shift(to: u8) -> int {
    if to == 3 { 18 } else if to == 6 { 2 } else if to == 9 { -10 } else if to == 12 { -20 } else { 0 }
}

/// Profile shift (hundredths) of the acceptance score.
pub open spec fn score_profile_shift(profile: BotProfile) -> int {
    match profile {
        BotProfile::Conservative => -70,
        BotProfile::Balanced => 0,
        BotProfile::Aggressive => 80,
        BotProfile::Tricky => 30,
    }
}

/// Acceptance target (hundredths) for the size of the raise.
pub open spec fn score_target(to: u8) -> int {
    if to == 3 { 600 } else if to == 6 { 700 } else if to == 9 { 800 } else if to == 12 { 940 } else { 700 }
}

pub open spec fn clamp(v: int, lo: int, hi: int) -> int {
    if v < lo { lo } else if v > hi { hi } else { v }
}

/// The hand texture a raise answer looks at. Strength is averaged over the
/// cards in hand and the card already shown this round, the shown card
/// weighing three quarters while cards remain in hand; totals are kept in
/// quarters so the average is exact.
pub struct RaiseTexture {
    pub hand_len: nat,
    pub shown: Option<u8>,
    pub top: int,
    pub total_quarters: int,
    pub samples_quarters: int,
    pub manilhas: int,
    pub first: int,
}

pub open spec fn raise_texture(turn: BotTurn, t: Turnup) -> RaiseTexture {
    let h = turn.view.hand->0;
    let strengths = strengths_of(h.hand@, t);
    let shown = own_shown_strength(turn);
    let n = h.hand@.len();
    let w: int = if n == 0 { 4 } else { 3 };
    let best = max_strength(strengths) as int;
    RaiseTexture {
        hand_len: n,
        shown,
        top: match shown { Some(s) => if s > best { s as int } else { best }, None => best },
        total_quarters: 4 * strength_sum(strengths) + match shown { Some(s) => s * w, None => 0 },
        samples_quarters: 4 * n + match shown { Some(_) => w, None => 0 },
        manilhas: manilha_count(h.hand@, t) + match shown { Some(s) => if s >= 10 { 1int } else { 0int }, None => 0 },
        first: if n > 0 { strengths[0] as int } else { 0 },
    }
}

/// Chance (in 1300ths) of calling with one card left: the card's strength out
/// of 13, shifted by the profile, by 8 hundredths when that card is already
/// face up on the table, and by the raise size, kept within 5% and 95%.
pub open spec fn lone_call_chance(tex: RaiseTexture, profile: BotProfile, to: u8) -> int {
    let shown_last = tex.hand_len == 0 && tex.shown is Some;
    let lone = if shown_last { tex.shown->0 as int } else { tex.first };
    let shift = lone_profile_shift(profile) + (if shown_last { 8int } else { 0int }) + lone_stake_shift(to);
    clamp(100 * lone + 13 * shift, 65, 1235)
}

/// Whether the acceptance score (average strength + 0.35 x top + 2.1 x
/// manilhas + profile shift) reaches the raise's target.
pub open spec fn score_reaches(tex: RaiseTexture, profile: BotProfile, to: u8) -> bool {
    let k = 35 * tex.top + 210 * tex.manilhas + score_profile_shift(profile) - score_target(to);
    if tex.samples_quarters > 0 {
        100 * tex.total_quarters + tex.samples_quarters * k >= 0
    } else {
        k >= 0
    }
}

/// The heuristic answer to a pending raise. With only one of accept and fold
/// legal, that one. With one card left (in hand, or shown with an empty hand),
/// call with `lone_call_chance` (`draw` is the outcome). Otherwise accept a
/// raise to 3 or less with a card of 8+, a manilha or an average of 6+; fold a
/// raise to 9 or more with no manilha and nothing above 8; else accept exactly
/// when `score_reaches`.
pub open spec fn raise_response_of(turn: BotTurn, profile: BotProfile, draw: bool) -> Option<Action> {
    match turn.view.hand {
        None => None,
        Some(h) => match h.public_state.pending_raise {
            None => None,
            Some(pending) => {
                let has_accept = offers(turn.legal_actions@, Action::AcceptRaise);
                let has_fold = offers(turn.legal_actions@, Action::Fold);
                if !has_accept || !has_fold {
                    if has_accept { Some(Action::AcceptRaise) } else { present_as(has_fold, Action::Fold) }
                } else {
                    match turn.turnup {
                        None => None,
                        Some(t) => {
                            let tex = raise_texture(turn, t);
                            let lone_case = tex.hand_len == 1 || (tex.hand_len == 0 && tex.shown is Some);
                            if lone_case {
                                if draw { Some(Action::AcceptRaise) } else { Some(Action::Fold) }
                            } else if pending.to <= 3 && (tex.top >= 8 || tex.manilhas > 0 || (
                            tex.samples_quarters > 0 && tex.total_quarters >= 6
                                * tex.samples_quarters)) {
                                Some(Action::AcceptRaise)
                            } else if pending.to >= 9 && tex.manilhas == 0 && tex.top <= 8 {
                                Some(Action::Fold)
                            } else if score_reaches(tex, profile, pending.to) {
                                Some(Action::AcceptRaise)
                            } else {
                                Some(Action::Fold)
                            }
                        },
                    }
                }
            },
        },
    }
}

/// The chance of calling that is drawn when one card is left, `None` when the
/// answer needs no draw.
pub open spec fn raise_call_chance_of(turn: BotTurn, profile: BotProfile) -> Option<int> {
    match (turn.view.hand, turn.turnup) {
        (Some(h), Some(t)) => match h.public_state.pending_raise {
            Some(pending) => {
                let tex = raise_texture(turn, t);
                if offers(turn.legal_actions@, Action::AcceptRaise) && offers(
                    turn.legal_actions@,
                    Action::Fold,
                ) && (tex.hand_len == 1 || (tex.hand_len == 0 && tex.shown is Some)) {
                    Some(lone_call_chance(tex, profile, pending.to))
                } else {
                    None
                }
            },
            None => None,
        },
        _ => None,
    }
}

fn lone_profile(profile: BotProfile) -> (r: i64)
    ensures
        r == lone_profile_shift(profile),
{
    match profile {
        BotProfile::Conservative => -10,
        BotProfile::Balanced => 0,
        BotProfile::Aggressive => 18,
        BotProfile::Tricky => 8,
    }
}

fn lone_stake(to: u8) -> (r: i64)
    ensures
        r == lone_stake_shift(to),
{
    if to == 3 { 18 } else if to == 6 { 2 } else if to == 9 { -10 } else if to == 12 { -20 } else { 0 }
}

fn score_profile(profile: BotProfile) -> (r: i128)
    ensures
        r == score_profile_shift(profile),
{
    match profile {
        BotProfile::Conservative => -70,
        BotProfile::Balanced => 0,
        BotProfile::Aggressive => 80,
        BotProfile::Tricky => 30,
    }
}

fn target_for(to: u8) -> (r: i128)
    ensures
        r == score_target(to),
{
    if to == 3 { 600 } else if to == 6 { 700 } else if to == 9 { 800 } else if to == 12 { 940 } else { 700 }
}

/// Computed texture of a raise answer (see `raise_texture`).
struct Texture {
    hand_len: usize,
    shown: Option<u8>,
    top: u8,
    total_quarters: u128,
    samples_quarters: u128,
    manilhas: u128,
    first: u8,
}

fn texture(turn: &BotTurn, turnup: &Turnup) -> (r: Texture)
    requires
        turn.view.hand is Some,
        turn.turnup == Some(*turnup),
    ensures
        ({
            let tex = raise_texture(*turn, *turnup);
            &&& r.hand_len == tex.hand_len
            &&& r.shown == tex.shown
            &&& r.top == tex.top
            &&& r.total_quarters == tex.total_quarters
            &&& r.samples_quarters == tex.samples_quarters
            &&& r.manilhas == tex.manilhas
            &&& r.first == tex.first
        }),
        r.top <= 13,
        r.first <= 13,
        r.total_quarters <= 52 * r.hand_len + 52,
        r.samples_quarters <= 4 * r.hand_len + 4,
        r.manilhas <= r.hand_len + 1,
{
    let hand = turn.view.hand.as_ref().unwrap();
    let strengths = card_strengths(&hand.hand, turnup);
    proof {
        lemma_strengths_bounded(hand.hand@, *turnup);
        lemma_max_strength_bounds(strengths@);
    }
    let shown = own_visible_current_strength(turn);
    let n = hand.hand.len();
    let best = top_strength(&strengths);
    let sum = sum_strengths(&strengths);
    let m = count_manilhas(&hand.hand, turnup);
    let w: u128 = if n == 0 { 4 } else { 3 };
    let top = match shown { Some(s) => if s > best { s } else { best }, None => best };
    let total_quarters = 4 * sum + match shown { Some(s) => s as u128 * w, None => 0 };
    let samples_quarters = 4 * (n as u128) + match shown { Some(_) => w, None => 0 };
    let manilhas = m as u128 + match shown { Some(s) => if s >= 10 { 1 } else { 0 }, None => 0 };
    let first = if n > 0 { strengths[0] } else { 0 };
    Texture { hand_len: n, shown, top, total_quarters, samples_quarters, manilhas, first }
}

fn lone_chance(tex: &Texture, profile: BotProfile, to: u8) -> (r: u32)
    requires
        tex.top <= 13,
        tex.first <= 13,
        tex.shown matches Some(v) ==> v <= 13,
    ensures
        r == lone_call_chance(
            RaiseTexture {
                hand_len: tex.hand_len as nat,
                shown: tex.shown,
                top: tex.top as int,
                total_quarters: tex.total_quarters as int,
                samples_quarters: tex.samples_quarters as int,
                manilhas: tex.manilhas as int,
                first: tex.first as int,
            },
            profile,
            to,
        ),
        65 <= r <= 1235,
{
    let shown_last = tex.hand_len == 0 && tex.shown.is_some();
    let lone: i64 = if shown_last {
        match tex.shown { Some(v) => v as i64, None => 0 }
    } else {
        tex.first as i64
    };
    let shift: i64 = lone_profile(profile) + (if shown_last { 8 } else { 0 }) + lone_stake(to);
    let mut v: i64 = 100 * lone + 13 * shift;
    if v < 65 {
        v = 65;
    }
    if v > 1235 {
        v = 1235;
    }
    v as u32
}

fn reaches(tex: &Texture, profile: BotProfile, to: u8) -> (r: bool)
    requires
        tex.top <= 13,
        tex.total_quarters <= 52 * tex.hand_len + 52,
        tex.samples_quarters <= 4 * tex.hand_len + 4,
        tex.manilhas <= tex.hand_len + 1,
    ensures
        r == score_reaches(
            RaiseTexture {
                hand_len: tex.hand_len as nat,
                shown: tex.shown,
                top: tex.top as int,
                total_quarters: tex.total_quarters as int,
                samples_quarters: tex.samples_quarters as int,
                manilhas: tex.manilhas as int,
                first: tex.first as int,
            },
            profile,
            to,
        ),
{
    // k = 35 top + 210 manilhas + shift - target; only a positive k can fail.
    let gain: u128 = 35 * (tex.top as u128) + 210 * tex.manilhas;
    let shift = score_profile(profile);
    let target = target_for(to);
    let need: i128 = target - shift;
    if need <= 0 || gain >= need as u128 {
        return true;
    }
    let k_neg: u128 = (need as u128) - gain;
    if tex.samples_quarters > 0 {
        proof {
            assert(k_neg <= 1010);
            assert(tex.samples_quarters * k_neg <= (4 * tex.hand_len + 4) * 1010) by (nonlinear_arith)
                requires
                    tex.samples_quarters <= 4 * tex.hand_len + 4,
                    k_neg <= 1010,
            ;
            let k: int = 35 * tex.top + 210 * tex.manilhas + score_profile_shift(profile) - score_target(to);
            assert(k == -(k_neg as int));
            assert(tex.samples_quarters * k == -(tex.samples_quarters * k_neg)) by (nonlinear_arith)
                requires
                    k == -(k_neg as int),
            ;
        }
        100 * tex.total_quarters >= tex.samples_quarters * k_neg
    } else {
        false
    }
}

/// The chance (in 1300ths) of calling that `choose_raise_response` draws, or
/// `None` when its answer needs no draw.
pub fn raise_call_chance(turn: &BotTurn, profile: BotProfile) -> (r: Option<u32>)
    ensures
        match r {
            Some(p) => raise_call_chance_of(*turn, profile) == Some(p as int),
            None => raise_call_chance_of(*turn, profile) is None,
        },
        r matches Some(p) ==> 65 <= p <= 1235,
{
    let hand = match &turn.view.hand {
        Some(h) => h,
        None => {
            return None;
        },
    };
    let turnup = match &turn.turnup {
        Some(t) => t,
        None => {
            return None;
        },
    };
    let pending = match &hand.public_state.pending_raise {
        Some(p) => p,
        None => {
            return None;
        },
    };
    let has_accept = offers_unit(&turn.legal_actions, true, false);
    let has_fold = offers_unit(&turn.legal_actions, false, false);
    let tex = texture(turn, turnup);
    if has_accept && has_fold && (tex.hand_len == 1 || (tex.hand_len == 0 && tex.shown.is_some())) {
        Some(lone_chance(&tex, profile, pending.to))
    } else {
        None
    }
}

/// The answer to a pending raise given the outcome `draw` of the call chance
/// (see `raise_response_of`).
pub fn choose_raise_response_with_draw(turn: &BotTurn, profile: BotProfile, draw: bool) -> (r: Option<Action>)
    ensures
        r == raise_response_of(*turn, profile, draw),
{
    let hand = match &turn.view.hand {
        Some(h) => h,
        None => {
            return None;
        },
    };
    let pending = match &hand.public_state.pending_raise {
        Some(p) => p,
        None => {
            return None;
        },
    };
    let has_accept = offers_unit(&turn.legal_actions, true, false);
    let has_fold = offers_unit(&turn.legal_actions, false, false);
    if !has_accept || !has_fold {
        return if has_accept {
            Some(Action::AcceptRaise)
        } else if has_fold {
            Some(Action::Fold)
        } else {
            None
        };
    }
    let turnup = match &turn.turnup {
        Some(t) => t,
        None => {
            return None;
        },
    };
    let tex = texture(turn, turnup);
    if tex.hand_len == 1 || (tex.hand_len == 0 && tex.shown.is_some()) {
        return if draw {
            Some(Action::AcceptRaise)
        } else {
            Some(Action::Fold)
        };
    }
    let average_six = tex.samples_quarters > 0 && tex.total_quarters >= 6 * tex.samples_quarters;
    if pending.to <= 3 && (tex.top >= 8 || tex.manilhas > 0 || average_six) {
        return Some(Action::AcceptRaise);
    }
    if pending.to >= 9 && tex.manilhas == 0 && tex.top <= 8 {
        return Some(Action::Fold);
    }
    if reaches(&tex, profile, pending.to) {
        Some(Action::AcceptRaise)
    } else {
        Some(Action::Fold)
    }
}

/// The heuristic answer to a pending raise; when one card is left the call is
/// drawn with the chance `raise_call_chance`, otherwise the answer is fixed.
pub fn choose_raise_response(turn: &BotTurn, profile: BotProfile, rng: &mut StdRng) -> (r: Option<Action>)
    ensures
        raise_call_chance_of(*turn, profile) is None ==> r == raise_response_of(*turn, profile, false),
        raise_call_chance_of(*turn, profile) is Some ==> (r == raise_response_of(*turn, profile, true)
            || r == raise_response_of(*turn, profile, false)),
        r matches Some(a) ==> turn.legal_actions@.contains(a),
{
    let draw = match raise_call_chance(turn, profile) {
        Some(p) => gen_ratio(rng, p, 1300),
        None => false,
    };
    choose_raise_response_with_draw(turn, profile, draw)
}

/// Profile shift (hundredths) of the chance to accept a mão de onze.
pub open spec fn eleven_profile_shift(profile: BotProfile) -> int {
    match profile {
        BotProfile::Conservative => -12,
        BotProfile::Balanced => 0,
        BotProfile::Aggressive => 12,
        BotProfile::Tricky => 5,
    }
}

/// Chance (in 1300ths) of accepting a mão de onze: 25% + 45% of the best
/// card's strength out of 13 + 20% per manilha + the profile shift, kept within
/// 5% and 98%.
pub open spec fn eleven_accept_chance(profile: BotProfile, top: int, manilhas: int) -> int {
    clamp(325 + 45 * top + 260 * manilhas + 13 * eleven_profile_shift(profile), 65, 1274)
}

/// When this seat must answer a mão de onze and both answers are legal, the
/// chance of accepting; `None` otherwise.
pub open spec fn eleven_chance_of(turn: BotTurn, profile: BotProfile) -> Option<int> {
    match (turn.view.hand, turn.turnup) {
        (Some(h), Some(t)) => match h.public_state.pending_decision {
            Some(d) => if d.player == turn.player && offers(turn.legal_actions@, Action::AcceptEleven)
                && offers(turn.legal_actions@, Action::FoldEleven) {
                Some(
                    eleven_accept_chance(
                        profile,
                        max_strength(strengths_of(h.hand@, t)) as int,
                        manilha_count(h.hand@, t) as int,
                    ),
                )
            } else {
                None
            },
            None => None,
        },
        _ => None,
    }
}

/// The mão de onze answer given the draw: nothing unless this seat owes the
/// decision; the only legal answer when one of accept and fold is missing;
/// otherwise accept when `draw` holds.
pub open spec fn eleven_response_of(turn: BotTurn, draw: bool) -> Option<Action> {
    match turn.view.hand {
        None => None,
        Some(h) => match h.public_state.pending_decision {
            None => None,
            Some(d) => if d.player != turn.player {
                None
            } else {
                let has_accept = offers(turn.legal_actions@, Action::AcceptEleven);
                let has_fold = offers(turn.legal_actions@, Action::FoldEleven);
                if !has_accept || !has_fold {
                    if has_accept { Some(Action::AcceptEleven) } else { present_as(has_fold, Action::FoldEleven) }
                } else if turn.turnup is None {
                    None
                } else if draw {
                    Some(Action::AcceptEleven)
                } else {
                    Some(Action::FoldEleven)
                }
            },
        },
    }
}

fn eleven_profile(profile: BotProfile) -> (r: i128)
    ensures
        r == eleven_profile_shift(profile),
{
    match profile {
        BotProfile::Conservative => -12,
        BotProfile::Balanced => 0,
        BotProfile::Aggressive => 12,
        BotProfile::Tricky => 5,
    }
}

/// The chance (in 1300ths) of accepting a mão de onze, or `None` when no draw
/// is made.
pub fn eleven_chance(turn: &BotTurn, profile: BotProfile) -> (r: Option<u32>)
    ensures
        match r {
            Some(p) => eleven_chance_of(*turn, profile) == Some(p as int),
            None => eleven_chance_of(*turn, profile) is None,
        },
        r matches Some(p) ==> 65 <= p <= 1274,
{
    let hand = match &turn.view.hand {
        Some(h) => h,
        None => {
            return None;
        },
    };
    let turnup = match &turn.turnup {
        Some(t) => t,
        None => {
            return None;
        },
    };
    let decision = match &hand.public_state.pending_decision {
        Some(d) => d,
        None => {
            return None;
        },
    };
    if decision.player != turn.player {
        return None;
    }
    if !offers_unit(&turn.legal_actions, true, true) || !offers_unit(&turn.legal_actions, false, true) {
        return None;
    }
    let strengths = card_strengths(&hand.hand, turnup);
    let top = top_strength(&strengths);
    let m = count_manilhas(&hand.hand, turnup);
    let mut v: i128 = 325 + 45 * (top as i128) + 260 * (m as i128) + 13 * eleven_profile(profile);
    if v < 65 {
        v = 65;
    }
    if v > 1274 {
        v = 1274;
    }
    Some(v as u32)
}

/// The mão de onze answer given the draw (see `eleven_response_of`).
pub fn choose_mao_de_onze_response_with_draw(turn: &BotTurn, draw: bool) -> (r: Option<Action>)
    ensures
        r == eleven_response_of(*turn, draw),
{
    let hand = match &turn.view.hand {
        Some(h) => h,
        None => {
            return None;
        },
    };
    let decision = match &hand.public_state.pending_decision {
        Some(d) => d,
        None => {
            return None;
        },
    };
    if decision.player != turn.player {
        return None;
    }
    let has_accept = offers_unit(&turn.legal_actions, true, true);
    let has_fold = offers_unit(&turn.legal_actions, false, true);
    if !has_accept || !has_fold {
        return if has_accept {
            Some(Action::AcceptEleven)
        } else if has_fold {
            Some(Action::FoldEleven)
        } else {
            None
        };
    }
    if turn.turnup.is_none() {
        return None;
    }
    if draw {
        Some(Action::AcceptEleven)
    } else {
        Some(Action::FoldEleven)
    }
}

/// The heuristic mão de onze answer, accepting with the chance `eleven_chance`.
pub fn choose_mao_de_onze_response(turn: &BotTurn, profile: BotProfile, rng: &mut StdRng) -> (r: Option<Action>)
    ensures
        eleven_chance_of(*turn, profile) is None ==> r == eleven_response_of(*turn, false),
        eleven_chance_of(*turn, profile) is Some ==> (r == eleven_response_of(*turn, true) || r
            == eleven_response_of(*turn, false)),
        r matches Some(a) ==> turn.legal_actions@.contains(a),
{
    let draw = match eleven_chance(turn, profile) {
        Some(p) => gen_ratio(rng, p, 1300),
        None => false,
    };
    choose_mao_de_onze_response_with_draw(turn, draw)
}

/// A raise to 3 or less, with both answers legal and more than one card in
/// hand, is accepted whenever the hand holds a manilha or a card of strength
/// 8 or more, whatever the profile and the draw.
pub proof fn lemma_strong_hands_accept_small_raises(turn: BotTurn, profile: BotProfile, draw: bool, i: int)
    requires
        turn.view.hand is Some,
        turn.view.hand->0.public_state.pending_raise is Some,
        turn.view.hand->0.public_state.pending_raise->0.to <= 3,
        turn.legal_actions@.contains(Action::AcceptRaise),
        turn.legal_actions@.contains(Action::Fold),
        turn.turnup is Some,
        turn.view.hand->0.hand@.len() >= 2,
        0 <= i < turn.view.hand->0.hand@.len(),
        is_manilha_rank(turn.view.hand->0.hand@[i].rank, turn.turnup->0) || strength_of(
            turn.view.hand->0.hand@[i].rank,
            turn.view.hand->0.hand@[i].suit,
            turn.turnup->0,
        ) >= 8,
    ensures
        raise_response_of(turn, profile, draw) == Some(Action::AcceptRaise),
{
    let cards = turn.view.hand->0.hand@;
    let t = turn.turnup->0;
    lemma_manilha_count_positive(cards, t);
    lemma_top_of_hand(cards, t, 13);
    if is_manilha_rank(cards[i].rank, t) {
        assert(manilha_count(cards, t) > 0);
    }
}

/// A raise to 9 or more, with both answers legal and more than one card in
/// hand, is folded when no card in hand is a manilha, none is stronger than 8,
/// and the card already shown this round (if any) is no stronger than 8,
/// whatever the profile and the draw.
pub proof fn lemma_weak_hands_fold_big_raises(turn: BotTurn, profile: BotProfile, draw: bool)
    requires
        turn.view.hand is Some,
        turn.view.hand->0.public_state.pending_raise is Some,
        turn.view.hand->0.public_state.pending_raise->0.to >= 9,
        turn.legal_actions@.contains(Action::AcceptRaise),
        turn.legal_actions@.contains(Action::Fold),
        turn.turnup is Some,
        turn.view.hand->0.hand@.len() >= 2,
        forall|i: int|
            0 <= i < turn.view.hand->0.hand@.len() ==> !is_manilha_rank(
                #[trigger] turn.view.hand->0.hand@[i].rank,
                turn.turnup->0,
            ) && strength_of(turn.view.hand->0.hand@[i].rank, turn.view.hand->0.hand@[i].suit, turn.turnup->0) <= 8,
        own_shown_strength(turn) is None || own_shown_strength(turn)->0 <= 8,
    ensures
        raise_response_of(turn, profile, draw) == Some(Action::Fold),
{
    let cards = turn.view.hand->0.hand@;
    let t = turn.turnup->0;
    lemma_manilha_count_positive(cards, t);
    lemma_top_of_hand(cards, t, 8);
}

/// The chance of accepting a mão de onze never falls as the hand gets
/// stronger (a higher top card, more manilhas).
pub proof fn lemma_eleven_chance_grows_with_the_hand(profile: BotProfile, top1: int, m1: int, top2: int, m2: int)
    requires
        top1 <= top2,
        m1 <= m2,
    ensures
        eleven_accept_chance(profile, top1, m1) <= eleven_accept_chance(profile, top2, m2),
{
}

/// Bolder profiles accept a mão de onze at least as often: conservative,
/// balanced, tricky, aggressive, in that order.
pub proof fn lemma_eleven_chance_follows_boldness(top: int, m: int)
    ensures
        eleven_accept_chance(BotProfile::Conservative, top, m) <= eleven_accept_chance(BotProfile::Balanced, top, m),
        eleven_accept_chance(BotProfile::Balanced, top, m) <= eleven_accept_chance(BotProfile::Tricky, top, m),
        eleven_accept_chance(BotProfile::Tricky, top, m) <= eleven_accept_chance(BotProfile::Aggressive, top, m),
{
}

/// With one card left, the chance of calling a raise never falls as that
/// card gets stronger, and never rises as the raise gets bigger (3, 6, 9, 12).
pub proof fn lemma_lone_call_chance_order(tex1: RaiseTexture, tex2: RaiseTexture, profile: BotProfile, to: u8)
    requires
        tex1.hand_len == 1,
        tex2.hand_len == 1,
        tex1.first <= tex2.first,
    ensures
        lone_call_chance(tex1, profile, to) <= lone_call_chance(tex2, profile, to),
        lone_call_chance(tex1, profile, 3) >= lone_call_chance(tex1, profile, 6),
        lone_call_chance(tex1, profile, 6) >= lone_call_chance(tex1, profile, 9),
        lone_call_chance(tex1, profile, 9) >= lone_call_chance(tex1, profile, 12),
{
}

/// More manilhas or a higher top card never turn an accepted raise into a
/// fold at the scoring step.
pub proof fn lemma_score_grows_with_the_hand(tex1: RaiseTexture, tex2: RaiseTexture, profile: BotProfile, to: u8)
    requires
        tex1.total_quarters == tex2.total_quarters,
        tex1.samples_quarters == tex2.samples_quarters,
        tex1.samples_quarters >= 0,
        tex1.top <= tex2.top,
        tex1.manilhas <= tex2.manilhas,
        score_reaches(tex1, profile, to),
    ensures
        score_reaches(tex2, profile, to),
{
    let k1 = 35 * tex1.top + 210 * tex1.manilhas + score_profile_shift(profile) - score_target(to);
    let k2 = 35 * tex2.top + 210 * tex2.manilhas + score_profile_shift(profile) - score_target(to);
    assert(k1 <= k2);
    assert(tex1.samples_quarters * k1 <= tex1.samples_quarters * k2) by (nonlinear_arith)
        requires
            k1 <= k2,
            tex1.samples_quarters >= 0,
    ;
}

} // verus!
