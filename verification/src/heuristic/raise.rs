//! When raising is worth it, and which raise to make.
use crate::bot::BotTurn;
use crate::engine::{Action, MATCH_TARGET};
use vstd::prelude::*;

verus! {

/// The first raise among the legal actions.
pub open spec fn first_raise(legal: Seq<Action>) -> Option<Action>
    decreases legal.len(),
{
    if legal.len() == 0 {
        None
    } else if legal[0] is Raise {
        Some(legal[0])
    } else {
        first_raise(legal.drop_first())
    }
}

pub proof fn lemma_first_raise_in(legal: Seq<Action>)
    ensures
        first_raise(legal) matches Some(a) ==> legal.contains(a) && a is Raise,
    decreases legal.len(),
{
    if legal.len() > 0 && !(legal[0] is Raise) {
        lemma_first_raise_in(legal.drop_first());
        if first_raise(legal) is Some {
            let a = first_raise(legal)->0;
            let k = choose|k: int| 0 <= k < legal.drop_first().len() && legal.drop_first()[k] == a;
            assert(legal[k + 1] == a);
        }
    }
}

/// The acting seat's match score (0 for a seat outside 0 and 1).
pub open spec fn own_score(turn: BotTurn) -> u8 {
    if turn.player == 0 {
        turn.view.score.zero
    } else if turn.player == 1 {
        turn.view.score.one
    } else {
        0
    }
}

/// A raise is worth making only while the stake now on the table (the pending
/// raise, else the hand value) is below the points the seat still needs.
pub open spec fn raise_worthwhile(turn: BotTurn) -> bool {
    match turn.view.hand {
        None => false,
        Some(h) => {
            let stake = match h.public_state.pending_raise {
                Some(p) => p.to,
                None => h.public_state.hand_value,
            };
            let score = own_score(turn);
            let needed: int = if score < MATCH_TARGET { MATCH_TARGET - score } else { 0 };
            stake < needed
        },
    }
}

/// Whether raising can still change the match: false once the current stake
/// already covers the points this seat needs to win.
pub fn raise_is_worthwhile_for_match_score(turn: &BotTurn) -> (r: bool)
    ensures
        r == raise_worthwhile(*turn),
{
    let hand = match &turn.view.hand {
        Some(h) => h,
        None => {
            return false;
        },
    };
    let current_stake = match &hand.public_state.pending_raise {
        Some(p) => p.to,
        None => hand.public_state.hand_value,
    };
    let score = if turn.player == 0 {
        turn.view.score.zero
    } else if turn.player == 1 {
        turn.view.score.one
    } else {
        0
    };
    let points_needed = MATCH_TARGET.saturating_sub(score);
    current_stake < points_needed
}

/// The raise the bot would make: the first legal raise, when raising is worthwhile.
pub open spec fn raise_choice(turn: BotTurn) -> Option<Action> {
    if raise_worthwhile(turn) {
        first_raise(turn.legal_actions@)
    } else {
        None
    }
}

/// The first legal raise, provided raising is still worthwhile for the score.
pub fn raise_action(turn: &BotTurn) -> (r: Option<Action>)
    ensures
        r == raise_choice(*turn),
        r matches Some(a) ==> turn.legal_actions@.contains(a) && a is Raise,
{
    proof {
        lemma_first_raise_in(turn.legal_actions@);
    }
    if !raise_is_worthwhile_for_match_score(turn) {
        return None;
    }
    let mut i: usize = 0;
    assert(turn.legal_actions@.skip(0) == turn.legal_actions@);
    while i < turn.legal_actions.len()
        invariant
            i <= turn.legal_actions.len(),
            raise_worthwhile(*turn),
            first_raise(turn.legal_actions@) == first_raise(turn.legal_actions@.skip(i as int)),
        decreases turn.legal_actions.len() - i,
    {
        assert(turn.legal_actions@.skip(i as int).drop_first() == turn.legal_actions@.skip(i + 1));
        assert(turn.legal_actions@.skip(i as int)[0] == turn.legal_actions@[i as int]);
        if let Action::Raise { to } = &turn.legal_actions[i] {
            return Some(Action::Raise { to: *to });
        }
        i = i + 1;
    }
    None
}

} // verus!
