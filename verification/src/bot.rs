//! Shared bot types: the turn a bot is asked to play, its decision, and the
//! errors it can report.
use crate::engine::{Action, Player, PlayerMatchView, Turnup, contains_action};
use crate::text::action_debug_text;
use vstd::prelude::*;

verus! {

/// Everything a bot needs to choose its next action.
#[derive(Debug, Clone, PartialEq, Eq)]
pub struct BotTurn {
    pub player: Player,
    pub turnup: Option<Turnup>,
    pub view: PlayerMatchView,
    pub legal_actions: Vec<Action>,
}

/// One action of a plan with its relative weight.
#[derive(Debug, PartialEq, Eq)]
pub struct WeightedActionChoice {
    pub action: Action,
    pub weight: u32,
}

/// The mixed strategy a bot reports alongside its action.
#[derive(Debug, PartialEq, Eq)]
pub struct BotPlan {
    pub choices: Vec<WeightedActionChoice>,
    pub reasoning: Option<String>,
}

/// The chosen action and the plan it was drawn from.
#[derive(Debug, PartialEq, Eq)]
pub struct BotDecision {
    pub action: Action,
    pub plan: BotPlan,
}

/// Why a bot could not act.
#[derive(Debug, Clone, PartialEq, Eq)]
pub enum BotError {
    Engine(String),
    NoLegalActions,
    InvalidDecision(String),
}

/// A decision that plays `action` with certainty, explained by `reasoning`.
pub open spec fn is_single_choice(d: BotDecision, action: Action, reasoning: Seq<char>) -> bool {
    &&& d.action == action
    &&& d.plan.choices@.len() == 1
    &&& d.plan.choices@[0].action == action
    &&& d.plan.choices@[0].weight == 1
    &&& d.plan.reasoning matches Some(text) && text@ == reasoning
}

/// Wraps one action into a decision with a single unit-weight choice.
pub fn single_choice_decision(action: Action, reasoning: String) -> (r: BotDecision)
    ensures
        is_single_choice(r, action, reasoning@),
{
    let copy = action.clone();
    let mut choices = Vec::new();
    choices.push(WeightedActionChoice { action, weight: 1 });
    BotDecision { action: copy, plan: BotPlan { choices, reasoning: Some(reasoning) } }
}

/// Whether `action` denotes one of the legal actions.
pub open spec fn is_legal(action: Action, legal_actions: Seq<Action>) -> bool {
    exists|j: int| 0 <= j < legal_actions.len() && (#[trigger] legal_actions[j])@ == action@
}

/// Whether every action of a plan is a legal action.
pub open spec fn all_legal(plan_actions: Seq<Action>, legal_actions: Seq<Action>) -> bool {
    forall|i: int| 0 <= i < plan_actions.len() ==> is_legal(#[trigger] plan_actions[i], legal_actions)
}

/// The position of the first action of a plan that is not legal, if any.
pub open spec fn first_illegal(plan_actions: Seq<Action>, legal_actions: Seq<Action>) -> Option<int> {
    if all_legal(plan_actions, legal_actions) {
        None
    } else {
        Some(
            choose|i: int|
                0 <= i < plan_actions.len() && !is_legal(plan_actions[i], legal_actions) && forall|j: int|
                    0 <= j < i ==> is_legal(#[trigger] plan_actions[j], legal_actions),
        )
    }
}

/// The checks a weighted plan must pass before an action is drawn from it:
/// some legal action exists (else `NoLegalActions`), the plan is not empty,
/// and every action of the plan is legal (else `InvalidDecision` saying so,
/// naming the first illegal action).
pub fn check_weighted_plan(plan_actions: &Vec<Action>, legal_actions: &Vec<Action>) -> (r: Result<
    (),
    BotError,
>)
    ensures
        legal_actions@.len() == 0 ==> r == Err::<(), BotError>(BotError::NoLegalActions),
        legal_actions@.len() > 0 && plan_actions@.len() == 0 ==> (r matches Err(BotError::InvalidDecision(m))
            && m@ == "bot returned no weighted action choices"@),
        legal_actions@.len() > 0 && plan_actions@.len() > 0 ==> match first_illegal(plan_actions@, legal_actions@) {
            None => r is Ok,
            Some(i) => r matches Err(BotError::InvalidDecision(m)) && m@ == "bot returned an illegal action: "@
                + action_debug_text(plan_actions@[i]@),
        },
        r is Ok <==> (legal_actions@.len() > 0 && plan_actions@.len() > 0 && all_legal(
            plan_actions@,
            legal_actions@,
        )),
{
    if legal_actions.len() == 0 {
        return Err(BotError::NoLegalActions);
    }
    if plan_actions.len() == 0 {
        return Err(
            BotError::InvalidDecision(
                String::from_str("bot returned no weighted action choices"),
            ),
        );
    }
    let mut i: usize = 0;
    while i < plan_actions.len()
        invariant
            i <= plan_actions.len(),
            legal_actions.len() > 0,
            plan_actions.len() > 0,
            forall|j: int| 0 <= j < i ==> is_legal(#[trigger] plan_actions@[j], legal_actions@),
        decreases plan_actions.len() - i,
    {
        if !contains_action(legal_actions, &plan_actions[i]) {
            let mut message = String::from_str("bot returned an illegal action: ");
            let text = plan_actions[i].debug_text();
            message.append(text.as_str());
            proof {
                assert(!is_legal(plan_actions@[i as int], legal_actions@));
                assert(!all_legal(plan_actions@, legal_actions@));
                let f = first_illegal(plan_actions@, legal_actions@)->0;
                if f < i {
                    assert(is_legal(plan_actions@[f], legal_actions@));
                } else if f > i {
                }
                assert(f == i);
            }
            return Err(BotError::InvalidDecision(message));
        }
        i = i + 1;
    }
    Ok(())
}

/// The text of a bot error.
pub open spec fn bot_error_text(e: BotError) -> Seq<char> {
    match e {
        BotError::Engine(m) => m@,
        BotError::NoLegalActions => "bot received no legal actions"@,
        BotError::InvalidDecision(m) => m@,
    }
}

impl BotError {
    /// The error as text.
    pub fn message(&self) -> (r: String)
        ensures
            r@ == bot_error_text(*self),
    {
        match self {
            BotError::Engine(m) => m.clone(),
            BotError::NoLegalActions => String::from_str("bot received no legal actions"),
            BotError::InvalidDecision(m) => m.clone(),
        }
    }
}

/// A bot that picks an action for a turn.
pub trait Bot {
    fn choose_action(&mut self, turn: &BotTurn) -> Result<Action, BotError>;
}

/// A bot that picks an action for a turn and reports the plan behind it.
pub trait BotDecisionSource {
    fn choose_decision(&mut self, turn: &BotTurn) -> Result<BotDecision, BotError>;
}

} // verus!
