//! The uniform random baseline bot.
use crate::bot::{BotDecision, BotError, BotPlan, BotTurn, WeightedActionChoice};
use crate::engine::Action;
use crate::rng::{seed_bytes_of, seeded_std_rng, gen_index, seed_bytes, std_rng_from_seed};
use rand::rngs::StdRng;
use vstd::prelude::*;

verus! {

/// A bot that plays every legal action with equal chance.
#[derive(Debug)]
pub struct UniformRandomBot {
    rng: StdRng,
}

/// The uniform plan over the legal actions: one unit-weight choice per legal
/// action, in order.
pub open spec fn uniform_plan(plan: BotPlan, legal: Seq<Action>) -> bool {
    &&& plan.choices@.len() == legal.len()
    &&& forall|i: int|
        0 <= i < legal.len() ==> (#[trigger] plan.choices@[i]).action == legal[i]
            && plan.choices@[i].weight == 1
    &&& plan.reasoning matches Some(text)
        && text@ == "Uniform random baseline bot. Every legal action was assigned equal weight."@
}

impl UniformRandomBot {
    /// The bot's random source.
    pub closed spec fn generator(&self) -> StdRng {
        self.rng
    }

    /// A bot seeded with `seed` (little-endian in the first eight seed bytes).
    pub fn from_seed(seed: u64) -> (r: Self)
        ensures
            r.generator() == seeded_std_rng(seed_bytes_of(seed)),
    {
        UniformRandomBot { rng: std_rng_from_seed(seed_bytes(seed)) }
    }

    /// A bot drawing from `rng`.
    pub fn new(rng: StdRng) -> (r: Self)
        ensures
            r.generator() == rng,
    {
        UniformRandomBot { rng }
    }

    /// Draws one legal action uniformly and reports the uniform plan; an error
    /// exactly when no action is legal.
    pub fn choose_decision(&mut self, turn: &BotTurn) -> (r: Result<BotDecision, BotError>)
        ensures
            r is Err <==> turn.legal_actions@.len() == 0,
            r matches Err(e) ==> e == BotError::NoLegalActions,
            r matches Ok(d) ==> turn.legal_actions@.contains(d.action) && uniform_plan(
                d.plan,
                turn.legal_actions@,
            ),
    {
        if turn.legal_actions.len() == 0 {
            return Err(BotError::NoLegalActions);
        }
        let index = gen_index(&mut self.rng, turn.legal_actions.len());
        let action = turn.legal_actions[index].clone();
        let mut choices: Vec<WeightedActionChoice> = Vec::new();
        let mut i: usize = 0;
        while i < turn.legal_actions.len()
            invariant
                i <= turn.legal_actions.len(),
                choices@.len() == i,
                forall|j: int|
                    0 <= j < i ==> (#[trigger] choices@[j]).action == turn.legal_actions@[j]
                        && choices@[j].weight == 1,
            decreases turn.legal_actions.len() - i,
        {
            choices.push(WeightedActionChoice { action: turn.legal_actions[i].clone(), weight: 1 });
            i = i + 1;
        }
        let reasoning = String::from_str(
            "Uniform random baseline bot. Every legal action was assigned equal weight.",
        );
        Ok(BotDecision { action, plan: BotPlan { choices, reasoning: Some(reasoning) } })
    }
}

impl crate::bot::BotDecisionSource for UniformRandomBot {
    /// See the inherent `choose_decision`.
    fn choose_decision(&mut self, turn: &BotTurn) -> (r: Result<BotDecision, BotError>)
        ensures
            r is Err <==> turn.legal_actions@.len() == 0,
            r matches Err(e) ==> e == BotError::NoLegalActions,
            r matches Ok(d) ==> turn.legal_actions@.contains(d.action) && uniform_plan(
                d.plan,
                turn.legal_actions@,
            ),
    {
        UniformRandomBot::choose_decision(self, turn)
    }
}

impl crate::bot::Bot for UniformRandomBot {
    /// One legal action drawn uniformly; an error exactly when none is legal.
    fn choose_action(&mut self, turn: &BotTurn) -> (r: Result<Action, BotError>)
        ensures
            r is Err <==> turn.legal_actions@.len() == 0,
            r matches Err(e) ==> e == BotError::NoLegalActions,
            r matches Ok(a) ==> turn.legal_actions@.contains(a),
    {
        match UniformRandomBot::choose_decision(self, turn) {
            Ok(d) => Ok(d.action),
            Err(e) => Err(e),
        }
    }
}

} // verus!
