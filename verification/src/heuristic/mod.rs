//! The heuristic bot: hand-texture rules with profile-dependent mixing.
pub mod cards;
pub mod play;
pub mod raise;
pub mod raise_response;
pub mod tactical;

use vstd::prelude::*;

verus! {

/// Playing style of the heuristic bot.
#[derive(Debug, Clone, Copy, PartialEq, Eq, Hash, Structural)]
pub enum BotProfile {
    Conservative,
    Balanced,
    Aggressive,
    Tricky,
}

impl Default for BotProfile {
    fn default() -> (r: Self)
        ensures
            r == BotProfile::Balanced,
    {
        BotProfile::Balanced
    }
}

/// The profile's name as it appears in the bot's explanations.
pub open spec fn profile_label(profile: BotProfile) -> Seq<char> {
    match profile {
        BotProfile::Conservative => "Conservative"@,
        BotProfile::Balanced => "Balanced"@,
        BotProfile::Aggressive => "Aggressive"@,
        BotProfile::Tricky => "Tricky"@,
    }
}

/// The profile's name.
pub fn profile_name(profile: BotProfile) -> (r: String)
    ensures
        r@ == profile_label(profile),
{
    match profile {
        BotProfile::Conservative => String::from_str("Conservative"),
        BotProfile::Balanced => String::from_str("Balanced"),
        BotProfile::Aggressive => String::from_str("Aggressive"),
        BotProfile::Tricky => String::from_str("Tricky"),
    }
}

} // verus!

use crate::bot::{is_single_choice, single_choice_decision, BotDecision, BotError, BotTurn};
use crate::engine::Action;
use crate::rng::{gen_index, gen_ratio, seed_bytes, seed_bytes_of, seeded_std_rng, std_rng_from_seed};
use play::{
    choose_opening_raise, choose_play, opening_raise_chance, opening_raise_chance_of, play_choice,
    raise_before_killer, should_raise_before_showing_killer_card,
};
use raise::{raise_action, raise_choice};
use raise_response::{
    choose_mao_de_onze_response_with_draw, choose_raise_response_with_draw, eleven_chance,
    eleven_chance_of, eleven_response_of, raise_call_chance, raise_call_chance_of,
    raise_response_of,
};
use rand::rngs::StdRng;

verus! {

/// The heuristic bot: a random source and a playing profile.
#[derive(Debug)]
pub struct HeuristicBot {
    rng: StdRng,
    profile: BotProfile,
}

/// The heuristic bot's choice for a turn (outside the tactical analysis) and
/// its explanation, given the outcomes of its random draws: the answer to a
/// pending raise, else the mão de onze answer, else a raise before exposing
/// the clubs manilha, else an opening raise, else the card play, else the
/// legal action at `fallback`.
pub open spec fn heuristic_choice(
    turn: BotTurn,
    profile: BotProfile,
    raise_draw: bool,
    eleven_draw: bool,
    opening_draw: bool,
    fallback: int,
) -> (Action, Seq<char>) {
    let label = profile_label(profile);
    if raise_response_of(turn, profile, raise_draw) is Some {
        (
            raise_response_of(turn, profile, raise_draw)->0,
            label + " heuristic profile resolved the pending raise response."@,
        )
    } else if eleven_response_of(turn, eleven_draw) is Some {
        (
            eleven_response_of(turn, eleven_draw)->0,
            label + " heuristic profile resolved the mão de onze decision."@,
        )
    } else if raise_before_killer(turn, play_choice(turn)) && raise_choice(turn) is Some {
        (
            raise_choice(turn)->0,
            label + " heuristic profile raised before exposing the strongest manilha."@,
        )
    } else if opening_draw && opening_raise_chance_of(turn, profile) is Some && raise_choice(turn) is Some {
        (
            raise_choice(turn)->0,
            label + " heuristic profile chose an opening raise from pressure and hand texture."@,
        )
    } else if play_choice(turn) is Some {
        (play_choice(turn)->0, label + " heuristic profile selected a tactical card play."@)
    } else {
        (turn.legal_actions@[fallback], label + " heuristic profile fell back to a random legal action."@)
    }
}

/// `d` is the single-choice decision `heuristic_choice` gives for these draws.
pub open spec fn heuristic_decision_for(
    d: BotDecision,
    turn: BotTurn,
    profile: BotProfile,
    raise_draw: bool,
    eleven_draw: bool,
    opening_draw: bool,
    fallback: int,
) -> bool {
    let choice = heuristic_choice(turn, profile, raise_draw, eleven_draw, opening_draw, fallback);
    &&& 0 <= fallback < turn.legal_actions@.len()
    &&& (raise_call_chance_of(turn, profile) is None ==> !raise_draw)
    &&& (eleven_chance_of(turn, profile) is None ==> !eleven_draw)
    &&& is_single_choice(d, choice.0, choice.1)
}

fn with_label(profile: BotProfile, suffix: &str) -> (r: String)
    ensures
        r@ == profile_label(profile) + suffix@,
{
    let mut s = profile_name(profile);
    s.append(suffix);
    s
}

impl HeuristicBot {
    /// A balanced bot seeded with `seed` (little-endian in the first eight
    /// bytes of the generator seed).
    pub fn from_seed(seed: u64) -> (r: Self)
        ensures
            r.profile() == BotProfile::Balanced,
            r.generator() == seeded_std_rng(seed_bytes_of(seed)),
    {
        Self::from_seed_with_profile(seed, BotProfile::Balanced)
    }

    /// A bot of the given profile seeded with `seed`.
    pub fn from_seed_with_profile(seed: u64, profile: BotProfile) -> (r: Self)
        ensures
            r.profile() == profile,
            r.generator() == seeded_std_rng(seed_bytes_of(seed)),
    {
        HeuristicBot { rng: std_rng_from_seed(seed_bytes(seed)), profile }
    }

    /// A bot drawing from `rng`.
    pub fn new(rng: StdRng, profile: BotProfile) -> (r: Self)
        ensures
            r.profile() == profile,
            r.generator() == rng,
    {
        HeuristicBot { rng, profile }
    }

    pub closed spec fn spec_profile(&self) -> BotProfile {
        self.profile
    }

    /// The bot's playing profile.
    #[verifier::when_used_as_spec(spec_profile)]
    pub fn profile(&self) -> (r: BotProfile)
        ensures
            r == self.spec_profile(),
    {
        self.profile
    }

    /// The bot's random source.
    pub closed spec fn generator(&self) -> StdRng {
        self.rng
    }

    /// The bot's random source, for draws made around its decisions: a
    /// reference to the bot's own generator, whatever is done through it
    /// being what the bot keeps.
    pub fn rng_mut(&mut self) -> (r: &mut StdRng)
        ensures
            *r == old(self).generator(),
            final(self).generator() == *final(r),
            final(self).profile() == old(self).profile(),
    {
        &mut self.rng
    }

    /// The heuristic decision for a turn (outside the tactical analysis):
    /// an error exactly when no action is legal, else a single-choice decision
    /// that `heuristic_choice` gives for some outcome of the draws, always one
    /// of the legal actions.
    pub fn choose_decision(&mut self, turn: &BotTurn) -> (r: Result<BotDecision, BotError>)
        ensures
            final(self).profile() == old(self).profile(),
            r is Err <==> turn.legal_actions@.len() == 0,
            r matches Err(e) ==> e == BotError::NoLegalActions,
            r matches Ok(d) ==> turn.legal_actions@.contains(d.action),
            r matches Ok(d) ==> exists|rd: bool, ed: bool, od: bool, k: int|
                heuristic_decision_for(d, *turn, old(self).profile(), rd, ed, od, k),
    {
        if turn.legal_actions.len() == 0 {
            return Err(BotError::NoLegalActions);
        }
        let profile = self.profile;
        let raise_draw = match raise_call_chance(turn, profile) {
            Some(p) => gen_ratio(&mut self.rng, p, 1300),
            None => false,
        };
        let mut eleven_draw = false;
        let mut opening_draw = false;
        let mut fallback: usize = 0;
        let chosen: Action;
        let reasoning: String;
        if let Some(a) = choose_raise_response_with_draw(turn, profile, raise_draw) {
            chosen = a;
            reasoning = with_label(profile, " heuristic profile resolved the pending raise response.");
        } else {
            eleven_draw = match eleven_chance(turn, profile) {
                Some(p) => gen_ratio(&mut self.rng, p, 1300),
                None => false,
            };
            if let Some(a) = choose_mao_de_onze_response_with_draw(turn, eleven_draw) {
                chosen = a;
                reasoning = with_label(profile, " heuristic profile resolved the mão de onze decision.");
            } else {
                let chosen_play = choose_play(turn, profile);
                let killer = should_raise_before_showing_killer_card(
                    turn,
                    match &chosen_play {
                        Some(a) => Some(a),
                        None => None,
                    },
                );
                let raise = raise_action(turn);
                if killer && raise.is_some() {
                    chosen = raise.unwrap();
                    reasoning = with_label(profile, " heuristic profile raised before exposing the strongest manilha.");
                } else {
                    opening_draw = match opening_raise_chance(turn, profile) {
                        Some(p) => gen_ratio(&mut self.rng, p, 100),
                        None => false,
                    };
                    if opening_draw && opening_raise_chance(turn, profile).is_some() && raise.is_some() {
                        chosen = raise.unwrap();
                        reasoning = with_label(profile, " heuristic profile chose an opening raise from pressure and hand texture.");
                    } else if let Some(a) = chosen_play {
                        chosen = a;
                        reasoning = with_label(profile, " heuristic profile selected a tactical card play.");
                    } else {
                        fallback = gen_index(&mut self.rng, turn.legal_actions.len());
                        chosen = turn.legal_actions[fallback].clone();
                        reasoning = with_label(profile, " heuristic profile fell back to a random legal action.");
                    }
                }
            }
        }
        let d = single_choice_decision(chosen, reasoning);
        assert(heuristic_decision_for(d, *turn, profile, raise_draw, eleven_draw, opening_draw, fallback as int));
        Ok(d)
    }
}

} // verus!
