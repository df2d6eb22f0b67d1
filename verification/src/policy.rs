//! The solved-policy bot's logic: which stored profile serves a live hand
//! (directly or through the seat transpose), how the hand's action log and
//! starting hand are put in the solver's abstract terms, which stored actions
//! are currently playable, and how a miss falls back to the heuristic bot.
use crate::abstraction::{abstract_card, blocked_level, blocked_plain_level, class_of, AbstractAction};
use crate::bot::{is_legal, BotDecision, BotError, BotTurn};
use crate::engine::{contains_action, Action, Card, Player, Rank, Turnup};
use crate::heuristic::{BotProfile, HeuristicBot};
use crate::rng::{seeded_u64_std_rng, std_rng_seed_from_u64};
use crate::seed::{find_class_card, first_of_class, SeedSpec};
use crate::text::{decimal, format_u64};
use rand::rngs::StdRng;
use std::collections::HashMap;
use std::sync::Arc;
use vstd::prelude::*;
use vstd::std_specs::hash::group_hash_axioms;

verus! {

broadcast use group_hash_axioms;

/// Why the policy profiles could not be loaded.
#[derive(Debug, Clone, PartialEq, Eq)]
pub enum PolicyStoreError {
    Manifest(String),
    Profile { file: String, message: String },
}

/// The text of a load error.
pub open spec fn store_error_text(e: PolicyStoreError) -> Seq<char> {
    match e {
        PolicyStoreError::Manifest(m) => "policy manifest: "@ + m@,
        PolicyStoreError::Profile { file, message } => "policy profile "@ + file@ + ": "@ + message@,
    }
}

impl PolicyStoreError {
    /// The error as text.
    pub fn message(&self) -> (r: String)
        ensures
            r@ == store_error_text(*self),
    {
        match self {
            PolicyStoreError::Manifest(m) => {
                let mut s = String::from_str("policy manifest: ");
                s.append(m.as_str());
                s
            },
            PolicyStoreError::Profile { file, message } => {
                let mut s = String::from_str("policy profile ");
                s.append(file.as_str());
                s.append(": ");
                s.append(message.as_str());
                s
            },
        }
    }
}

/// The map key of a profile: seat-0 score, seat-1 score, turnup class and
/// dealer, one byte each.
pub open spec fn profile_key(zero: u8, one: u8, tc: u8, dealer: u8) -> u32 {
    (zero * 0x100_0000 + one * 0x1_0000 + tc * 0x100 + dealer) as u32
}

fn key_of(zero: u8, one: u8, tc: u8, dealer: u8) -> (r: u32)
    ensures
        r == profile_key(zero, one, tc, dealer),
{
    (zero as u32) * 0x100_0000 + (one as u32) * 0x1_0000 + (tc as u32) * 0x100 + (dealer as u32)
}

/// Distinct (score, turnup class, dealer) spots have distinct keys.
pub proof fn lemma_profile_key_injective(
    a0: u8,
    a1: u8,
    a2: u8,
    a3: u8,
    b0: u8,
    b1: u8,
    b2: u8,
    b3: u8,
)
    ensures
        profile_key(a0, a1, a2, a3) == profile_key(b0, b1, b2, b3) <==> (a0 == b0 && a1 == b1 && a2
            == b2 && a3 == b3),
{
    if profile_key(a0, a1, a2, a3) == profile_key(b0, b1, b2, b3) {
        assert(a0 == b0 && a1 == b1 && a2 == b2 && a3 == b3) by (nonlinear_arith)
            requires
                a0 * 0x100_0000 + a1 * 0x1_0000 + a2 * 0x100 + a3 == b0 * 0x100_0000 + b1 * 0x1_0000
                    + b2 * 0x100 + b3,
                a0 < 256,
                a1 < 256,
                a2 < 256,
                a3 < 256,
                b0 < 256,
                b1 < 256,
                b2 < 256,
                b3 < 256,
        ;
    }
}

/// The solved profiles by spot, in the solve's frame, and the directory they
/// were read from.
#[derive(Debug)]
pub struct PolicyStore<P> {
    profiles: HashMap<u32, P>,
    dir: String,
}

impl<P> PolicyStore<P> {
    /// The stored profiles, by key.
    pub closed spec fn entries(&self) -> Map<u32, P> {
        self.profiles@
    }

    /// The directory the profiles came from.
    pub closed spec fn directory(&self) -> Seq<char> {
        self.dir@
    }

    /// A store with no profile yet.
    pub fn new(dir: String) -> (r: Self)
        ensures
            r.entries() == Map::<u32, P>::empty(),
            r.directory() == dir@,
    {
        PolicyStore { profiles: HashMap::new(), dir }
    }

    /// Files a profile under its spot; a later profile for the same spot
    /// replaces the earlier one.
    pub fn insert_profile(&mut self, score: (u8, u8), tc: u8, dealer: u8, profile: P)
        ensures
            final(self).entries() == old(self).entries().insert(
                profile_key(score.0, score.1, tc, dealer),
                profile,
            ),
            final(self).directory() == old(self).directory(),
    {
        let key = key_of(score.0, score.1, tc, dealer);
        self.profiles.insert(key, profile);
    }

    /// How many spots have a profile.
    pub fn profile_count(&self) -> (r: usize)
        ensures
            r == self.entries().len(),
    {
        self.profiles.len()
    }

    /// The directory the profiles came from.
    pub fn dir(&self) -> (r: &str)
        ensures
            r@ == self.directory(),
    {
        self.dir.as_str()
    }

    /// The profile serving a live spot: the one stored for it, else the one
    /// stored for its seat transpose (scores swapped, other dealer), flagged
    /// `true` so the caller relabels the player into the solve's frame.
    pub fn select(&self, score: (u8, u8), tc: u8, dealer: u8) -> (r: Option<(&P, bool)>)
        requires
            dealer <= 1,
        ensures
            match r {
                Some((p, swapped)) => served_by(self.entries(), score, tc, dealer) == Some((*p, swapped)),
                None => served_by(self.entries(), score, tc, dealer) is None,
            },
    {
        let direct = key_of(score.0, score.1, tc, dealer);
        match self.profiles.get(&direct) {
            Some(profile) => Some((profile, false)),
            None => {
                let swapped = key_of(score.1, score.0, tc, 1 - dealer);
                match self.profiles.get(&swapped) {
                    Some(profile) => Some((profile, true)),
                    None => None,
                }
            },
        }
    }

    /// Whether some profile serves the spot, directly or transposed.
    pub fn covers(&self, score: (u8, u8), tc: u8, dealer: u8) -> (r: bool)
        requires
            dealer <= 1,
        ensures
            r == served_by(self.entries(), score, tc, dealer) is Some,
    {
        self.select(score, tc, dealer).is_some()
    }
}

/// The profile serving a spot and whether it is the seat transpose's.
pub open spec fn served_by<P>(entries: Map<u32, P>, score: (u8, u8), tc: u8, dealer: u8) -> Option<(P, bool)> {
    let direct = profile_key(score.0, score.1, tc, dealer);
    let swapped = profile_key(score.1, score.0, tc, (1 - dealer) as u8);
    if entries.contains_key(direct) {
        Some((entries[direct], false))
    } else if entries.contains_key(swapped) {
        Some((entries[swapped], true))
    } else {
        None
    }
}

/// Seat symmetry: a stored profile serves its own spot as it is, and the
/// transposed spot (scores swapped, other dealer) through the transpose when
/// that spot has no profile of its own.
pub proof fn lemma_store_serves_transpose<P>(entries: Map<u32, P>, zero: u8, one: u8, tc: u8, dealer: u8)
    requires
        dealer <= 1,
        entries.contains_key(profile_key(zero, one, tc, dealer)),
    ensures
        served_by(entries, (zero, one), tc, dealer) == Some((entries[profile_key(zero, one, tc, dealer)], false)),
        !entries.contains_key(profile_key(one, zero, tc, (1 - dealer) as u8)) ==> served_by(
            entries,
            (one, zero),
            tc,
            (1 - dealer) as u8,
        ) == Some((entries[profile_key(zero, one, tc, dealer)], true)),
{
    assert((1 - ((1 - dealer) as u8)) as u8 == dealer);
}

/// A profile filed for a spot is what serves that spot afterwards, as it is.
pub proof fn lemma_inserted_profile_serves<P>(entries: Map<u32, P>, score: (u8, u8), tc: u8, dealer: u8, profile: P)
    requires
        dealer <= 1,
    ensures
        served_by(entries.insert(profile_key(score.0, score.1, tc, dealer), profile), score, tc, dealer)
            == Some((profile, false)),
{
}

/// Whether the store can serve a studied position: checked before offering the
/// solver opponent there.
pub fn store_covers_spec<P>(store: &PolicyStore<P>, spec: &SeedSpec) -> (r: bool)
    requires
        spec.dealer <= 1,
    ensures
        r == served_by(
            store.entries(),
            (spec.score.zero, spec.score.one),
            blocked_level(spec.vira_rank) as u8,
            spec.dealer,
        ) is Some,
{
    let tc = blocked_plain_level(spec.vira_rank);
    store.covers((spec.score.zero, spec.score.one), tc, spec.dealer)
}

/// Why a decision could not be served from the policy profiles.
#[derive(Debug, PartialEq, Eq)]
pub enum PolicyMiss {
    NoHand,
    UncoveredSpot { score: (u8, u8), tc: u8, dealer: u8 },
    UnreconstructableLog(String),
    IncompleteHand,
    MissingKey(u64),
    CorruptProfile(String),
    NoLegalChoices,
}

impl Clone for PolicyMiss {
    fn clone(&self) -> (r: Self)
        ensures
            r == *self,
    {
        match self {
            PolicyMiss::NoHand => PolicyMiss::NoHand,
            PolicyMiss::UncoveredSpot { score, tc, dealer } => PolicyMiss::UncoveredSpot {
                score: (score.0, score.1),
                tc: *tc,
                dealer: *dealer,
            },
            PolicyMiss::UnreconstructableLog(reason) => PolicyMiss::UnreconstructableLog(reason.clone()),
            PolicyMiss::IncompleteHand => PolicyMiss::IncompleteHand,
            PolicyMiss::MissingKey(key) => PolicyMiss::MissingKey(*key),
            PolicyMiss::CorruptProfile(reason) => PolicyMiss::CorruptProfile(reason.clone()),
            PolicyMiss::NoLegalChoices => PolicyMiss::NoLegalChoices,
        }
    }
}

/// The text of a miss.
pub open spec fn miss_label(miss: PolicyMiss) -> Seq<char> {
    match miss {
        PolicyMiss::NoHand => "no hand in progress"@,
        PolicyMiss::UncoveredSpot { score, tc, dealer } => "no profile for score "@ + decimal(
            score.0 as nat,
        ) + "x"@ + decimal(score.1 as nat) + " tc"@ + decimal(tc as nat) + " dealer "@ + decimal(
            dealer as nat,
        ),
        PolicyMiss::UnreconstructableLog(reason) => "action log: "@ + reason@,
        PolicyMiss::IncompleteHand => "could not reconstruct the starting hand"@,
        PolicyMiss::MissingKey(key) => "info set "@ + decimal(key as nat) + " missing from profile"@,
        PolicyMiss::CorruptProfile(reason) => "invalid policy profile: "@ + reason@,
        PolicyMiss::NoLegalChoices => "no stored action is currently legal"@,
    }
}

fn push_number(s: &mut String, n: u64)
    ensures
        final(s)@ == old(s)@ + decimal(n as nat),
{
    let digits = format_u64(n);
    s.append(digits.as_str());
}

impl PolicyMiss {
    /// The miss as text.
    pub fn label(&self) -> (r: String)
        ensures
            r@ == miss_label(*self),
    {
        match self {
            PolicyMiss::NoHand => String::from_str("no hand in progress"),
            PolicyMiss::UncoveredSpot { score, tc, dealer } => {
                let mut s = String::from_str("no profile for score ");
                push_number(&mut s, score.0 as u64);
                s.append("x");
                push_number(&mut s, score.1 as u64);
                s.append(" tc");
                push_number(&mut s, *tc as u64);
                s.append(" dealer ");
                push_number(&mut s, *dealer as u64);
                s
            },
            PolicyMiss::UnreconstructableLog(reason) => {
                let mut s = String::from_str("action log: ");
                s.append(reason.as_str());
                s
            },
            PolicyMiss::IncompleteHand => String::from_str("could not reconstruct the starting hand"),
            PolicyMiss::MissingKey(key) => {
                let mut s = String::from_str("info set ");
                push_number(&mut s, *key);
                s.append(" missing from profile");
                s
            },
            PolicyMiss::CorruptProfile(reason) => {
                let mut s = String::from_str("invalid policy profile: ");
                s.append(reason.as_str());
                s
            },
            PolicyMiss::NoLegalChoices => String::from_str("no stored action is currently legal"),
        }
    }
}

/// One action as the host observed it, in hand order; plays carry the card
/// resolved when the action was logged.
#[derive(Debug, Clone, PartialEq, Eq)]
pub struct ObservedAction {
    pub player: Player,
    pub action: Action,
    pub card: Option<Card>,
}

/// The solver's view of an observed action; `None` for an action outside its
/// action space or a play logged without its card.
pub open spec fn observed_abstract(observed: ObservedAction, turnup: Turnup) -> Option<
    AbstractAction,
> {
    match observed.action {
        Action::PlayFaceUp { .. } => match observed.card {
            Some(c) => Some(AbstractAction::PlayFaceUp(class_of(c.rank, c.suit, turnup.rank) as u8)),
            None => None,
        },
        Action::PlayFaceDown { .. } => match observed.card {
            Some(c) => Some(AbstractAction::PlayFaceDown(class_of(c.rank, c.suit, turnup.rank) as u8)),
            None => None,
        },
        Action::Raise { to } => Some(AbstractAction::Raise(to)),
        Action::AcceptRaise => Some(AbstractAction::AcceptRaise),
        Action::Fold => Some(AbstractAction::Fold),
        Action::AcceptEleven => Some(AbstractAction::AcceptEleven),
        Action::FoldEleven => Some(AbstractAction::FoldEleven),
        Action::ConcedeHand => None,
    }
}

/// Why an observed action has no abstract counterpart.
pub open spec fn observed_failure(observed: ObservedAction) -> Seq<char> {
    match observed.action {
        Action::PlayFaceUp { .. } => "play_face_up entry is missing its resolved card"@,
        Action::PlayFaceDown { .. } => "play_face_down entry is missing its resolved card"@,
        _ => "concede_hand is outside the solver's action space"@,
    }
}

/// Puts an observed action in the solver's terms; plays name the class of
/// their logged card.
pub fn observed_to_abstract(observed: &ObservedAction, turnup: &Turnup) -> (r: Result<
    AbstractAction,
    String,
>)
    ensures
        match observed_abstract(*observed, *turnup) {
            Some(a) => r == Ok::<AbstractAction, String>(a),
            None => r matches Err(m) && m@ == observed_failure(*observed),
        },
{
    match &observed.action {
        Action::PlayFaceUp { .. } => match &observed.card {
            Some(c) => Ok(AbstractAction::PlayFaceUp(abstract_card(c, turnup))),
            None => Err(String::from_str("play_face_up entry is missing its resolved card")),
        },
        Action::PlayFaceDown { .. } => match &observed.card {
            Some(c) => Ok(AbstractAction::PlayFaceDown(abstract_card(c, turnup))),
            None => Err(String::from_str("play_face_down entry is missing its resolved card")),
        },
        Action::Raise { to } => Ok(AbstractAction::Raise(*to)),
        Action::AcceptRaise => Ok(AbstractAction::AcceptRaise),
        Action::Fold => Ok(AbstractAction::Fold),
        Action::AcceptEleven => Ok(AbstractAction::AcceptEleven),
        Action::FoldEleven => Ok(AbstractAction::FoldEleven),
        Action::ConcedeHand => Err(
            String::from_str("concede_hand is outside the solver's action space"),
        ),
    }
}

/// A card a seat has played this hand.
#[derive(Debug, Clone, PartialEq, Eq)]
pub struct PlayedCard {
    pub player: Player,
    pub card: Card,
}

/// The cards `player` played, in order.
pub open spec fn own_plays(plays: Seq<PlayedCard>, player: Player) -> Seq<Card>
    decreases plays.len(),
{
    if plays.len() == 0 {
        Seq::empty()
    } else {
        let rest = own_plays(plays.drop_last(), player);
        if plays.last().player == player {
            rest.push(plays.last().card)
        } else {
            rest
        }
    }
}

/// The classes of some cards under a turnup.
pub open spec fn classes_of(cards: Seq<Card>, turnup: Turnup) -> Seq<u8> {
    cards.map_values(|c: Card| class_of(c.rank, c.suit, turnup.rank) as u8)
}

/// Non-decreasing order.
pub open spec fn ascending(s: Seq<u8>) -> bool {
    forall|i: int, j: int| 0 <= i <= j < s.len() ==> s[i] <= s[j]
}

/// The dealt hand, by sorted classes, is `hand` when the held and played
/// cards together are three: the same classes, in ascending order.
pub open spec fn is_starting_hand(hand: Seq<u8>, held: Seq<Card>, plays: Seq<PlayedCard>, player: Player, turnup: Turnup) -> bool {
    let dealt = classes_of(held + own_plays(plays, player), turnup);
    &&& hand.len() == 3
    &&& ascending(hand)
    &&& hand.to_multiset() == dealt.to_multiset()
}

fn sort_three(a: u8, b: u8, c: u8) -> (r: Vec<u8>)
    ensures
        r@.len() == 3,
        ascending(r@),
        r@.to_multiset() == seq![a, b, c].to_multiset(),
{
    broadcast use vstd::seq_lib::group_to_multiset_ensures;
    let (x, y) = if a <= b { (a, b) } else { (b, a) };
    let (y, z) = if y <= c { (y, c) } else { (c, y) };
    let (x, y) = if x <= y { (x, y) } else { (y, x) };
    let mut r: Vec<u8> = Vec::new();
    r.push(x);
    r.push(y);
    r.push(z);
    proof {
        let e = Seq::<u8>::empty();
        assert(seq![a, b, c] == e.push(a).push(b).push(c));
        assert(r@ == e.push(x).push(y).push(z));
        assert(r@.to_multiset() =~= seq![a, b, c].to_multiset());
    }
    r
}

/// The bot's dealt hand as ascending classes: its held cards plus the cards
/// it has played; `None` unless they come to three.
pub fn starting_abstract_hand(
    plays: &Vec<PlayedCard>,
    player: Player,
    remaining: &Vec<Card>,
    turnup: &Turnup,
) -> (r: Option<Vec<u8>>)
    ensures
        match r {
            Some(hand) => is_starting_hand(hand@, remaining@, plays@, player, *turnup),
            None => remaining@.len() + own_plays(plays@, player).len() != 3,
        },
{
    let mut classes: Vec<u8> = Vec::new();
    let mut i: usize = 0;
    while i < remaining.len()
        invariant
            i <= remaining@.len(),
            classes@ == classes_of(remaining@.take(i as int), *turnup),
        decreases remaining.len() - i,
    {
        classes.push(abstract_card(&remaining[i], turnup));
        i = i + 1;
        assert(classes@ =~= classes_of(remaining@.take(i as int), *turnup));
    }
    assert(remaining@.take(remaining@.len() as int) == remaining@);
    let mut j: usize = 0;
    while j < plays.len()
        invariant
            j <= plays@.len(),
            classes@ == classes_of(remaining@ + own_plays(plays@.take(j as int), player), *turnup),
        decreases plays.len() - j,
    {
        assert(plays@.take(j + 1).drop_last() == plays@.take(j as int));
        if plays[j].player == player {
            classes.push(abstract_card(&plays[j].card, turnup));
        }
        j = j + 1;
        assert(classes@ =~= classes_of(remaining@ + own_plays(plays@.take(j as int), player), *turnup));
    }
    assert(plays@.take(plays@.len() as int) == plays@);
    if classes.len() != 3 {
        return None;
    }
    let hand = sort_three(classes[0], classes[1], classes[2]);
    assert(classes@ == seq![classes@[0], classes@[1], classes@[2]]);
    Some(hand)
}

/// The concrete action a stored abstract action stands for now: a play takes
/// the first held card of its class; the hidden-play marker stands for none.
pub open spec fn concrete_of(abs: AbstractAction, remaining: Seq<Card>, turnup: Turnup) -> Option<Action> {
    match abs {
        AbstractAction::PlayFaceUp(c) => match first_of_class(remaining, turnup, c) {
            Some(k) => Some(Action::PlayFaceUp { card_id: remaining[k].id }),
            None => None,
        },
        AbstractAction::PlayFaceDown(c) => match first_of_class(remaining, turnup, c) {
            Some(k) => Some(Action::PlayFaceDown { card_id: remaining[k].id }),
            None => None,
        },
        AbstractAction::Raise(to) => Some(Action::Raise { to }),
        AbstractAction::AcceptRaise => Some(Action::AcceptRaise),
        AbstractAction::Fold => Some(Action::Fold),
        AbstractAction::AcceptEleven => Some(Action::AcceptEleven),
        AbstractAction::FoldEleven => Some(Action::FoldEleven),
        AbstractAction::OpponentPlayedHidden => None,
    }
}

/// A stored action that is playable now: its position in the stored entry
/// and the concrete action.
#[derive(Debug, Clone, PartialEq, Eq)]
pub struct PolicyChoice {
    pub entry: usize,
    pub action: Action,
}

/// The playable stored actions among the first `n`, in stored order.
pub open spec fn playable_upto(
    entries: Seq<AbstractAction>,
    remaining: Seq<Card>,
    turnup: Turnup,
    legal: Seq<Action>,
    n: int,
) -> Seq<(int, Action)>
    decreases n,
{
    if n <= 0 {
        Seq::empty()
    } else {
        let prev = playable_upto(entries, remaining, turnup, legal, n - 1);
        match concrete_of(entries[n - 1], remaining, turnup) {
            Some(a) => if is_legal(a, legal) {
                prev.push((n - 1, a))
            } else {
                prev
            },
            None => prev,
        }
    }
}

proof fn lemma_playable_legal(
    entries: Seq<AbstractAction>,
    remaining: Seq<Card>,
    turnup: Turnup,
    legal: Seq<Action>,
    n: int,
)
    requires
        0 <= n,
    ensures
        forall|i: int|
            0 <= i < playable_upto(entries, remaining, turnup, legal, n).len() ==> {
                let c = #[trigger] playable_upto(entries, remaining, turnup, legal, n)[i];
                0 <= c.0 < n && is_legal(c.1, legal)
            },
    decreases n,
{
    if n > 0 {
        lemma_playable_legal(entries, remaining, turnup, legal, n - 1);
        let prev = playable_upto(entries, remaining, turnup, legal, n - 1);
        let cur = playable_upto(entries, remaining, turnup, legal, n);
        assert forall|i: int| 0 <= i < cur.len() implies {
            let c = #[trigger] cur[i];
            0 <= c.0 < n && is_legal(c.1, legal)
        } by {
            if i < prev.len() {
                match concrete_of(entries[n - 1], remaining, turnup) {
                    Some(a) => if is_legal(a, legal) {
                        assert(cur[i] == prev[i]);
                    } else {
                        assert(cur == prev);
                    },
                    None => assert(cur == prev),
                }
            }
        }
    }
}

/// The stored actions that are playable now, each as a concrete legal action
/// with its position in the entry; duplicate cards of a class are
/// interchangeable, so the first held one carries the class.
pub fn concrete_choices(
    entries: &Vec<AbstractAction>,
    remaining: &Vec<Card>,
    turnup: &Turnup,
    legal_actions: &Vec<Action>,
) -> (r: Vec<PolicyChoice>)
    ensures
        r@.len() == playable_upto(entries@, remaining@, *turnup, legal_actions@, entries@.len() as int).len(),
        forall|i: int|
            0 <= i < r@.len() ==> ((#[trigger] r@[i]).entry as int, r@[i].action) == playable_upto(
                entries@,
                remaining@,
                *turnup,
                legal_actions@,
                entries@.len() as int,
            )[i],
        forall|i: int|
            0 <= i < r@.len() ==> (#[trigger] r@[i]).entry < entries@.len() && is_legal(
                r@[i].action,
                legal_actions@,
            ),
{
    proof {
        lemma_playable_legal(entries@, remaining@, *turnup, legal_actions@, entries@.len() as int);
    }
    let mut out: Vec<PolicyChoice> = Vec::new();
    let mut n: usize = 0;
    while n < entries.len()
        invariant
            n <= entries@.len(),
            out@.len() == playable_upto(entries@, remaining@, *turnup, legal_actions@, n as int).len(),
            forall|i: int|
                0 <= i < out@.len() ==> ((#[trigger] out@[i]).entry as int, out@[i].action) == playable_upto(
                    entries@,
                    remaining@,
                    *turnup,
                    legal_actions@,
                    n as int,
                )[i],
        decreases entries.len() - n,
    {
        let abs = entries[n];
        let candidate: Option<Action> = match abs {
            AbstractAction::PlayFaceUp(c) => match find_class_card(remaining, turnup, c) {
                Some(k) => Some(Action::PlayFaceUp { card_id: remaining[k].id.clone() }),
                None => None,
            },
            AbstractAction::PlayFaceDown(c) => match find_class_card(remaining, turnup, c) {
                Some(k) => Some(Action::PlayFaceDown { card_id: remaining[k].id.clone() }),
                None => None,
            },
            AbstractAction::Raise(to) => Some(Action::Raise { to }),
            AbstractAction::AcceptRaise => Some(Action::AcceptRaise),
            AbstractAction::Fold => Some(Action::Fold),
            AbstractAction::AcceptEleven => Some(Action::AcceptEleven),
            AbstractAction::FoldEleven => Some(Action::FoldEleven),
            AbstractAction::OpponentPlayedHidden => None,
        };
        assert(candidate == concrete_of(entries@[n as int], remaining@, *turnup));
        if let Some(action) = candidate {
            if contains_action(legal_actions, &action) {
                out.push(PolicyChoice { entry: n, action });
            }
        }
        n = n + 1;
    }
    out
}


/// How the solver reads a concrete action back, given the card it plays.
pub open spec fn read_back(a: Action, card: Option<Card>, turnup: Turnup) -> Option<AbstractAction> {
    observed_abstract((ObservedAction { player: 0, action: a, card }), turnup)
}

/// A stored abstract action is a card play.
pub open spec fn is_stored_play(abs: AbstractAction) -> bool {
    abs is PlayFaceUp || abs is PlayFaceDown
}

proof fn lemma_concrete_reads_back(abs: AbstractAction, remaining: Seq<Card>, turnup: Turnup)
    ensures
        concrete_of(abs, remaining, turnup) is Some && !is_stored_play(abs) ==> read_back(
            concrete_of(abs, remaining, turnup)->0,
            None,
            turnup,
        ) == Some(abs),
        concrete_of(abs, remaining, turnup) is Some && is_stored_play(abs) ==> exists|k: int|
            0 <= k < remaining.len() && read_back(concrete_of(abs, remaining, turnup)->0, Some(remaining[k]), turnup)
                == Some(abs) && (concrete_of(abs, remaining, turnup)->0 == (Action::PlayFaceUp {
                card_id: remaining[k].id,
            }) || concrete_of(abs, remaining, turnup)->0 == (Action::PlayFaceDown { card_id: remaining[k].id })),
{
    match abs {
        AbstractAction::PlayFaceUp(c) => {
            crate::seed::lemma_first_of_class_found(remaining, turnup, c);
        },
        AbstractAction::PlayFaceDown(c) => {
            crate::seed::lemma_first_of_class_found(remaining, turnup, c);
        },
        _ => {},
    }
}

proof fn lemma_playable_sources(
    entries: Seq<AbstractAction>,
    remaining: Seq<Card>,
    turnup: Turnup,
    legal: Seq<Action>,
    n: int,
)
    requires
        0 <= n <= entries.len(),
    ensures
        forall|i: int|
            0 <= i < playable_upto(entries, remaining, turnup, legal, n).len() ==> {
                let c = #[trigger] playable_upto(entries, remaining, turnup, legal, n)[i];
                0 <= c.0 < n && concrete_of(entries[c.0], remaining, turnup) == Some(c.1)
            },
        forall|e: int|
            0 <= e < n && concrete_of(entries[e], remaining, turnup) is Some && is_legal(
                concrete_of(entries[e], remaining, turnup)->0,
                legal,
            ) ==> exists|i: int|
                0 <= i < playable_upto(entries, remaining, turnup, legal, n).len() && #[trigger] playable_upto(
                    entries,
                    remaining,
                    turnup,
                    legal,
                    n,
                )[i] == (e, concrete_of(entries[e], remaining, turnup)->0),
    decreases n,
{
    if n > 0 {
        lemma_playable_sources(entries, remaining, turnup, legal, n - 1);
        let prev = playable_upto(entries, remaining, turnup, legal, n - 1);
        let cur = playable_upto(entries, remaining, turnup, legal, n);
        assert forall|i: int| 0 <= i < prev.len() implies cur[i] == prev[i] by {}
        assert forall|i: int| 0 <= i < cur.len() implies {
            let c = #[trigger] cur[i];
            0 <= c.0 < n && concrete_of(entries[c.0], remaining, turnup) == Some(c.1)
        } by {
            if i < prev.len() {
                assert(cur[i] == prev[i]);
            }
        }
        assert forall|e: int|
            0 <= e < n && concrete_of(entries[e], remaining, turnup) is Some && is_legal(
                concrete_of(entries[e], remaining, turnup)->0,
                legal,
            ) implies exists|i: int|
                0 <= i < cur.len() && #[trigger] playable_upto(entries, remaining, turnup, legal, n)[i] == (
                    e,
                    concrete_of(entries[e], remaining, turnup)->0,
                ) by {
            if e < n - 1 {
                let i = choose|i: int|
                    0 <= i < prev.len() && #[trigger] playable_upto(entries, remaining, turnup, legal, n - 1)[i] == (
                        e,
                        concrete_of(entries[e], remaining, turnup)->0,
                    );
                assert(cur[i] == prev[i]);
            } else {
                assert(cur[prev.len() as int] == (e, concrete_of(entries[e], remaining, turnup)->0));
            }
        }
    }
}

/// The stored strategy is followed: every choice `concrete_choices` offers,
/// read back in the solver's terms, is the stored action at its entry. A
/// stored non-play action becomes the engine action of the same kind; a stored
/// play becomes a play, face up or down as stored, of a held card of the
/// stored class. And every stored non-play action whose engine action is legal
/// is offered, at its entry.
pub proof fn lemma_choices_follow_the_stored_actions(
    entries: Seq<AbstractAction>,
    remaining: Seq<Card>,
    turnup: Turnup,
    legal: Seq<Action>,
)
    ensures
        ({
            let p = playable_upto(entries, remaining, turnup, legal, entries.len() as int);
            &&& forall|i: int|
                0 <= i < p.len() ==> 0 <= (#[trigger] p[i]).0 < entries.len() && is_legal(p[i].1, legal)
            &&& forall|i: int|
                0 <= i < p.len() && !is_stored_play(entries[(#[trigger] p[i]).0]) ==> read_back(p[i].1, None, turnup)
                    == Some(entries[p[i].0])
            &&& forall|i: int|
                0 <= i < p.len() && is_stored_play(entries[(#[trigger] p[i]).0]) ==> exists|k: int|
                    0 <= k < remaining.len() && read_back(p[i].1, Some(remaining[k]), turnup) == Some(entries[p[i].0])
                        && (p[i].1 == (Action::PlayFaceUp { card_id: remaining[k].id }) || p[i].1 == (
                    Action::PlayFaceDown { card_id: remaining[k].id }))
            &&& forall|e: int, j: int|
                0 <= e < entries.len() && 0 <= j < legal.len() && !is_stored_play(entries[e])
                    && #[trigger] read_back(legal[j], None, turnup) == Some(#[trigger] entries[e]) ==> exists|i: int|
                    0 <= i < p.len() && p[i].0 == e && (#[trigger] p[i]).1 == legal[j]
        }),
{
    let n = entries.len() as int;
    let p = playable_upto(entries, remaining, turnup, legal, n);
    lemma_playable_sources(entries, remaining, turnup, legal, n);
    lemma_playable_legal(entries, remaining, turnup, legal, n);
    assert forall|i: int|
        0 <= i < p.len() && !is_stored_play(entries[(#[trigger] p[i]).0]) implies read_back(p[i].1, None, turnup)
            == Some(entries[p[i].0]) by {
        lemma_concrete_reads_back(entries[p[i].0], remaining, turnup);
    }
    assert forall|i: int|
        0 <= i < p.len() && is_stored_play(entries[(#[trigger] p[i]).0]) implies exists|k: int|
            0 <= k < remaining.len() && read_back(p[i].1, Some(remaining[k]), turnup) == Some(entries[p[i].0])
                && (p[i].1 == (Action::PlayFaceUp { card_id: remaining[k].id }) || p[i].1 == (
            Action::PlayFaceDown { card_id: remaining[k].id })) by {
        lemma_concrete_reads_back(entries[p[i].0], remaining, turnup);
    }
    assert forall|e: int, j: int|
        0 <= e < entries.len() && 0 <= j < legal.len() && !is_stored_play(entries[e])
            && #[trigger] read_back(legal[j], None, turnup) == Some(#[trigger] entries[e]) implies exists|i: int|
            0 <= i < p.len() && p[i].0 == e && (#[trigger] p[i]).1 == legal[j] by {
        let x = concrete_of(entries[e], remaining, turnup);
        assert(x == Some(legal[j]));
        assert(is_legal(legal[j], legal));
        let i = choose|i: int|
            0 <= i < p.len() && #[trigger] playable_upto(entries, remaining, turnup, legal, n)[i] == (e, x->0);
        assert(p[i].0 == e);
    }
}

/// The generator seed of a solver bot: the given seed, or a fixed default,
/// offset by a fixed constant (wrapping).
pub open spec fn solver_seed(seed: Option<u64>) -> u64 {
    let base: u64 = match seed {
        Some(s) => s,
        None => 0x501B_EB07_0000,
    };
    vstd::wrapping::u64_specs::wrapping_add(base, 0x501B_EB07)
}

/// The solved-policy bot: the shared profiles, its own random source for
/// sampling the stored strategy, and the heuristic bot it falls back on.
#[derive(Debug)]
pub struct SolverPolicyBot<P> {
    store: Arc<PolicyStore<P>>,
    rng: StdRng,
    fallback: HeuristicBot,
}

impl<P> SolverPolicyBot<P> {
    pub closed spec fn spec_store(&self) -> Arc<PolicyStore<P>> {
        self.store
    }

    pub closed spec fn fallback_profile(&self) -> BotProfile {
        self.fallback.profile()
    }

    /// The generator of the heuristic bot the solver bot falls back on.
    pub closed spec fn fallback_generator(&self) -> StdRng {
        self.fallback.generator()
    }

    /// A bot over `store`: its generator is seeded with `solver_seed(seed)`
    /// and its balanced fallback's with the next value (wrapping).
    pub fn new(store: Arc<PolicyStore<P>>, seed: Option<u64>) -> (r: Self)
        ensures
            r.spec_store() == store,
            r.fallback_profile() == BotProfile::Balanced,
            r.generator() == seeded_u64_std_rng(solver_seed(seed)),
            r.fallback_generator() == seeded_u64_std_rng(
                vstd::wrapping::u64_specs::wrapping_add(solver_seed(seed), 1),
            ),
    {
        let base: u64 = match seed {
            Some(s) => s,
            None => 0x501B_EB07_0000,
        };
        let rng_seed = base.wrapping_add(0x501B_EB07);
        assert(rng_seed == solver_seed(seed));
        SolverPolicyBot {
            store,
            rng: std_rng_seed_from_u64(rng_seed),
            fallback: HeuristicBot::new(
                std_rng_seed_from_u64(rng_seed.wrapping_add(1)),
                BotProfile::Balanced,
            ),
        }
    }

    /// The shared profiles.
    pub fn store(&self) -> (r: &Arc<PolicyStore<P>>)
        ensures
            *r == self.spec_store(),
    {
        &self.store
    }

    /// The generator the stored strategy is sampled with.
    pub closed spec fn generator(&self) -> StdRng {
        self.rng
    }

    /// The generator the stored strategy is sampled with: a reference to the
    /// bot's own generator, whatever is done through it being what the bot
    /// keeps; the store and the fallback stay as they were.
    pub fn rng_mut(&mut self) -> (r: &mut StdRng)
        ensures
            *r == old(self).generator(),
            final(self).generator() == *final(r),
            final(self).spec_store() == old(self).spec_store(),
            final(self).fallback_profile() == old(self).fallback_profile(),
            final(self).fallback_generator() == old(self).fallback_generator(),
    {
        &mut self.rng
    }

    /// The heuristic bot that answers when the profiles cannot.
    pub fn fallback_mut(&mut self) -> (r: &mut HeuristicBot)
        ensures
            final(self).spec_store() == old(self).spec_store(),
            r.profile() == old(self).fallback_profile(),
            r.generator() == old(self).fallback_generator(),
            final(self).fallback_profile() == final(r).profile(),
            final(self).fallback_generator() == final(r).generator(),
            final(self).generator() == old(self).generator(),
    {
        &mut self.fallback
    }
}

/// The explanation of a fallback decision.
pub open spec fn fallback_reasoning(miss: PolicyMiss, reasoning: Option<String>) -> Seq<char> {
    "solver fallback ("@ + miss_label(miss) + "); "@ + match reasoning {
        Some(text) => text@,
        None => "heuristic"@,
    }
}

/// Marks a fallback decision: the same action and choices, with the miss
/// that caused it in front of the fallback's own explanation.
pub fn with_fallback_note(decision: BotDecision, miss: &PolicyMiss) -> (r: BotDecision)
    ensures
        r.action == decision.action,
        r.plan.choices == decision.plan.choices,
        r.plan.reasoning matches Some(text) && text@ == fallback_reasoning(*miss, decision.plan.reasoning),
{
    let BotDecision { action, plan } = decision;
    let mut text = String::from_str("solver fallback (");
    let label = miss.label();
    text.append(label.as_str());
    text.append("); ");
    match &plan.reasoning {
        Some(r) => text.append(r.as_str()),
        None => text.append("heuristic"),
    }
    BotDecision {
        action,
        plan: crate::bot::BotPlan { choices: plan.choices, reasoning: Some(text) },
    }
}

} // verus!
