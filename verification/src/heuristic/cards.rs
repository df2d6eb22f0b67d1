//! Card strength under a turnup and the per-card play options of a turn.
use crate::bot::BotTurn;
use crate::engine::{
    is_manilha_rank, rank_index, suit_strength, Action, Card, Player, PublicCard, PublicPlay, Rank,
    Suit, Turnup,
};
use vstd::prelude::*;

verus! {

/// Strength of a card: manilhas rank 10 (diamonds) to 13 (clubs), every other
/// card its ladder position 0 (four) to 9 (three).
pub open spec fn strength_of(rank: Rank, suit: Suit, turnup: Turnup) -> nat {
    if is_manilha_rank(rank, turnup) {
        10 + suit_strength(suit)
    } else {
        rank_index(rank)
    }
}

/// Card order under a turnup: every manilha beats every other card, the
/// manilhas rank by suit (diamonds, spades, hearts, clubs), and other cards
/// rank by the ladder, suits tying.
pub proof fn lemma_card_order(turnup: Turnup, r1: Rank, s1: Suit, r2: Rank, s2: Suit)
    ensures
        is_manilha_rank(r1, turnup) && !is_manilha_rank(r2, turnup) ==> strength_of(r1, s1, turnup)
            > strength_of(r2, s2, turnup),
        is_manilha_rank(r1, turnup) && is_manilha_rank(r2, turnup) ==> (strength_of(r1, s1, turnup)
            < strength_of(r2, s2, turnup) <==> suit_strength(s1) < suit_strength(s2)),
        !is_manilha_rank(r1, turnup) && !is_manilha_rank(r2, turnup) ==> (strength_of(r1, s1, turnup)
            == strength_of(r2, s2, turnup) <==> r1 == r2),
{
}

fn strength_value(rank: Rank, suit: Suit, turnup: &Turnup) -> (r: u8)
    ensures
        r as nat == strength_of(rank, suit, *turnup),
        r <= 13,
{
    if rank == turnup.rank.next_for_manilha() {
        10 + suit.manilha_strength()
    } else {
        rank.index()
    }
}

/// Strength of a card in hand.
pub fn card_strength(card: &Card, turnup: &Turnup) -> (r: u8)
    ensures
        r as nat == strength_of(card.rank, card.suit, *turnup),
        r <= 13,
{
    strength_value(card.rank, card.suit, turnup)
}

/// Strength of a card shown on the table.
pub fn public_card_strength(card: &PublicCard, turnup: &Turnup) -> (r: u8)
    ensures
        r as nat == strength_of(card.rank, card.suit, *turnup),
        r <= 13,
{
    strength_value(card.rank, card.suit, turnup)
}

/// Strengths of a hand, card by card.
pub open spec fn strengths_of(cards: Seq<Card>, turnup: Turnup) -> Seq<u8> {
    cards.map_values(|c: Card| strength_of(c.rank, c.suit, turnup) as u8)
}

/// The strength of every card of a hand, in hand order.
pub fn card_strengths(cards: &Vec<Card>, turnup: &Turnup) -> (r: Vec<u8>)
    ensures
        r@ == strengths_of(cards@, *turnup),
{
    let mut out: Vec<u8> = Vec::new();
    let mut i: usize = 0;
    while i < cards.len()
        invariant
            i <= cards.len(),
            out@ == strengths_of(cards@.take(i as int), *turnup),
        decreases cards.len() - i,
    {
        let s = card_strength(&cards[i], turnup);
        out.push(s);
        i = i + 1;
        assert(cards@.take(i as int) == cards@.take(i - 1).push(cards@[i - 1]));
    }
    assert(cards@.take(cards.len() as int) == cards@);
    out
}

/// The strongest card of all: the clubs manilha.
pub open spec fn is_top_manilha(card: Card, turnup: Turnup) -> bool {
    is_manilha_rank(card.rank, turnup) && card.suit == Suit::Clubs
}

/// Whether the card is the clubs manilha, the strongest card of the deck.
pub fn is_highest_manilha_clubs(card: &Card, turnup: &Turnup) -> (r: bool)
    ensures
        r == is_top_manilha(*card, *turnup),
{
    card.is_manilha(turnup) && card.suit == Suit::Clubs
}

/// Number of manilhas in a hand.
pub open spec fn manilha_count(cards: Seq<Card>, turnup: Turnup) -> nat
    decreases cards.len(),
{
    if cards.len() == 0 {
        0
    } else {
        manilha_count(cards.drop_last(), turnup) + if is_manilha_rank(
            cards.last().rank,
            turnup,
        ) {
            1nat
        } else {
            0nat
        }
    }
}

/// Counts the manilhas of a hand.
pub fn count_manilhas(cards: &Vec<Card>, turnup: &Turnup) -> (r: usize)
    ensures
        r as nat == manilha_count(cards@, *turnup),
        r <= cards@.len(),
{
    let mut n: usize = 0;
    let mut i: usize = 0;
    while i < cards.len()
        invariant
            i <= cards.len(),
            n as nat == manilha_count(cards@.take(i as int), *turnup),
            n <= i,
        decreases cards.len() - i,
    {
        assert(cards@.take(i + 1).drop_last() == cards@.take(i as int));
        if cards[i].is_manilha(turnup) {
            n = n + 1;
        }
        i = i + 1;
    }
    assert(cards@.take(cards.len() as int) == cards@);
    n
}

/// Largest value of a list of strengths, 0 for an empty list.
pub open spec fn max_strength(s: Seq<u8>) -> u8
    decreases s.len(),
{
    if s.len() == 0 {
        0
    } else {
        let rest = max_strength(s.drop_last());
        if s.last() > rest {
            s.last()
        } else {
            rest
        }
    }
}

pub proof fn lemma_max_strength_bounds(s: Seq<u8>)
    ensures
        forall|i: int| 0 <= i < s.len() ==> s[i] <= max_strength(s),
        s.len() > 0 ==> exists|i: int| 0 <= i < s.len() && s[i] == max_strength(s),
    decreases s.len(),
{
    if s.len() > 0 {
        lemma_max_strength_bounds(s.drop_last());
        assert forall|i: int| 0 <= i < s.len() implies s[i] <= max_strength(s) by {
            if i < s.len() - 1 {
                assert(s[i] == s.drop_last()[i]);
            }
        }
        if s.len() > 1 && s.last() <= max_strength(s.drop_last()) {
            let i = choose|i: int| 0 <= i < s.drop_last().len() && s.drop_last()[i] == max_strength(s.drop_last());
            assert(s[i] == s.drop_last()[i]);
        } else {
            assert(s[s.len() - 1] == max_strength(s));
        }
    }
}

/// The largest strength of a list, 0 when the list is empty.
pub fn top_strength(s: &Vec<u8>) -> (r: u8)
    ensures
        r == max_strength(s@),
{
    let mut best: u8 = 0;
    let mut i: usize = 0;
    while i < s.len()
        invariant
            i <= s.len(),
            best == max_strength(s@.take(i as int)),
        decreases s.len() - i,
    {
        assert(s@.take(i + 1).drop_last() == s@.take(i as int));
        if s[i] > best {
            best = s[i];
        }
        i = i + 1;
    }
    assert(s@.take(s.len() as int) == s@);
    best
}

/// Number of strengths at or above `floor`.
pub open spec fn count_at_least(s: Seq<u8>, floor: u8) -> nat
    decreases s.len(),
{
    if s.len() == 0 {
        0
    } else {
        count_at_least(s.drop_last(), floor) + if s.last() >= floor {
            1nat
        } else {
            0nat
        }
    }
}

/// Counts the strengths at or above `floor`.
pub fn strengths_at_least(s: &Vec<u8>, floor: u8) -> (r: usize)
    ensures
        r as nat == count_at_least(s@, floor),
        r <= s@.len(),
{
    let mut n: usize = 0;
    let mut i: usize = 0;
    while i < s.len()
        invariant
            i <= s.len(),
            n as nat == count_at_least(s@.take(i as int), floor),
            n <= i,
        decreases s.len() - i,
    {
        assert(s@.take(i + 1).drop_last() == s@.take(i as int));
        if s[i] >= floor {
            n = n + 1;
        }
        i = i + 1;
    }
    assert(s@.take(s.len() as int) == s@);
    n
}

/// Sum of a list of strengths.
pub open spec fn strength_sum(s: Seq<u8>) -> nat
    decreases s.len(),
{
    if s.len() == 0 {
        0
    } else {
        strength_sum(s.drop_last()) + s.last() as nat
    }
}

/// Adds up a list of card strengths (each at most 13).
pub fn sum_strengths(s: &Vec<u8>) -> (r: u128)
    requires
        forall|i: int| 0 <= i < s@.len() ==> s@[i] <= 13,
    ensures
        r as nat == strength_sum(s@),
        r <= 13 * s@.len(),
{
    let mut total: u128 = 0;
    let mut i: usize = 0;
    while i < s.len()
        invariant
            i <= s.len(),
            forall|j: int| 0 <= j < s@.len() ==> s@[j] <= 13,
            total as nat == strength_sum(s@.take(i as int)),
            total <= 13 * i,
        decreases s.len() - i,
    {
        assert(s@.take(i + 1).drop_last() == s@.take(i as int));
        total = total + s[i] as u128;
        i = i + 1;
    }
    assert(s@.take(s.len() as int) == s@);
    total
}

pub proof fn lemma_strengths_bounded(cards: Seq<Card>, turnup: Turnup)
    ensures
        forall|i: int| 0 <= i < cards.len() ==> strengths_of(cards, turnup)[i] <= 13,
        strengths_of(cards, turnup).len() == cards.len(),
{
    assert forall|i: int| 0 <= i < cards.len() implies strengths_of(cards, turnup)[i] <= 13 by {
        let c = cards[i];
        assert(strength_of(c.rank, c.suit, turnup) <= 13);
    }
}

/// The first legal face-up play of the card `id`, if any.
pub open spec fn find_play(legal: Seq<Action>, id: Seq<char>, face_up: bool) -> Option<Action>
    decreases legal.len(),
{
    if legal.len() == 0 {
        None
    } else if is_play_of(legal[0], id, face_up) {
        Some(legal[0])
    } else {
        find_play(legal.drop_first(), id, face_up)
    }
}

/// Whether `a` plays the card `id` face up (or face down when `face_up` is false).
pub open spec fn is_play_of(a: Action, id: Seq<char>, face_up: bool) -> bool {
    match a {
        Action::PlayFaceUp { card_id } => face_up && card_id@ == id,
        Action::PlayFaceDown { card_id } => !face_up && card_id@ == id,
        _ => false,
    }
}

pub proof fn lemma_find_play_in(legal: Seq<Action>, id: Seq<char>, face_up: bool)
    ensures
        find_play(legal, id, face_up) matches Some(a) ==> legal.contains(a) && is_play_of(
            a,
            id,
            face_up,
        ),
    decreases legal.len(),
{
    if legal.len() > 0 && !is_play_of(legal[0], id, face_up) {
        lemma_find_play_in(legal.drop_first(), id, face_up);
        if find_play(legal, id, face_up) is Some {
            let a = find_play(legal, id, face_up)->0;
            let k = choose|k: int| 0 <= k < legal.drop_first().len() && legal.drop_first()[k] == a;
            assert(legal[k + 1] == a);
        }
    }
}

fn matches_play(a: &Action, id: &String, face_up: bool) -> (r: bool)
    ensures
        r == is_play_of(*a, id@, face_up),
{
    match a {
        Action::PlayFaceUp { card_id } => face_up && card_id.eq(id),
        Action::PlayFaceDown { card_id } => !face_up && card_id.eq(id),
        _ => false,
    }
}

/// The first legal play of the card `id` face up (`face_up`) or face down.
pub fn find_card_play(legal: &Vec<Action>, id: &String, face_up: bool) -> (r: Option<Action>)
    ensures
        r == find_play(legal@, id@, face_up),
{
    let mut i: usize = 0;
    assert(legal@.skip(0) == legal@);
    while i < legal.len()
        invariant
            i <= legal.len(),
            find_play(legal@, id@, face_up) == find_play(legal@.skip(i as int), id@, face_up),
        decreases legal.len() - i,
    {
        assert(legal@.skip(i as int).drop_first() == legal@.skip(i + 1));
        assert(legal@.skip(i as int)[0] == legal@[i as int]);
        if matches_play(&legal[i], id, face_up) {
            return Some(legal[i].clone());
        }
        i = i + 1;
    }
    None
}

/// A card of the hand that can be played, with its face-up and face-down options.
#[derive(Debug)]
pub struct CandidateAction {
    pub card: Card,
    pub strength: u8,
    pub up: Option<Action>,
    pub down: Option<Action>,
}

/// The candidate for `card`, or `None` when it has no legal play.
pub open spec fn candidate_for(card: Card, legal: Seq<Action>, turnup: Turnup) -> Option<
    CandidateAction,
> {
    let up = find_play(legal, card.id@, true);
    let down = find_play(legal, card.id@, false);
    if up is None && down is None {
        None
    } else {
        Some(
            CandidateAction {
                card,
                strength: strength_of(card.rank, card.suit, turnup) as u8,
                up,
                down,
            },
        )
    }
}

/// The playable cards of a hand, in hand order.
pub open spec fn candidates_of(hand: Seq<Card>, legal: Seq<Action>, turnup: Turnup) -> Seq<
    CandidateAction,
>
    decreases hand.len(),
{
    if hand.len() == 0 {
        Seq::empty()
    } else {
        let rest = candidates_of(hand.drop_last(), legal, turnup);
        match candidate_for(hand.last(), legal, turnup) {
            Some(c) => rest.push(c),
            None => rest,
        }
    }
}

/// Candidates of the turn: none without a hand view.
pub open spec fn turn_candidates(turn: BotTurn, turnup: Turnup) -> Seq<CandidateAction> {
    match turn.view.hand {
        Some(h) => candidates_of(h.hand@, turn.legal_actions@, turnup),
        None => Seq::empty(),
    }
}

/// Every candidate has a legal play, and its options are legal plays of its card.
pub open spec fn candidates_well_formed(cands: Seq<CandidateAction>, legal: Seq<Action>) -> bool {
    forall|i: int|
        #![trigger cands[i]]
        0 <= i < cands.len() ==> {
            &&& cands[i].strength <= 13
            &&& (cands[i].up is Some || cands[i].down is Some)
            &&& (cands[i].up matches Some(a) ==> legal.contains(a) && is_play_of(
                a,
                cands[i].card.id@,
                true,
            ))
            &&& (cands[i].down matches Some(a) ==> legal.contains(a) && is_play_of(
                a,
                cands[i].card.id@,
                false,
            ))
        }
}

pub proof fn lemma_candidates_well_formed(hand: Seq<Card>, legal: Seq<Action>, turnup: Turnup)
    ensures
        candidates_well_formed(candidates_of(hand, legal, turnup), legal),
        candidates_of(hand, legal, turnup).len() <= hand.len(),
    decreases hand.len(),
{
    if hand.len() > 0 {
        lemma_candidates_well_formed(hand.drop_last(), legal, turnup);
        let c = hand.last();
        lemma_find_play_in(legal, c.id@, true);
        lemma_find_play_in(legal, c.id@, false);
        assert(strength_of(c.rank, c.suit, turnup) <= 13);
    }
}

fn candidate(card: &Card, legal: &Vec<Action>, turnup: &Turnup) -> (r: Option<CandidateAction>)
    ensures
        r == candidate_for(*card, legal@, *turnup),
{
    let up = find_card_play(legal, &card.id, true);
    let down = find_card_play(legal, &card.id, false);
    if up.is_none() && down.is_none() {
        return None;
    }
    Some(CandidateAction { card: card.clone(), strength: card_strength(card, turnup), up, down })
}

/// The playable cards of the hand in hand order, each with the first legal
/// face-up and face-down plays of that card.
pub fn collect_candidates(turn: &BotTurn, turnup: &Turnup) -> (r: Vec<CandidateAction>)
    ensures
        r@ == turn_candidates(*turn, *turnup),
        candidates_well_formed(r@, turn.legal_actions@),
{
    let hand = match &turn.view.hand {
        Some(h) => h,
        None => {
            return Vec::new();
        },
    };
    let mut out: Vec<CandidateAction> = Vec::new();
    let mut i: usize = 0;
    while i < hand.hand.len()
        invariant
            i <= hand.hand.len(),
            out@ == candidates_of(hand.hand@.take(i as int), turn.legal_actions@, *turnup),
        decreases hand.hand.len() - i,
    {
        assert(hand.hand@.take(i + 1).drop_last() == hand.hand@.take(i as int));
        if let Some(c) = candidate(&hand.hand[i], &turn.legal_actions, turnup) {
            out.push(c);
        }
        i = i + 1;
    }
    assert(hand.hand@.take(hand.hand.len() as int) == hand.hand@);
    proof {
        lemma_candidates_well_formed(hand.hand@, turn.legal_actions@, *turnup);
    }
    out
}

/// The card of the first play by another seat (`None` when that play is face down).
pub open spec fn first_play_card(plays: Seq<PublicPlay>, player: Player, other: bool) -> Option<
    PublicCard,
>
    decreases plays.len(),
{
    if plays.len() == 0 {
        None
    } else if (plays[0].player != player) == other {
        plays[0].card
    } else {
        first_play_card(plays.drop_first(), player, other)
    }
}

fn first_play(plays: &Vec<PublicPlay>, player: Player, other: bool) -> (r: Option<PublicCard>)
    ensures
        r == first_play_card(plays@, player, other),
{
    let mut i: usize = 0;
    assert(plays@.skip(0) == plays@);
    while i < plays.len()
        invariant
            i <= plays.len(),
            first_play_card(plays@, player, other) == first_play_card(
                plays@.skip(i as int),
                player,
                other,
            ),
        decreases plays.len() - i,
    {
        assert(plays@.skip(i as int).drop_first() == plays@.skip(i + 1));
        assert(plays@.skip(i as int)[0] == plays@[i as int]);
        if (plays[i].player != player) == other {
            return plays[i].card;
        }
        i = i + 1;
    }
    None
}

/// The card the opponent showed in the current round, if their first play was face up.
pub fn visible_opponent_play(plays: &Vec<PublicPlay>, player: Player) -> (r: Option<PublicCard>)
    ensures
        r == first_play_card(plays@, player, true),
{
    first_play(plays, player, true)
}

/// The card this seat showed in the current round, if its first play was face up.
pub fn visible_self_play(plays: &Vec<PublicPlay>, player: Player) -> (r: Option<PublicCard>)
    ensures
        r == first_play_card(plays@, player, false),
{
    first_play(plays, player, false)
}

/// Strength of the card this seat already showed in the current round.
pub open spec fn own_shown_strength(turn: BotTurn) -> Option<u8> {
    match (turn.view.hand, turn.turnup) {
        (Some(h), Some(t)) => match first_play_card(
            h.public_state.current_round.plays@,
            turn.player,
            false,
        ) {
            Some(c) => Some(strength_of(c.rank, c.suit, t) as u8),
            None => None,
        },
        _ => None,
    }
}

/// Strength of the card this seat already showed face up in the current round.
pub fn own_visible_current_strength(turn: &BotTurn) -> (r: Option<u8>)
    ensures
        r == own_shown_strength(*turn),
        r matches Some(v) ==> v <= 13,
{
    let hand = match &turn.view.hand {
        Some(h) => h,
        None => {
            return None;
        },
    };
    let turnup = match &turn.turnup {
        Some(t) => t,
        None => {
            return None;
        },
    };
    match visible_self_play(&hand.public_state.current_round.plays, turn.player) {
        Some(c) => Some(public_card_strength(&c, turnup)),
        None => None,
    }
}

/// A hand counts a manilha exactly when it holds one.
pub proof fn lemma_manilha_count_positive(cards: Seq<Card>, turnup: Turnup)
    ensures
        manilha_count(cards, turnup) > 0 <==> exists|i: int| 0 <= i < cards.len() && is_manilha_rank(#[trigger] cards[i].rank, turnup),
    decreases cards.len(),
{
    if cards.len() > 0 {
        let r = cards.drop_last();
        lemma_manilha_count_positive(r, turnup);
        if exists|i: int| 0 <= i < cards.len() && is_manilha_rank(#[trigger] cards[i].rank, turnup) {
            let i = choose|i: int| 0 <= i < cards.len() && is_manilha_rank(#[trigger] cards[i].rank, turnup);
            if i < cards.len() - 1 {
                assert(r[i] == cards[i]);
            }
        }
        if exists|i: int| 0 <= i < r.len() && is_manilha_rank(#[trigger] r[i].rank, turnup) {
            let i = choose|i: int| 0 <= i < r.len() && is_manilha_rank(#[trigger] r[i].rank, turnup);
            assert(cards[i] == r[i]);
        }
    }
}

/// The strongest card of a hand is at least as strong as each of its cards,
/// and no stronger than a bound every card keeps.
pub proof fn lemma_top_of_hand(cards: Seq<Card>, turnup: Turnup, bound: u8)
    ensures
        forall|i: int| 0 <= i < cards.len() ==> strength_of(#[trigger] cards[i].rank, cards[i].suit, turnup)
            <= max_strength(strengths_of(cards, turnup)),
        (forall|i: int| 0 <= i < cards.len() ==> strength_of(#[trigger] cards[i].rank, cards[i].suit, turnup) <= bound)
            ==> max_strength(strengths_of(cards, turnup)) <= bound,
{
    let s = strengths_of(cards, turnup);
    lemma_strengths_bounded(cards, turnup);
    lemma_max_strength_bounds(s);
    assert forall|i: int| 0 <= i < cards.len() implies strength_of(#[trigger] cards[i].rank, cards[i].suit, turnup)
        <= max_strength(s) by {
        assert(s[i] == strength_of(cards[i].rank, cards[i].suit, turnup) as u8);
        assert(strength_of(cards[i].rank, cards[i].suit, turnup) <= 13);
    }
    if (forall|i: int| 0 <= i < cards.len() ==> strength_of(#[trigger] cards[i].rank, cards[i].suit, turnup) <= bound) {
        if s.len() > 0 {
            let k = choose|k: int| 0 <= k < s.len() && s[k] == max_strength(s);
            assert(s[k] == strength_of(cards[k].rank, cards[k].suit, turnup) as u8);
            assert(strength_of(cards[k].rank, cards[k].suit, turnup) <= 13);
        } else {
            assert(max_strength(s) == 0);
        }
    }
}

/// No legal play of the card is found only when the legal actions hold none.
pub proof fn lemma_find_play_none(legal: Seq<Action>, id: Seq<char>, face_up: bool)
    ensures
        find_play(legal, id, face_up) is None ==> forall|k: int| 0 <= k < legal.len() ==> !is_play_of(#[trigger] legal[k], id, face_up),
    decreases legal.len(),
{
    if legal.len() > 0 && !is_play_of(legal[0], id, face_up) {
        lemma_find_play_none(legal.drop_first(), id, face_up);
        assert forall|k: int| 1 <= k < legal.len() implies legal[k] == legal.drop_first()[k - 1] by {}
    }
}

} // verus!
