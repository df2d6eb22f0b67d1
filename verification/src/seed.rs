//! Seeded live hands: reproduce a studied position as a real deal. The
//! position's seats, cards and line are checked, each seat's committed cards
//! are counted out of the deck, the ways of completing each hand are
//! enumerated with their deal weights, and drawn completions are realized as
//! concrete cards.
use crate::abstraction::{abstract_card, class_of, AbstractAction, NUM_CLASSES};
use crate::engine::{
    manilha_rank_of, rank_at, rank_index, suit_strength, Action, Card, Player, Rank, Score, Suit,
    Turnup,
};
use crate::rng::gen_index;
use vstd::multiset::Multiset;
use vstd::seq_lib::{group_to_multiset_ensures, lemma_multiset_commutative};
use crate::text::{char_string, format_u64};
use vstd::arithmetic::power2::{
    lemma2_to64, lemma2_to64_rest, lemma_pow2_adds, lemma_pow2_pos, lemma_pow2_strictly_increases,
    lemma_pow2_unfold, pow2,
};
use rand::rngs::StdRng;
use vstd::prelude::*;

verus! {

/// One replayed action of the analysed line; plays name a card class (0..=12).
#[derive(Debug, Clone, Copy, PartialEq, Eq, Structural)]
pub enum SeededActionKind {
    PlayFaceUp { class: u8 },
    PlayFaceDown { class: u8 },
    Raise { to: u8 },
    AcceptRaise,
    Fold,
    AcceptEleven,
    FoldEleven,
}

/// An action of the line and the seat that made it.
#[derive(Debug, Clone, Copy, PartialEq, Eq, Structural)]
pub struct SeededHistoryAction {
    pub seat: Player,
    pub kind: SeededActionKind,
}

/// A studied position to realize as a live hand.
#[derive(Debug, Clone, PartialEq, Eq)]
pub struct SeedSpec {
    pub score: Score,
    pub dealer: Player,
    pub vira_rank: Rank,
    pub human_player: Player,
    /// The human's three card classes when drafted; `None` samples them.
    pub hero_hand: Option<Vec<u8>>,
    /// The bot's three card classes when pinned; `None` samples them.
    pub villain_hand: Option<Vec<u8>>,
    pub history: Vec<SeededHistoryAction>,
}

/// How the villain's hand was chosen.
#[derive(Debug, Clone, Copy, PartialEq, Eq, Structural)]
pub enum VillainSampling {
    /// Pinned by the study; dealt exactly.
    Pinned,
    /// Drawn from the deal weight times the equilibrium likelihood of the line.
    Posterior,
    /// Drawn from the deal weight alone.
    Prior,
}

/// Why a position cannot be realized.
#[derive(Debug, Clone, PartialEq, Eq)]
pub enum SeedError {
    Invalid(String),
    History(String),
    NoConsistentHand,
}

/// The rank character of a card id: 4 5 6 7 q j k a 2 3.
pub open spec fn rank_char_of(rank: Rank) -> char {
    match rank {
        Rank::Four => '4',
        Rank::Five => '5',
        Rank::Six => '6',
        Rank::Seven => '7',
        Rank::Queen => 'q',
        Rank::Jack => 'j',
        Rank::King => 'k',
        Rank::Ace => 'a',
        Rank::Two => '2',
        Rank::Three => '3',
    }
}

/// The suit character of a card id: d s h c.
pub open spec fn suit_char_of(suit: Suit) -> char {
    match suit {
        Suit::Diamonds => 'd',
        Suit::Spades => 's',
        Suit::Hearts => 'h',
        Suit::Clubs => 'c',
    }
}

/// The rank character of a card id.
pub fn rank_char(rank: Rank) -> (r: char)
    ensures
        r == rank_char_of(rank),
{
    match rank.index() {
        0 => '4',
        1 => '5',
        2 => '6',
        3 => '7',
        4 => 'q',
        5 => 'j',
        6 => 'k',
        7 => 'a',
        8 => '2',
        _ => '3',
    }
}

/// The suit character of a card id.
pub fn suit_char(suit: Suit) -> (r: char)
    ensures
        r == suit_char_of(suit),
{
    match suit {
        Suit::Diamonds => 'd',
        Suit::Spades => 's',
        Suit::Hearts => 'h',
        Suit::Clubs => 'c',
    }
}

/// The string of two characters.
fn two_char_string(a: char, b: char) -> (r: String)
    ensures
        r@ == seq![a, b],
{
    let mut s = char_string(a);
    let t = char_string(b);
    s.append(t.as_str());
    s
}

/// The suit at a manilha position 0..3: diamonds, spades, hearts, clubs.
pub open spec fn suit_at(i: int) -> Suit {
    if i == 0 {
        Suit::Diamonds
    } else if i == 1 {
        Suit::Spades
    } else if i == 2 {
        Suit::Hearts
    } else {
        Suit::Clubs
    }
}

fn suit_from(i: usize) -> (r: Suit)
    requires
        i < 4,
    ensures
        r == suit_at(i as int),
{
    if i == 0 {
        Suit::Diamonds
    } else if i == 1 {
        Suit::Spades
    } else if i == 2 {
        Suit::Hearts
    } else {
        Suit::Clubs
    }
}

fn rank_from(i: usize) -> (r: Rank)
    requires
        i < 10,
    ensures
        r == rank_at(i as nat),
{
    if i == 0 { Rank::Four }
    else if i == 1 { Rank::Five }
    else if i == 2 { Rank::Six }
    else if i == 3 { Rank::Seven }
    else if i == 4 { Rank::Queen }
    else if i == 5 { Rank::Jack }
    else if i == 6 { Rank::King }
    else if i == 7 { Rank::Ace }
    else if i == 8 { Rank::Two }
    else { Rank::Three }
}

/// The rank of plain level `level` under a turnup of rank `vira_rank`: the
/// ladder with the manilha rank left out.
pub open spec fn plain_rank(vira_rank: Rank, level: nat) -> Rank {
    let mi = rank_index(manilha_rank_of(vira_rank));
    rank_at(if level < mi { level } else { level + 1 })
}

/// The (rank, suit) pairs of `rank` in suit order, without the turnup card.
pub open spec fn suits_except(rank: Rank, vira: Turnup) -> Seq<(Rank, Suit)> {
    seq![
        (rank, Suit::Diamonds),
        (rank, Suit::Spades),
        (rank, Suit::Hearts),
        (rank, Suit::Clubs),
    ].filter(|p: (Rank, Suit)| !(p.0 == vira.rank && p.1 == vira.suit))
}

/// The concrete cards of a class before any is dealt.
pub open spec fn initial_options(vira: Turnup, class: int) -> Seq<(Rank, Suit)> {
    if class < 9 {
        suits_except(plain_rank(vira.rank, class as nat), vira)
    } else {
        seq![(manilha_rank_of(vira.rank), suit_at(class - 9))]
    }
}

/// The concrete cards each class can still realize under a turnup.
pub struct ConcretePool {
    options: Vec<Vec<(Rank, Suit)>>,
    vira: Ghost<Rank>,
}

impl View for ConcretePool {
    type V = Seq<Seq<(Rank, Suit)>>;

    closed spec fn view(&self) -> Seq<Seq<(Rank, Suit)>> {
        self.options@.map_values(|o: Vec<(Rank, Suit)>| o@)
    }
}

/// The card a pool entry becomes: id made of the rank and suit characters.
pub open spec fn pool_card(p: (Rank, Suit), card: Card) -> bool {
    card.rank == p.0 && card.suit == p.1 && card.id@ == seq![rank_char_of(p.0), suit_char_of(p.1)]
}

impl ConcretePool {
    /// Thirteen classes, each holding only cards of that class under the turnup.
    pub closed spec fn wf(&self) -> bool {
        &&& self.options@.len() == NUM_CLASSES
        &&& forall|c: int, k: int|
            0 <= c < 13 && 0 <= k < self.options@[c]@.len() ==> class_of(
                (#[trigger] self.options@[c]@[k]).0,
                self.options@[c]@[k].1,
                self.vira@,
            ) == c
    }

    /// The rank of the turnup the pool was built for.
    pub closed spec fn vira_rank(&self) -> Rank {
        self.vira@
    }

    /// The full pool for a turnup: every card except the turnup itself, by class.
    pub fn new(vira: &Turnup) -> (r: Self)
        ensures
            r.wf(),
            r.vira_rank() == vira.rank,
            r@.len() == NUM_CLASSES,
            forall|c: int| 0 <= c < 13 ==> #[trigger] r@[c] == initial_options(*vira, c),
    {
        let manilha = vira.rank.next_for_manilha();
        let mi = manilha.index() as usize;
        let mut options: Vec<Vec<(Rank, Suit)>> = Vec::new();
        let mut level: usize = 0;
        while level < 9
            invariant
                level <= 9,
                mi as nat == rank_index(manilha),
                manilha == manilha_rank_of(vira.rank),
                options@.len() == level,
                forall|c: int| 0 <= c < level ==> (#[trigger] options@[c])@ == initial_options(*vira, c),
            decreases 9 - level,
        {
            let rank = rank_from(if level < mi { level } else { level + 1 });
            let mut entry: Vec<(Rank, Suit)> = Vec::new();
            let mut s: usize = 0;
            let ghost all = seq![
                (rank, Suit::Diamonds),
                (rank, Suit::Spades),
                (rank, Suit::Hearts),
                (rank, Suit::Clubs),
            ];
            let ghost keep = |p: (Rank, Suit)| !(p.0 == vira.rank && p.1 == vira.suit);
            while s < 4
                invariant
                    s <= 4,
                    all == seq![
                        (rank, Suit::Diamonds),
                        (rank, Suit::Spades),
                        (rank, Suit::Hearts),
                        (rank, Suit::Clubs),
                    ],
                    keep == (|p: (Rank, Suit)| !(p.0 == vira.rank && p.1 == vira.suit)),
                    entry@ == all.take(s as int).filter(keep),
                decreases 4 - s,
            {
                let suit = suit_from(s);
                assert(all[s as int] == (rank, suit));
                assert(all.take(s + 1).drop_last() == all.take(s as int));
                proof {
                    all.take(s + 1).filter_lemma(keep);
                    all.take(s as int).filter_lemma(keep);
                }
                reveal_with_fuel(Seq::filter, 1);
                if !(rank == vira.rank && suit == vira.suit) {
                    entry.push((rank, suit));
                }
                s = s + 1;
            }
            assert(all.take(4) == all);
            options.push(entry);
            level = level + 1;
        }
        let mut s: usize = 0;
        while s < 4
            invariant
                s <= 4,
                manilha == manilha_rank_of(vira.rank),
                options@.len() == 9 + s,
                forall|c: int| 0 <= c < 9 + s ==> (#[trigger] options@[c])@ == initial_options(*vira, c),
            decreases 4 - s,
        {
            let mut entry: Vec<(Rank, Suit)> = Vec::new();
            entry.push((manilha, suit_from(s)));
            options.push(entry);
            s = s + 1;
        }
        let r = ConcretePool { options, vira: Ghost(vira.rank) };
        assert forall|c: int| 0 <= c < 13 implies #[trigger] r@[c] == initial_options(*vira, c) by {
            assert(r@[c] == r.options@[c]@);
        }
        assert forall|c: int, k: int|
            0 <= c < 13 && 0 <= k < r.options@[c]@.len() implies class_of(
                (#[trigger] r.options@[c]@[k]).0,
                r.options@[c]@[k].1,
                vira.rank,
            ) == c by {
            assert(r.options@[c]@ == initial_options(*vira, c));
            lemma_initial_options_class(*vira, c, k);
        }
        r
    }

    /// How many concrete cards the class can still realize.
    pub fn available(&self, class: u8) -> (r: usize)
        requires
            self.wf(),
            class < 13,
        ensures
            r == self@[class as int].len(),
    {
        self.options[class as usize].len()
    }

    /// Takes one concrete card of the class, the one at `pick` modulo what is
    /// left (the last card moves into its place); `None` when the class is empty.
    pub fn take(&mut self, class: u8, pick: usize) -> (r: Option<Card>)
        requires
            old(self).wf(),
            class < 13,
        ensures
            final(self).wf(),
            final(self).vira_rank() == old(self).vira_rank(),
            final(self)@.len() == NUM_CLASSES,
            r matches Some(card) ==> class_of(card.rank, card.suit, old(self).vira_rank()) == class,
            old(self)@[class as int].len() == 0 ==> r is None && final(self)@ == old(self)@,
            old(self)@[class as int].len() > 0 ==> {
                let o = old(self)@[class as int];
                let k = pick as int % o.len() as int;
                &&& r matches Some(card) && pool_card(o[k], card)
                &&& final(self)@ == old(self)@.update(class as int, o.update(k, o.last()).drop_last())
            },
    {
        let c = class as usize;
        let n = self.options[c].len();
        if n == 0 {
            return None;
        }
        let mut inner: Vec<(Rank, Suit)> = Vec::new();
        let mut i: usize = 0;
        while i < n
            invariant
                i <= n,
                c < self.options@.len(),
                n == self.options@[c as int]@.len(),
                inner@ == self.options@[c as int]@.take(i as int),
            decreases n - i,
        {
            inner.push(self.options[c][i]);
            assert(self.options@[c as int]@.take(i + 1) == self.options@[c as int]@.take(i as int).push(self.options@[c as int]@[i as int]));
            i = i + 1;
        }
        assert(self.options@[c as int]@.take(n as int) == self.options@[c as int]@);
        let (rank, suit) = inner.swap_remove(pick % n);
        let ghost old_options = self.options@;
        self.options[c] = inner;
        proof {
            assert(self@ =~= old(self)@.update(class as int, self.options@[c as int]@));
            let o = old(self).options@[c as int]@;
            let k = pick as int % n as int;
            assert(rank == o[k].0 && suit == o[k].1);
            assert forall|x: int, y: int|
                0 <= x < 13 && 0 <= y < self.options@[x]@.len() implies class_of(
                    (#[trigger] self.options@[x]@[y]).0,
                    self.options@[x]@[y].1,
                    self.vira@,
                ) == x by {
                if x == c {
                    let nw = o.update(k, o.last()).drop_last();
                    assert(self.options@[x]@ == nw);
                    if y == k {
                        assert(nw[y] == o[o.len() - 1]);
                    } else {
                        assert(nw[y] == o[y]);
                    }
                } else {
                    assert(self.options@[x] == old(self).options@[x]);
                }
            }
        }
        let id = two_char_string(rank_char(rank), suit_char(suit));
        Some(Card { id, rank, suit })
    }
}

/// "card class N out of range".
pub open spec fn class_range_message(class: u8) -> Seq<char> {
    "card class "@ + crate::text::decimal(class as nat) + " out of range"@
}

/// Checks a card class (0..=12).
pub fn class_card(class: u8) -> (r: Result<u8, SeedError>)
    ensures
        class < 13 ==> r == Ok::<u8, SeedError>(class),
        class >= 13 ==> (r matches Err(SeedError::Invalid(m)) && m@ == class_range_message(class)),
{
    if class as usize >= NUM_CLASSES {
        let mut m = String::from_str("card class ");
        let digits = format_u64(class as u64);
        m.append(digits.as_str());
        m.append(" out of range");
        return Err(SeedError::Invalid(m));
    }
    Ok(class)
}

/// The abstract action of a line entry, when its card class is in range.
pub open spec fn abstract_of(kind: SeededActionKind) -> Option<AbstractAction> {
    match kind {
        SeededActionKind::PlayFaceUp { class } => if class < 13 { Some(AbstractAction::PlayFaceUp(class)) } else { None },
        SeededActionKind::PlayFaceDown { class } => if class < 13 { Some(AbstractAction::PlayFaceDown(class)) } else { None },
        SeededActionKind::Raise { to } => Some(AbstractAction::Raise(to)),
        SeededActionKind::AcceptRaise => Some(AbstractAction::AcceptRaise),
        SeededActionKind::Fold => Some(AbstractAction::Fold),
        SeededActionKind::AcceptEleven => Some(AbstractAction::AcceptEleven),
        SeededActionKind::FoldEleven => Some(AbstractAction::FoldEleven),
    }
}

/// The class a line entry plays, if it is a play.
pub open spec fn played_class_of(kind: SeededActionKind) -> Option<u8> {
    match kind {
        SeededActionKind::PlayFaceUp { class } => Some(class),
        SeededActionKind::PlayFaceDown { class } => Some(class),
        _ => None,
    }
}

/// The abstract action of a line entry; an error for a card class out of range.
pub fn seeded_to_abstract(kind: &SeededActionKind) -> (r: Result<AbstractAction, SeedError>)
    ensures
        match abstract_of(*kind) {
            Some(a) => r == Ok::<AbstractAction, SeedError>(a),
            None => (r matches Err(SeedError::Invalid(m)) && m@ == class_range_message(played_class_of(*kind)->0)),
        },
{
    match kind {
        SeededActionKind::PlayFaceUp { class } => match class_card(*class) {
            Ok(c) => Ok(AbstractAction::PlayFaceUp(c)),
            Err(e) => Err(e),
        },
        SeededActionKind::PlayFaceDown { class } => match class_card(*class) {
            Ok(c) => Ok(AbstractAction::PlayFaceDown(c)),
            Err(e) => Err(e),
        },
        SeededActionKind::Raise { to } => Ok(AbstractAction::Raise(*to)),
        SeededActionKind::AcceptRaise => Ok(AbstractAction::AcceptRaise),
        SeededActionKind::Fold => Ok(AbstractAction::Fold),
        SeededActionKind::AcceptEleven => Ok(AbstractAction::AcceptEleven),
        SeededActionKind::FoldEleven => Ok(AbstractAction::FoldEleven),
    }
}

/// The classes a seat's plays in the line commit it to holding, in play order.
pub open spec fn played_by(history: Seq<SeededHistoryAction>, seat: Player) -> Seq<u8>
    decreases history.len(),
{
    if history.len() == 0 {
        Seq::empty()
    } else {
        let rest = played_by(history.drop_last(), seat);
        let last = history.last();
        if last.seat == seat && played_class_of(last.kind) is Some {
            rest.push(played_class_of(last.kind)->0)
        } else {
            rest
        }
    }
}

/// The classes the seat's plays in the line commit it to holding.
pub fn played_classes(spec: &SeedSpec, seat: Player) -> (r: Vec<u8>)
    ensures
        r@ == played_by(spec.history@, seat),
{
    let mut out: Vec<u8> = Vec::new();
    let mut i: usize = 0;
    while i < spec.history.len()
        invariant
            i <= spec.history.len(),
            out@ == played_by(spec.history@.take(i as int), seat),
        decreases spec.history.len() - i,
    {
        assert(spec.history@.take(i + 1).drop_last() == spec.history@.take(i as int));
        let entry = spec.history[i];
        if entry.seat == seat {
            match entry.kind {
                SeededActionKind::PlayFaceUp { class } => out.push(class),
                SeededActionKind::PlayFaceDown { class } => out.push(class),
                _ => {},
            }
        }
        i = i + 1;
    }
    assert(spec.history@.take(spec.history.len() as int) == spec.history@);
    out
}

/// How many times `c` occurs.
pub open spec fn class_count(s: Seq<u8>, c: u8) -> nat
    decreases s.len(),
{
    if s.len() == 0 {
        0
    } else {
        class_count(s.drop_last(), c) + if s.last() == c { 1nat } else { 0nat }
    }
}

pub open spec fn all_classes_valid(s: Seq<u8>) -> bool {
    forall|i: int| 0 <= i < s.len() ==> #[trigger] s[i] < 13
}

/// `needed` is a sub-multiset of `hand`.
pub open spec fn sub_multiset(hand: Seq<u8>, needed: Seq<u8>) -> bool {
    forall|c: u8| #[trigger] class_count(needed, c) <= class_count(hand, c)
}

proof fn lemma_count_zero_outside(s: Seq<u8>, c: u8)
    requires
        all_classes_valid(s),
        c >= 13,
    ensures
        class_count(s, c) == 0,
    decreases s.len(),
{
    if s.len() > 0 {
        lemma_count_zero_outside(s.drop_last(), c);
    }
}

/// Whether every class of `needed` occurs in `hand` at least as often.
pub fn contains_multiset(hand: &Vec<u8>, needed: &Vec<u8>) -> (r: bool)
    requires
        all_classes_valid(hand@),
        all_classes_valid(needed@),
    ensures
        r == sub_multiset(hand@, needed@),
{
    let mut counts: Vec<i128> = vec![0i128, 0, 0, 0, 0, 0, 0, 0, 0, 0, 0, 0, 0];
    let mut i: usize = 0;
    while i < hand.len()
        invariant
            i <= hand.len(),
            all_classes_valid(hand@),
            counts@.len() == 13,
            forall|c: int| 0 <= c < 13 ==> #[trigger] counts@[c] == class_count(hand@.take(i as int), c as u8),
            forall|c: int| 0 <= c < 13 ==> #[trigger] counts@[c] <= i,
        decreases hand.len() - i,
    {
        let c = hand[i] as usize;
        assert(hand@.take(i + 1).drop_last() == hand@.take(i as int));
        let v = counts[c];
        counts[c] = v + 1;
        i = i + 1;
    }
    assert(hand@.take(hand.len() as int) == hand@);
    proof {
        assert forall|c: int| 0 <= c < 13 implies #[trigger] class_count(hand@, c as u8) <= hand@.len() by {
            assert(counts@[c] <= hand.len());
        }
    }
    let mut j: usize = 0;
    while j < needed.len()
        invariant
            j <= needed.len(),
            all_classes_valid(needed@),
            all_classes_valid(hand@),
            counts@.len() == 13,
            forall|c: int| 0 <= c < 13 ==> #[trigger] counts@[c] == class_count(hand@, c as u8) - class_count(needed@.take(j as int), c as u8),
            forall|c: int| 0 <= c < 13 ==> #[trigger] counts@[c] >= 0,
            forall|c: int| 0 <= c < 13 ==> #[trigger] class_count(hand@, c as u8) <= hand@.len(),
        decreases needed.len() - j,
    {
        let c = needed[j] as usize;
        assert(needed@.take(j + 1).drop_last() == needed@.take(j as int));
        let v = counts[c];
        counts[c] = v - 1;
        if v - 1 < 0 {
            proof {
                assert(class_count(needed@.take(j + 1), c as u8) > class_count(hand@, c as u8));
                lemma_count_prefix(needed@, j + 1, c as u8);
            }
            return false;
        }
        j = j + 1;
    }
    assert(needed@.take(needed.len() as int) == needed@);
    proof {
        assert forall|c: u8| #[trigger] class_count(needed@, c) <= class_count(hand@, c) by {
            if c >= 13 {
                lemma_count_zero_outside(needed@, c);
            } else {
                assert(counts@[c as int] >= 0);
            }
        }
    }
    true
}

proof fn lemma_count_prefix(s: Seq<u8>, n: int, c: u8)
    requires
        0 <= n <= s.len(),
    ensures
        class_count(s.take(n), c) <= class_count(s, c),
    decreases s.len() - n,
{
    if n < s.len() {
        lemma_count_prefix(s, n + 1, c);
        assert(s.take(n + 1).drop_last() == s.take(n));
    } else {
        assert(s.take(n) == s);
    }
}

/// Number of ways to choose `k` of `n`.
pub open spec fn binom(n: nat, k: nat) -> nat
    decreases n,
{
    if k == 0 {
        1
    } else if n == 0 {
        0
    } else {
        binom((n - 1) as nat, (k - 1) as nat) + binom((n - 1) as nat, k)
    }
}

proof fn lemma_binom_bound(n: nat, k: nat)
    ensures
        binom(n, k) <= pow2(n),
        k > n ==> binom(n, k) == 0,
    decreases n,
{
    lemma_pow2_pos(n);
    if k > 0 && n > 0 {
        lemma_binom_bound((n - 1) as nat, (k - 1) as nat);
        lemma_binom_bound((n - 1) as nat, k);
        lemma_pow2_unfold(n);
    }
}

proof fn lemma_pow2_bound(n: nat)
    requires
        n <= 60,
    ensures
        pow2(n) <= 0x1000_0000_0000_0000,
{
    lemma2_to64_rest();
    if n < 60 {
        lemma_pow2_strictly_increases(n, 60);
    }
}

/// The binomial coefficient "n choose k" (0 when k > n).
pub fn binomial(n: usize, k: usize) -> (r: u64)
    requires
        n <= 60,
    ensures
        r as nat == binom(n as nat, k as nat),
{
    if k > n {
        proof {
            lemma_binom_bound(n as nat, k as nat);
        }
        return 0;
    }
    // row[j] = binom(i, j) for j <= k, built row by row (Pascal's rule).
    let mut row: Vec<u64> = Vec::new();
    row.push(1);
    let mut j: usize = 1;
    while j <= k
        invariant
            1 <= j <= k + 1,
            k <= n,
            n <= 60,
            row@.len() == j,
            row@[0] == 1,
            forall|t: int| 1 <= t < j ==> #[trigger] row@[t] == 0,
        decreases k + 1 - j,
    {
        row.push(0);
        assert(j <= n);
        j = j + 1;
    }
    assert forall|t: int| 0 <= t <= k implies #[trigger] row@[t] as nat == binom(0, t as nat) by {}
    let mut i: usize = 1;
    while i <= n
        invariant
            1 <= i <= n + 1,
            n <= 60,
            k <= n,
            row@.len() == k + 1,
            forall|t: int| 0 <= t <= k ==> #[trigger] row@[t] as nat == binom((i - 1) as nat, t as nat),
        decreases n + 1 - i,
    {
        // Update from the top so row[t - 1] still holds the previous row.
        let mut t: usize = k;
        while t >= 1
            invariant
                0 <= t <= k,
                1 <= i <= n,
                n <= 60,
                row@.len() == k + 1,
                forall|u: int| 0 <= u <= t ==> #[trigger] row@[u] as nat == binom((i - 1) as nat, u as nat),
                forall|u: int| t < u <= k ==> #[trigger] row@[u] as nat == binom(i as nat, u as nat),
            decreases t,
        {
            proof {
                lemma_binom_bound(i as nat, t as nat);
                lemma_pow2_bound(i as nat);
                assert(binom(i as nat, t as nat) == binom((i - 1) as nat, (t - 1) as nat) + binom((i - 1) as nat, t as nat));
            }
            let v = row[t] + row[t - 1];
            row[t] = v;
            t = t - 1;
        }
        assert(binom(i as nat, 0) == 1);
        i = i + 1;
    }
    row[k]
}

/// `n` copies of a class.
pub open spec fn repeat_class(class: u8, n: nat) -> Seq<u8> {
    Seq::new(n, |i: int| class)
}

/// The texts of a list of class lists.
pub open spec fn class_lists(v: Seq<Vec<u8>>) -> Seq<Seq<u8>> {
    v.map_values(|x: Vec<u8>| x@)
}

/// Every way to pick `remaining` more cards from the classes `class..13`,
/// at most `avail[c]` of class `c`, as sorted class lists. Fewer copies of a
/// class come first, then the later classes vary (the enumeration order the
/// sampler indexes).
pub open spec fn completions_of(avail: Seq<usize>, class: int, remaining: int) -> Seq<Seq<u8>>
    decreases 13 - class, remaining + 2,
{
    if remaining <= 0 {
        seq![Seq::empty()]
    } else if class >= 13 || class < 0 {
        Seq::empty()
    } else {
        let most = if (avail[class] as int) < remaining { avail[class] as int } else { remaining };
        completions_upto(avail, class, remaining, most + 1)
    }
}

/// The completions that take fewer than `takes` copies of `class`.
pub open spec fn completions_upto(avail: Seq<usize>, class: int, remaining: int, takes: int) -> Seq<
    Seq<u8>,
>
    decreases 13 - class, takes,
{
    if takes <= 0 || class >= 13 || class < 0 || takes > remaining + 1 {
        Seq::empty()
    } else {
        completions_upto(avail, class, remaining, takes - 1) + completions_of(
            avail,
            class + 1,
            remaining - (takes - 1),
        ).map_values(|s: Seq<u8>| repeat_class(class as u8, (takes - 1) as nat) + s)
    }
}

/// A way to fill `remaining` cards from the classes `class..13` within the
/// copies `avail` leaves.
pub open spec fn fits(s: Seq<u8>, avail: Seq<usize>, class: int, remaining: int) -> bool {
    &&& s.len() == remaining
    &&& forall|i: int| 0 <= i < s.len() ==> class <= #[trigger] s[i] < 13
    &&& forall|c: u8| c < 13 ==> #[trigger] class_count(s, c) <= avail[c as int]
}

proof fn lemma_count_absent(s: Seq<u8>, c: u8)
    requires
        forall|i: int| 0 <= i < s.len() ==> #[trigger] s[i] != c,
    ensures
        class_count(s, c) == 0,
    decreases s.len(),
{
    if s.len() > 0 {
        lemma_count_absent(s.drop_last(), c);
    }
}

proof fn lemma_count_repeat(cl: u8, t: nat, c: u8)
    ensures
        class_count(repeat_class(cl, t), c) == if c == cl { t } else { 0 },
    decreases t,
{
    if t > 0 {
        assert(repeat_class(cl, t).drop_last() =~= repeat_class(cl, (t - 1) as nat));
        lemma_count_repeat(cl, (t - 1) as nat, c);
    }
}

/// Every completion fills exactly the remaining cards, from the classes
/// `class..13`, never using more copies of a class than are left.
pub proof fn lemma_completions_fit(avail: Seq<usize>, class: int, remaining: int)
    requires
        avail.len() == 13,
        0 <= class <= 13,
        remaining >= 0,
    ensures
        forall|k: int|
            0 <= k < completions_of(avail, class, remaining).len() ==> fits(
                #[trigger] completions_of(avail, class, remaining)[k],
                avail,
                class,
                remaining,
            ),
    decreases 13 - class, remaining + 2,
{
    let all = completions_of(avail, class, remaining);
    if remaining == 0 {
        assert forall|c: u8| c < 13 implies #[trigger] class_count(Seq::<u8>::empty(), c) <= avail[c as int] by {}
        assert(fits(Seq::<u8>::empty(), avail, class, 0));
        assert(all == seq![Seq::<u8>::empty()]);
        assert forall|k: int| 0 <= k < all.len() implies fits(#[trigger] all[k], avail, class, remaining) by {
            assert(all[k] == Seq::<u8>::empty());
        }
    } else if class < 13 {
        let most = if (avail[class] as int) < remaining { avail[class] as int } else { remaining };
        lemma_upto_fit(avail, class, remaining, most + 1);
        assert(all == completions_upto(avail, class, remaining, most + 1));
    } else {
        assert(all.len() == 0);
    }
}

proof fn lemma_upto_fit(avail: Seq<usize>, class: int, remaining: int, takes: int)
    requires
        avail.len() == 13,
        0 <= class < 13,
        remaining > 0,
        0 <= takes <= remaining + 1,
        takes <= avail[class] + 1,
    ensures
        forall|k: int|
            0 <= k < completions_upto(avail, class, remaining, takes).len() ==> fits(
                #[trigger] completions_upto(avail, class, remaining, takes)[k],
                avail,
                class,
                remaining,
            ),
    decreases 13 - class, takes,
{
    if takes > 0 {
        let t = takes - 1;
        lemma_upto_fit(avail, class, remaining, t);
        lemma_completions_fit(avail, class + 1, remaining - t);
        let prev = completions_upto(avail, class, remaining, t);
        let sub = completions_of(avail, class + 1, remaining - t);
        let f = |s: Seq<u8>| repeat_class(class as u8, t as nat) + s;
        let all = completions_upto(avail, class, remaining, takes);
        assert(all == prev + sub.map_values(f));
        assert forall|k: int| 0 <= k < all.len() implies fits(#[trigger] all[k], avail, class, remaining) by {
            if k < prev.len() {
                assert(all[k] == prev[k]);
            } else {
                let s = sub[k - prev.len()];
                assert(fits(s, avail, class + 1, remaining - t));
                let x = repeat_class(class as u8, t as nat) + s;
                assert(all[k] == x);
                assert forall|i: int| 0 <= i < x.len() implies class <= #[trigger] x[i] < 13 by {
                    if i >= t {
                        assert(x[i] == s[i - t]);
                    }
                }
                assert forall|c: u8| c < 13 implies #[trigger] class_count(x, c) <= avail[c as int] by {
                    lemma_count_concat(repeat_class(class as u8, t as nat), s, c);
                    lemma_count_repeat(class as u8, t as nat, c);
                    if c == class as u8 {
                        assert forall|i: int| 0 <= i < s.len() implies #[trigger] s[i] != c by {}
                        lemma_count_absent(s, c);
                    } else {
                        assert(class_count(s, c) <= avail[c as int]);
                    }
                }
            }
        }
    }
}

fn prefixed(class: u8, take: usize, rest: &Vec<u8>) -> (r: Vec<u8>)
    ensures
        r@ == repeat_class(class, take as nat) + rest@,
{
    let mut out: Vec<u8> = Vec::new();
    let mut i: usize = 0;
    while i < take
        invariant
            i <= take,
            out@ == repeat_class(class, i as nat),
        decreases take - i,
    {
        out.push(class);
        i = i + 1;
        assert(out@ =~= repeat_class(class, i as nat));
    }
    let mut j: usize = 0;
    while j < rest.len()
        invariant
            j <= rest.len(),
            out@ == repeat_class(class, take as nat) + rest@.take(j as int),
        decreases rest.len() - j,
    {
        out.push(rest[j]);
        j = j + 1;
        assert(out@ =~= repeat_class(class, take as nat) + rest@.take(j as int));
    }
    assert(rest@.take(rest.len() as int) == rest@);
    out
}

/// All completions of `remaining` cards from the classes `class..13` (see
/// `completions_of`).
pub fn completions_from(avail: &Vec<usize>, class: usize, remaining: usize) -> (r: Vec<Vec<u8>>)
    requires
        avail@.len() == 13,
        class <= 13,
    ensures
        class_lists(r@) == completions_of(avail@, class as int, remaining as int),
    decreases 13 - class,
{
    let mut out: Vec<Vec<u8>> = Vec::new();
    if remaining == 0 {
        out.push(Vec::new());
        assert(class_lists(out@) =~= seq![Seq::<u8>::empty()]);
        return out;
    }
    if class >= 13 {
        assert(class_lists(out@) =~= Seq::<Seq<u8>>::empty());
        return out;
    }
    let most = if avail[class] < remaining { avail[class] } else { remaining };
    let mut take: usize = 0;
    let mut done = false;
    assert(class_lists(out@) =~= completions_upto(avail@, class as int, remaining as int, 0));
    while !done
        invariant
            take <= most,
            done ==> take == most,
            most <= remaining,
            class < 13,
            avail@.len() == 13,
            most == if avail@[class as int] < remaining { avail@[class as int] } else { remaining },
            class_lists(out@) == completions_upto(avail@, class as int, remaining as int, take as int + if done { 1int } else { 0int }),
        decreases most - take + if done { 0int } else { 1int },
    {
        let sub = completions_from(avail, class + 1, remaining - take);
        let ghost start = class_lists(out@);
        let ghost f = |s: Seq<u8>| repeat_class(class as u8, take as nat) + s;
        let mut j: usize = 0;
        while j < sub.len()
            invariant
                j <= sub.len(),
                class_lists(out@) == start + class_lists(sub@).take(j as int).map_values(f),
                f == (|s: Seq<u8>| repeat_class(class as u8, take as nat) + s),
            decreases sub.len() - j,
        {
            let next = prefixed(class as u8, take, &sub[j]);
            let ghost before = class_lists(out@);
            out.push(next);
            assert(class_lists(out@) == before.push(next@));
            assert(class_lists(sub@).take(j + 1).map_values(f) =~= class_lists(sub@).take(j as int).map_values(f).push(f(sub@[j as int]@)));
            j = j + 1;
        }
        assert(class_lists(sub@).take(sub.len() as int) == class_lists(sub@));
        assert(completions_upto(avail@, class as int, remaining as int, take + 1) == start + completions_of(
            avail@,
            class + 1,
            remaining - take,
        ).map_values(f));
        if take == most {
            done = true;
        } else {
            take = take + 1;
        }
    }
    out
}

/// How many of `class_list` fall in class `c` (as a count vector entry).
pub open spec fn prior_factor(avail: Seq<usize>, hero: Seq<u8>, villain: Seq<u8>, c: int) -> nat {
    let h = class_count(hero, c as u8);
    let v = class_count(villain, c as u8);
    if h + v > avail[c] {
        0
    } else {
        binom(avail[c] as nat, h) * binom((avail[c] - h) as nat, v)
    }
}

/// The deal weight of a pair of completions drawn from the same remaining
/// cards: per class, the ways to deal the hero's copies and then the
/// villain's, zero when together they need more copies than are left.
pub open spec fn joint_prior_upto(avail: Seq<usize>, hero: Seq<u8>, villain: Seq<u8>, n: int) -> nat
    decreases n,
{
    if n <= 0 {
        1
    } else {
        joint_prior_upto(avail, hero, villain, n - 1) * prior_factor(avail, hero, villain, n - 1)
    }
}

proof fn lemma_factor_bound(avail: Seq<usize>, hero: Seq<u8>, villain: Seq<u8>, c: int)
    requires
        0 <= c < avail.len(),
        avail[c] <= 4,
    ensures
        prior_factor(avail, hero, villain, c) <= 256,
{
    let h = class_count(hero, c as u8);
    let v = class_count(villain, c as u8);
    if h + v <= avail[c] {
        lemma_binom_bound(avail[c] as nat, h);
        lemma_binom_bound((avail[c] - h) as nat, v);
        lemma2_to64();
        lemma_pow2_monotone(avail[c] as nat, 4);
        lemma_pow2_monotone((avail[c] - h) as nat, 4);
        assert(binom(avail[c] as nat, h) * binom((avail[c] - h) as nat, v) <= 16 * 16) by (nonlinear_arith)
            requires
                binom(avail[c] as nat, h) <= 16,
                binom((avail[c] - h) as nat, v) <= 16,
        ;
    }
}

proof fn lemma_prior_zero_upto(avail: Seq<usize>, hero: Seq<u8>, villain: Seq<u8>, c: int, n: int)
    requires
        0 <= c < n,
        class_count(hero, c as u8) + class_count(villain, c as u8) > avail[c],
    ensures
        joint_prior_upto(avail, hero, villain, n) == 0,
    decreases n,
{
    if c < n - 1 {
        lemma_prior_zero_upto(avail, hero, villain, c, n - 1);
    }
    assert(joint_prior_upto(avail, hero, villain, n) == joint_prior_upto(avail, hero, villain, n - 1)
        * prior_factor(avail, hero, villain, n - 1));
}

/// Both hands are dealt from the same remaining cards: a pair of completions
/// that together need more copies of some class than are left has no deal.
pub proof fn lemma_colliding_completions_have_no_deal(avail: Seq<usize>, hero: Seq<u8>, villain: Seq<u8>, c: int)
    requires
        0 <= c < 13,
        class_count(hero, c as u8) + class_count(villain, c as u8) > avail[c],
    ensures
        joint_prior_upto(avail, hero, villain, 13) == 0,
{
    lemma_prior_zero_upto(avail, hero, villain, c, 13);
}

proof fn lemma_pow2_monotone(a: nat, b: nat)
    requires
        a <= b,
    ensures
        pow2(a) <= pow2(b),
{
    if a < b {
        lemma_pow2_strictly_increases(a, b);
    }
}

/// The joint deal weight of a hero completion and a villain completion (see
/// `joint_prior_upto`).
pub fn joint_prior(avail: &Vec<usize>, hero: &Vec<u8>, villain: &Vec<u8>) -> (r: u128)
    requires
        avail@.len() == 13,
        forall|c: int| 0 <= c < 13 ==> #[trigger] avail@[c] <= 4,
    ensures
        r as nat == joint_prior_upto(avail@, hero@, villain@, 13),
{
    let mut weight: u128 = 1;
    let mut c: usize = 0;
    proof {
        lemma2_to64();
    }
    while c < 13
        invariant
            c <= 13,
            avail@.len() == 13,
            forall|k: int| 0 <= k < 13 ==> #[trigger] avail@[k] <= 4,
            weight as nat == joint_prior_upto(avail@, hero@, villain@, c as int),
            weight <= pow2(8 * c as nat),
        decreases 13 - c,
    {
        let h = count_class(hero, c as u8);
        let v = count_class(villain, c as u8);
        let a = avail[c];
        let factor: u128 = if h + v > a as u128 {
            0
        } else {
            let b1 = binomial(a, h as usize);
            let b2 = binomial(a - h as usize, v as usize);
            proof {
                lemma_binom_bound(a as nat, h as nat);
                lemma_binom_bound((a - h) as nat, v as nat);
                lemma2_to64();
                lemma_pow2_monotone(a as nat, 4);
                lemma_pow2_monotone((a - h) as nat, 4);
                assert((b1 as u128) * (b2 as u128) <= 256) by (nonlinear_arith)
                    requires
                        b1 <= 16,
                        b2 <= 16,
                ;
            }
            (b1 as u128) * (b2 as u128)
        };
        proof {
            lemma_factor_bound(avail@, hero@, villain@, c as int);
            assert(factor as nat == prior_factor(avail@, hero@, villain@, c as int));
            lemma_pow2_adds(8 * c as nat, 8);
            lemma2_to64();
            lemma_pow2_monotone(8 * c as nat + 8, 104);
            lemma_pow2_bound_128();
            assert(weight * factor <= pow2(8 * c as nat) * 256) by (nonlinear_arith)
                requires
                    weight <= pow2(8 * c as nat),
                    factor <= 256,
            ;
        }
        weight = weight * factor;
        c = c + 1;
    }
    weight
}

proof fn lemma_pow2_bound_128()
    ensures
        pow2(104) < 0x1_0000_0000_0000_0000_0000_0000_0000_0000,
{
    lemma2_to64();
    lemma_pow2_adds(64, 40);
    lemma2_to64_rest();
    lemma_pow2_strictly_increases(40, 64);
    assert(pow2(104) == pow2(64) * pow2(40));
    assert(pow2(64) * pow2(40) < pow2(64) * pow2(64)) by (nonlinear_arith)
        requires
            pow2(40) < pow2(64),
            pow2(64) > 0,
    ;
}

/// Counts the cards of class `c` in a class list.
pub fn count_class(s: &Vec<u8>, c: u8) -> (r: u128)
    ensures
        r as nat == class_count(s@, c),
        r <= s@.len(),
        r <= usize::MAX,
{
    let mut n: u128 = 0;
    let mut i: usize = 0;
    while i < s.len()
        invariant
            i <= s.len(),
            n as nat == class_count(s@.take(i as int), c),
            n <= i,
        decreases s.len() - i,
    {
        assert(s@.take(i + 1).drop_last() == s@.take(i as int));
        if s[i] == c {
            n = n + 1;
        }
        i = i + 1;
    }
    assert(s@.take(s.len() as int) == s@);
    n
}

pub open spec fn seat_ok(p: Player) -> bool {
    p == 0 || p == 1
}

/// A line entry names a seat and a card class in range.
pub open spec fn entry_ok(e: SeededHistoryAction) -> bool {
    seat_ok(e.seat) && abstract_of(e.kind) is Some
}

pub open spec fn history_ok(h: Seq<SeededHistoryAction>) -> bool {
    forall|i: int| 0 <= i < h.len() ==> entry_ok(#[trigger] h[i])
}

/// A pinned hand has three cards that include every card its seat played.
pub open spec fn pin_ok(pin: Option<Vec<u8>>, played: Seq<u8>) -> bool {
    pin matches Some(p) ==> p@.len() == 3 && all_classes_valid(p@) && sub_multiset(p@, played)
}

/// A three-card pin holding a class out of range.
pub open spec fn pin_out_of_range(pin: Option<Vec<u8>>) -> bool {
    pin matches Some(p) && p@.len() == 3 && !all_classes_valid(p@)
}

pub open spec fn villain_of(spec: SeedSpec) -> Player {
    (1 - spec.human_player) as u8
}

/// The seats, the line and the played-card counts are in order.
pub open spec fn seed_basics_ok(spec: SeedSpec) -> bool {
    &&& seat_ok(spec.human_player)
    &&& seat_ok(spec.dealer)
    &&& history_ok(spec.history@)
    &&& played_by(spec.history@, spec.human_player).len() <= 3
    &&& played_by(spec.history@, villain_of(spec)).len() <= 3
}

/// The inputs on which checking the pins would index a class out of range
/// (left out by `prepare_seed`'s precondition).
pub open spec fn pin_check_faults(spec: SeedSpec) -> bool {
    seed_basics_ok(spec) && (pin_out_of_range(spec.hero_hand) || (pin_ok(
        spec.hero_hand,
        played_by(spec.history@, spec.human_player),
    ) && pin_out_of_range(spec.villain_hand)))
}

/// A seat's committed cards: its pinned hand, else the cards it played.
pub open spec fn base_of(pin: Option<Vec<u8>>, played: Seq<u8>) -> Seq<u8> {
    match pin {
        Some(p) => p@,
        None => played,
    }
}

pub open spec fn hero_base_of(spec: SeedSpec) -> Seq<u8> {
    base_of(spec.hero_hand, played_by(spec.history@, spec.human_player))
}

pub open spec fn villain_base_of(spec: SeedSpec) -> Seq<u8> {
    base_of(spec.villain_hand, played_by(spec.history@, villain_of(spec)))
}

/// Well-formed position: basics in order and both pins valid.
pub open spec fn seed_well_formed(spec: SeedSpec) -> bool {
    &&& seed_basics_ok(spec)
    &&& pin_ok(spec.hero_hand, played_by(spec.history@, spec.human_player))
    &&& pin_ok(spec.villain_hand, played_by(spec.history@, villain_of(spec)))
}

/// The turnup of a seeded hand: the studied rank, of hearts.
pub open spec fn seed_turnup(spec: SeedSpec) -> Turnup {
    Turnup { rank: spec.vira_rank, suit: Suit::Hearts }
}

/// Copies of each class left once both seats' committed cards are out
/// (negative when they need more than the deck has).
pub open spec fn left_after_commit(spec: SeedSpec, c: int) -> int {
    initial_options(seed_turnup(spec), c).len() - class_count(
        hero_base_of(spec) + villain_base_of(spec),
        c as u8,
    )
}

pub open spec fn commit_fits(spec: SeedSpec) -> bool {
    forall|c: int| 0 <= c < 13 ==> #[trigger] left_after_commit(spec, c) >= 0
}

pub open spec fn avail_after(spec: SeedSpec) -> Seq<usize> {
    Seq::new(13, |c: int| left_after_commit(spec, c) as usize)
}

/// A well-formed position whose committed cards fit in the deck and whose
/// hands can both be completed.
pub open spec fn seed_feasible(spec: SeedSpec) -> bool {
    &&& seed_well_formed(spec)
    &&& commit_fits(spec)
    &&& completions_of(avail_after(spec), 0, 3 - hero_base_of(spec).len()).len() > 0
    &&& completions_of(avail_after(spec), 0, 3 - villain_base_of(spec).len()).len() > 0
}

/// A checked position ready to be dealt.
pub struct SeedPlan {
    pub villain_seat: Player,
    pub turnup: Turnup,
    pub hero_base: Vec<u8>,
    pub villain_base: Vec<u8>,
    pub avail: Vec<usize>,
    pub hero_completions: Vec<Vec<u8>>,
    pub villain_completions: Vec<Vec<u8>>,
    pub pool: ConcretePool,
}

fn invalid(message: &str) -> (r: SeedError)
    ensures
        r matches SeedError::Invalid(m) && m@ == message@,
{
    SeedError::Invalid(String::from_str(message))
}

fn check_pin(pin: &Option<Vec<u8>>, played: &Vec<u8>, hero: bool) -> (r: Result<(), SeedError>)
    requires
        all_classes_valid(played@),
        !pin_out_of_range(*pin),
    ensures
        r is Ok <==> pin_ok(*pin, played@),
        r matches Err(e) ==> e is Invalid,
{
    match pin {
        None => Ok(()),
        Some(p) => {
            if p.len() != 3 {
                return Err(if hero {
                    invalid("pinned hero hand must have exactly 3 cards")
                } else {
                    invalid("pinned villain hand must have exactly 3 cards")
                });
            }
            if !contains_multiset(p, played) {
                return Err(if hero {
                    invalid("the hero's played cards are not all in the pinned hand")
                } else {
                    invalid("the villain's played cards are not all in the pinned hand")
                });
            }
            Ok(())
        },
    }
}

proof fn lemma_played_valid(h: Seq<SeededHistoryAction>, seat: Player)
    requires
        history_ok(h),
    ensures
        all_classes_valid(played_by(h, seat)),
    decreases h.len(),
{
    if h.len() > 0 {
        lemma_played_valid(h.drop_last(), seat);
        assert(entry_ok(h[h.len() - 1]));
    }
}

proof fn lemma_count_concat(a: Seq<u8>, b: Seq<u8>, c: u8)
    ensures
        class_count(a + b, c) == class_count(a, c) + class_count(b, c),
    decreases b.len(),
{
    if b.len() == 0 {
        assert(a + b == a);
    } else {
        lemma_count_concat(a, b.drop_last(), c);
        assert((a + b).drop_last() == a + b.drop_last());
    }
}

fn check_basics(spec: &SeedSpec) -> (r: Result<(Vec<u8>, Vec<u8>), SeedError>)
    ensures
        r is Ok <==> seed_basics_ok(*spec),
        !(seat_ok(spec.human_player) && seat_ok(spec.dealer)) ==> (r matches Err(SeedError::Invalid(m))
            && m@ == "seats must be 0 or 1"@),
        r matches Err(e) ==> e is Invalid,
        r matches Ok(p) ==> p.0@ == played_by(spec.history@, spec.human_player) && p.1@ == played_by(
            spec.history@,
            villain_of(*spec),
        ),
{
    if !(spec.human_player == 0 || spec.human_player == 1) || !(spec.dealer == 0 || spec.dealer == 1) {
        return Err(invalid("seats must be 0 or 1"));
    }
    let villain_seat: u8 = 1 - spec.human_player;
    let mut i: usize = 0;
    while i < spec.history.len()
        invariant
            i <= spec.history.len(),
            seat_ok(spec.human_player) && seat_ok(spec.dealer),
            forall|j: int| 0 <= j < i ==> entry_ok(#[trigger] spec.history@[j]),
        decreases spec.history.len() - i,
    {
        let entry = spec.history[i];
        if !(entry.seat == 0 || entry.seat == 1) {
            return Err(invalid("history seat must be 0 or 1"));
        }
        match seeded_to_abstract(&entry.kind) {
            Ok(_) => {},
            Err(e) => {
                return Err(e);
            },
        }
        i = i + 1;
    }
    let hero_played = played_classes(spec, spec.human_player);
    let villain_played = played_classes(spec, villain_seat);
    if hero_played.len() > 3 || villain_played.len() > 3 {
        return Err(invalid("a seat cannot have played more than 3 cards"));
    }
    Ok((hero_played, villain_played))
}

fn concat_classes(a: &Vec<u8>, b: &Vec<u8>) -> (r: Vec<u8>)
    ensures
        r@ == a@ + b@,
{
    let mut out: Vec<u8> = Vec::new();
    let mut i: usize = 0;
    while i < a.len()
        invariant
            i <= a.len(),
            out@ == a@.take(i as int),
        decreases a.len() - i,
    {
        out.push(a[i]);
        i = i + 1;
        assert(out@ =~= a@.take(i as int));
    }
    let mut j: usize = 0;
    while j < b.len()
        invariant
            j <= b.len(),
            out@ == a@ + b@.take(j as int),
        decreases b.len() - j,
    {
        out.push(b[j]);
        j = j + 1;
        assert(out@ =~= a@ + b@.take(j as int));
    }
    assert(a@.take(a.len() as int) == a@);
    assert(b@.take(b.len() as int) == b@);
    out
}

/// Copies left per class once the committed classes are dealt, or `None`
/// when some class is asked for more copies than the pool has.
fn count_left(pool: &ConcretePool, committed: &Vec<u8>) -> (r: Option<Vec<usize>>)
    requires
        pool.wf(),
        all_classes_valid(committed@),
    ensures
        r is None <==> exists|c: int| 0 <= c < 13 && pool@[c].len() < class_count(committed@, c as u8),
        r matches Some(avail) ==> avail@.len() == 13 && forall|c: int| 0 <= c < 13 ==> #[trigger] avail@[c] as int == pool@[c].len() - class_count(committed@, c as u8),
{
    let mut avail: Vec<usize> = Vec::new();
    let mut c: usize = 0;
    while c < 13
        invariant
            c <= 13,
            pool.wf(),
            avail@.len() == c,
            forall|k: int| 0 <= k < c ==> #[trigger] avail@[k] == pool@[k].len(),
        decreases 13 - c,
    {
        avail.push(pool.available(c as u8));
        c = c + 1;
    }
    let mut k: usize = 0;
    while k < committed.len()
        invariant
            k <= committed@.len(),
            pool.wf(),
            all_classes_valid(committed@),
            avail@.len() == 13,
            forall|x: int| 0 <= x < 13 ==> #[trigger] avail@[x] as int == pool@[x].len() - class_count(committed@.take(k as int), x as u8),
        decreases committed.len() - k,
    {
        let class = committed[k];
        assert(committed@.take(k + 1).drop_last() == committed@.take(k as int));
        if avail[class as usize] == 0 {
            proof {
                lemma_count_prefix(committed@, k + 1, class);
                assert(pool@[class as int].len() < class_count(committed@, class));
            }
            return None;
        }
        let v = avail[class as usize];
        avail[class as usize] = v - 1;
        k = k + 1;
    }
    assert(committed@.take(committed.len() as int) == committed@);
    assert forall|c: int| 0 <= c < 13 implies !(pool@[c].len() < class_count(committed@, c as u8)) by {
        assert(avail@[c] as int == pool@[c].len() - class_count(committed@, c as u8));
    }
    Some(avail)
}

fn all_in_range(classes: &Vec<u8>) -> (r: bool)
    ensures
        r == all_classes_valid(classes@),
{
    let mut i: usize = 0;
    while i < classes.len()
        invariant
            i <= classes@.len(),
            forall|j: int| 0 <= j < i ==> #[trigger] classes@[j] < 13,
        decreases classes.len() - i,
    {
        if classes[i] >= 13 {
            return false;
        }
        i = i + 1;
    }
    true
}

fn out_of_range_pin(pin: &Option<Vec<u8>>) -> (r: bool)
    ensures
        r == pin_out_of_range(*pin),
{
    match pin {
        Some(p) => p.len() == 3 && !all_in_range(p),
        None => false,
    }
}

/// Whether checking the pins of a position would index a card class out of
/// range (see `pin_check_faults`): callers test this before `prepare_seed`.
pub fn pin_check_would_fault(spec: &SeedSpec) -> (r: bool)
    ensures
        r == pin_check_faults(*spec),
{
    let (hero_played, _) = match check_basics(spec) {
        Ok(p) => p,
        Err(_) => {
            return false;
        },
    };
    proof {
        lemma_played_valid(spec.history@, spec.human_player);
    }
    if out_of_range_pin(&spec.hero_hand) {
        return true;
    }
    let hero_ok = match check_pin(&spec.hero_hand, &hero_played, true) {
        Ok(()) => true,
        Err(_) => false,
    };
    hero_ok && out_of_range_pin(&spec.villain_hand)
}

/// Checks a studied position and prepares its deal: an `Invalid` error for
/// bad seats, a bad line, more than three plays by a seat or a bad pin (with
/// the first check's message when the seats are bad); `NoConsistentHand` when
/// the committed cards do not fit in the deck or a hand cannot be completed;
/// otherwise each seat's committed classes, the copies left per class and
/// every completion of each hand.
#[verifier::rlimit(40)]
pub fn prepare_seed(spec: &SeedSpec) -> (r: Result<SeedPlan, SeedError>)
    requires
        !pin_check_faults(*spec),
    ensures
        !(seat_ok(spec.human_player) && seat_ok(spec.dealer)) ==> (r matches Err(SeedError::Invalid(m))
            && m@ == "seats must be 0 or 1"@),
        r matches Err(SeedError::Invalid(_)) <==> !seed_well_formed(*spec),
        r matches Err(SeedError::NoConsistentHand) <==> (seed_well_formed(*spec) && !seed_feasible(*spec)),
        r matches Err(e) ==> !(e is History),
        r matches Ok(plan) ==> {
            &&& seed_feasible(*spec)
            &&& plan.villain_seat == villain_of(*spec)
            &&& plan.turnup == seed_turnup(*spec)
            &&& plan.hero_base@ == hero_base_of(*spec)
            &&& plan.villain_base@ == villain_base_of(*spec)
            &&& plan.avail@ == avail_after(*spec)
            &&& class_lists(plan.hero_completions@) == completions_of(avail_after(*spec), 0, 3 - hero_base_of(*spec).len())
            &&& class_lists(plan.villain_completions@) == completions_of(avail_after(*spec), 0, 3 - villain_base_of(*spec).len())
            &&& plan.pool.wf()
            &&& plan.pool@.len() == NUM_CLASSES
            &&& forall|c: int| 0 <= c < 13 ==> #[trigger] plan.pool@[c] == initial_options(seed_turnup(*spec), c)
        },
{
    let (hero_played, villain_played) = match check_basics(spec) {
        Ok(p) => p,
        Err(e) => {
            return Err(e);
        },
    };
    let villain_seat: u8 = 1 - spec.human_player;
    proof {
        lemma_played_valid(spec.history@, spec.human_player);
        lemma_played_valid(spec.history@, villain_seat);
    }
    match check_pin(&spec.hero_hand, &hero_played, true) {
        Ok(()) => {},
        Err(e) => {
            return Err(e);
        },
    }
    match check_pin(&spec.villain_hand, &villain_played, false) {
        Ok(()) => {},
        Err(e) => {
            return Err(e);
        },
    }
    assert(seed_well_formed(*spec));
    let hero_base = match &spec.hero_hand {
        Some(p) => p.clone(),
        None => hero_played,
    };
    let villain_base = match &spec.villain_hand {
        Some(p) => p.clone(),
        None => villain_played,
    };
    assert(hero_base@ == hero_base_of(*spec));
    assert(villain_base@ == villain_base_of(*spec));
    let turnup = Turnup { rank: spec.vira_rank, suit: Suit::Hearts };
    let pool = ConcretePool::new(&turnup);
    let committed = concat_classes(&hero_base, &villain_base);
    assert(all_classes_valid(committed@)) by {
        assert forall|i: int| 0 <= i < committed@.len() implies #[trigger] committed@[i] < 13 by {
            if i < hero_base@.len() {
                assert(committed@[i] == hero_base@[i]);
            } else {
                assert(committed@[i] == villain_base@[i - hero_base@.len()]);
            }
        }
    }
    let avail = match count_left(&pool, &committed) {
        Some(a) => a,
        None => {
            assert(!commit_fits(*spec)) by {
                let c = choose|c: int| 0 <= c < 13 && pool@[c].len() < class_count(committed@, c as u8);
                assert(left_after_commit(*spec, c) < 0);
            }
            return Err(SeedError::NoConsistentHand);
        },
    };
    assert(commit_fits(*spec)) by {
        assert forall|c: int| 0 <= c < 13 implies #[trigger] left_after_commit(*spec, c) >= 0 by {
            assert(avail@[c] as int == pool@[c].len() - class_count(committed@, c as u8));
        }
    }
    assert(avail@ =~= avail_after(*spec)) by {
        assert forall|c: int| 0 <= c < 13 implies #[trigger] avail@[c] == avail_after(*spec)[c] by {
            assert(avail@[c] as int == pool@[c].len() - class_count(committed@, c as u8));
        }
    }
    let hero_completions = completions_from(&avail, 0, 3 - hero_base.len());
    let villain_completions = completions_from(&avail, 0, 3 - villain_base.len());
    if hero_completions.len() == 0 || villain_completions.len() == 0 {
        return Err(SeedError::NoConsistentHand);
    }
    Ok(SeedPlan {
        villain_seat,
        turnup,
        hero_base,
        villain_base,
        avail,
        hero_completions,
        villain_completions,
        pool,
    })
}

/// Every pair of the deal weight table: entry `i * V + j` weighs hero
/// completion `i` with villain completion `j` (V villain completions).
pub fn prior_weights(avail: &Vec<usize>, hero: &Vec<Vec<u8>>, villain: &Vec<Vec<u8>>) -> (r: Vec<u128>)
    requires
        avail@.len() == 13,
        forall|c: int| 0 <= c < 13 ==> #[trigger] avail@[c] <= 4,
    ensures
        r@.len() == hero@.len() * villain@.len(),
        forall|i: int, j: int|
            0 <= i < hero@.len() && 0 <= j < villain@.len() ==> #[trigger] r@[i * villain@.len() + j] as nat
                == joint_prior_upto(avail@, hero@[i]@, villain@[j]@, 13),
{
    let mut out: Vec<u128> = Vec::new();
    let mut i: usize = 0;
    let nv = villain.len();
    while i < hero.len()
        invariant
            i <= hero@.len(),
            nv == villain@.len(),
            avail@.len() == 13,
            forall|c: int| 0 <= c < 13 ==> #[trigger] avail@[c] <= 4,
            out@.len() == i * nv,
            forall|a: int, b: int|
                0 <= a < i && 0 <= b < nv ==> #[trigger] out@[a * nv + b] as nat
                    == joint_prior_upto(avail@, hero@[a]@, villain@[b]@, 13),
        decreases hero.len() - i,
    {
        let mut j: usize = 0;
        while j < nv
            invariant
                j <= nv,
                i < hero@.len(),
                nv == villain@.len(),
                avail@.len() == 13,
                forall|c: int| 0 <= c < 13 ==> #[trigger] avail@[c] <= 4,
                out@.len() == i * nv + j,
                forall|a: int, b: int|
                    0 <= a < i && 0 <= b < nv ==> #[trigger] out@[a * nv + b] as nat
                        == joint_prior_upto(avail@, hero@[a]@, villain@[b]@, 13),
                forall|b: int|
                    0 <= b < j ==> #[trigger] out@[i * nv + b] as nat
                        == joint_prior_upto(avail@, hero@[i as int]@, villain@[b]@, 13),
            decreases nv - j,
        {
            let w = joint_prior(avail, &hero[i], &villain[j]);
            let ghost prev = out@;
            out.push(w);
            proof {
                assert forall|a: int, b: int|
                    0 <= a < i && 0 <= b < nv implies #[trigger] out@[a * nv + b] as nat
                        == joint_prior_upto(avail@, hero@[a]@, villain@[b]@, 13) by {
                    assert(a * nv + b < i * nv) by (nonlinear_arith)
                        requires
                            0 <= a < i,
                            0 <= b < nv,
                    ;
                    assert(out@[a * nv + b] == prev[a * nv + b]);
                }
            }
            j = j + 1;
        }
        proof {
            assert forall|a: int, b: int|
                0 <= a < i + 1 && 0 <= b < nv implies #[trigger] out@[a * nv + b] as nat
                    == joint_prior_upto(avail@, hero@[a]@, villain@[b]@, 13) by {
                if a == i {
                } else {
                    assert(a * nv + b < i * nv) by (nonlinear_arith)
                        requires
                            0 <= a < i,
                            0 <= b < nv,
                    ;
                }
            }
            assert((i + 1) * nv == i * nv + nv) by (nonlinear_arith);
        }
        i = i + 1;
    }
    out
}

/// The concrete cards the classes `0..n` of a pool view hold, as a multiset.
pub open spec fn pool_bag_upto(v: Seq<Seq<(Rank, Suit)>>, n: int) -> Multiset<(Rank, Suit)>
    decreases n,
{
    if n <= 0 {
        Multiset::empty()
    } else {
        pool_bag_upto(v, n - 1).add(v[n - 1].to_multiset())
    }
}

/// The concrete cards a pool view holds, as a multiset.
pub open spec fn pool_bag(v: Seq<Seq<(Rank, Suit)>>) -> Multiset<(Rank, Suit)> {
    pool_bag_upto(v, NUM_CLASSES as int)
}

/// The (rank, suit) pairs of a list of cards.
pub open spec fn card_pairs(cards: Seq<Card>) -> Seq<(Rank, Suit)> {
    cards.map_values(|c: Card| (c.rank, c.suit))
}

/// The pool holds enough copies of every class for the listed classes.
pub open spec fn deal_fits(v: Seq<Seq<(Rank, Suit)>>, classes: Seq<u8>) -> bool {
    forall|c: int| 0 <= c < 13 ==> #[trigger] class_count(classes, c as u8) <= v[c].len()
}

/// After dealing `cards` for the first classes of `classes` from the pool
/// `start`, the pool is `now`: the dealt cards left the pool, one copy of
/// each dealt class less, and each card is a card of its class.
pub open spec fn dealt_from(
    start: Seq<Seq<(Rank, Suit)>>,
    now: Seq<Seq<(Rank, Suit)>>,
    cards: Seq<Card>,
    classes: Seq<u8>,
    vira: Rank,
) -> bool {
    &&& cards.len() <= classes.len()
    &&& now.len() == NUM_CLASSES
    &&& pool_bag(start) == pool_bag(now).add(card_pairs(cards).to_multiset())
    &&& forall|c: int| 0 <= c < 13 ==> #[trigger] now[c].len() + class_count(classes.take(cards.len() as int), c as u8) == start[c].len()
    &&& forall|t: int| 0 <= t < cards.len() ==> class_of(#[trigger] cards[t].rank, cards[t].suit, vira) == classes[t]
        && pool_card((cards[t].rank, cards[t].suit), cards[t])
}

proof fn lemma_swap_remove_bag(o: Seq<(Rank, Suit)>, k: int)
    requires
        0 <= k < o.len(),
    ensures
        o.to_multiset() == o.update(k, o.last()).drop_last().to_multiset().insert(o[k]),
{
    broadcast use group_to_multiset_ensures, vstd::multiset::group_multiset_axioms;
    let u = o.update(k, o.last());
    assert(u =~= u.drop_last().push(o.last()));
    let m = u.drop_last().to_multiset();
    assert(u.to_multiset() == m.insert(o.last()));
    assert(u.to_multiset() == o.to_multiset().insert(o.last()).remove(o[k]));
    assert(o.contains(o[k]));
    assert(o.to_multiset().count(o[k]) > 0);
    assert forall|y: (Rank, Suit)| #[trigger] o.to_multiset().count(y) == m.insert(o[k]).count(y) by {
        assert(m.insert(o.last()).count(y) == o.to_multiset().insert(o.last()).remove(o[k]).count(y));
    }
    assert(o.to_multiset() =~= m.insert(o[k]));
}

proof fn lemma_bag_update(v: Seq<Seq<(Rank, Suit)>>, c: int, x: Seq<(Rank, Suit)>, a: (Rank, Suit), n: int)
    requires
        0 <= c < v.len(),
        0 <= n <= v.len(),
        v[c].to_multiset() == x.to_multiset().insert(a),
    ensures
        pool_bag_upto(v, n) == if n > c {
            pool_bag_upto(v.update(c, x), n).insert(a)
        } else {
            pool_bag_upto(v.update(c, x), n)
        },
    decreases n,
{
    broadcast use vstd::multiset::group_multiset_axioms;
    if n > 0 {
        lemma_bag_update(v, c, x, a, n - 1);
        let w = v.update(c, x);
        if n - 1 == c {
            assert(pool_bag_upto(v, n) =~= pool_bag_upto(w, n).insert(a));
        } else if n > c {
            assert(w[n - 1] == v[n - 1]);
            assert(pool_bag_upto(v, n) =~= pool_bag_upto(w, n).insert(a));
        } else {
            assert(w[n - 1] == v[n - 1]);
        }
    }
}

/// Takes the card of class `class` at `pick` (modulo what is left) out of the
/// pool and appends it to `cards`; `false`, with nothing dealt, when the
/// class has no copy left, which happens only when the classes need more
/// copies than `start` had.
fn deal_one(
    pool: &mut ConcretePool,
    cards: &mut Vec<Card>,
    class: u8,
    pick: usize,
    Ghost(start): Ghost<Seq<Seq<(Rank, Suit)>>>,
    Ghost(classes): Ghost<Seq<u8>>,
) -> (ok: bool)
    requires
        old(pool).wf(),
        dealt_from(start, old(pool)@, old(cards)@, classes, old(pool).vira_rank()),
        old(cards)@.len() < classes.len(),
        classes[old(cards)@.len() as int] == class,
        class < 13,
    ensures
        final(pool).wf(),
        final(pool).vira_rank() == old(pool).vira_rank(),
        ok ==> dealt_from(start, final(pool)@, final(cards)@, classes, old(pool).vira_rank())
            && final(cards)@.len() == old(cards)@.len() + 1,
        !ok ==> !deal_fits(start, classes),
{
    broadcast use group_to_multiset_ensures, vstd::multiset::group_multiset_axioms;
    let ghost before = pool@;
    let ghost dealt = cards@;
    let t = cards.len();
    proof {
        let ta = classes.take(t as int);
        let tb = classes.take(t as int + 1);
        assert(tb.drop_last() == ta);
        assert(tb.last() == class);
        lemma_count_prefix(classes, t as int + 1, class);
    }
    match pool.take(class, pick) {
        Some(card) => {
            cards.push(card);
            proof {
                let o = before[class as int];
                let k = pick as int % o.len() as int;
                let x = o.update(k, o.last()).drop_last();
                lemma_swap_remove_bag(o, k);
                lemma_bag_update(before, class as int, x, o[k], 13);
                assert(pool@ == before.update(class as int, x));
                assert(card_pairs(cards@) =~= card_pairs(dealt).push(o[k]));
                assert(pool_bag(start) =~= pool_bag(pool@).add(card_pairs(cards@).to_multiset()));
                let ta = classes.take(t as int);
                let tb = classes.take(t as int + 1);
                assert forall|c: int| 0 <= c < 13 implies #[trigger] pool@[c].len() + class_count(
                    classes.take(cards@.len() as int),
                    c as u8,
                ) == start[c].len() by {
                    assert(before[c].len() + class_count(ta, c as u8) == start[c].len());
                    if c != class as int {
                        assert(pool@[c] == before[c]);
                    }
                }
                assert forall|u: int| 0 <= u < cards@.len() implies class_of(
                    #[trigger] cards@[u].rank,
                    cards@[u].suit,
                    old(pool).vira_rank(),
                ) == classes[u] && pool_card((cards@[u].rank, cards@[u].suit), cards@[u]) by {
                    if u < t {
                        assert(cards@[u] == dealt[u]);
                    }
                }
            }
            true
        },
        None => {
            proof {
                assert(before[class as int].len() + class_count(classes.take(t as int), class) == start[class as int].len());
                assert(class_count(classes, (class as int) as u8) > start[class as int].len());
            }
            false
        },
    }
}

/// Deals one hand: each committed class of `base` takes the first remaining
/// copy of its class, each class of `completion` a copy drawn uniformly from
/// what is left. The deal succeeds exactly when the pool holds enough copies
/// of every class; the dealt cards then leave the pool, so a pool never deals
/// a card twice.
pub fn realize_hand(
    pool: &mut ConcretePool,
    base: &Vec<u8>,
    completion: &Vec<u8>,
    rng: &mut StdRng,
) -> (r: Result<Vec<Card>, SeedError>)
    requires
        old(pool).wf(),
        all_classes_valid(base@),
        all_classes_valid(completion@),
    ensures
        final(pool).wf(),
        final(pool).vira_rank() == old(pool).vira_rank(),
        r is Ok <==> deal_fits(old(pool)@, base@ + completion@),
        r matches Err(e) ==> e == SeedError::NoConsistentHand,
        r matches Ok(cards) ==> {
            &&& cards@.len() == base@.len() + completion@.len()
            &&& dealt_from(old(pool)@, final(pool)@, cards@, base@ + completion@, old(pool).vira_rank())
        },
{
    let ghost start = pool@;
    let ghost classes = base@ + completion@;
    let mut cards: Vec<Card> = Vec::new();
    proof {
        broadcast use group_to_multiset_ensures, vstd::multiset::group_multiset_axioms;
        assert(card_pairs(cards@) =~= Seq::<(Rank, Suit)>::empty());
        assert(pool_bag(start) =~= pool_bag(pool@).add(card_pairs(cards@).to_multiset()));
        assert forall|c: int| 0 <= c < 13 implies #[trigger] pool@[c].len() + class_count(
            classes.take(0),
            c as u8,
        ) == start[c].len() by {
            assert(classes.take(0).len() == 0);
        }
    }
    let mut i: usize = 0;
    while i < base.len()
        invariant
            i <= base@.len(),
            classes == base@ + completion@,
            start == old(pool)@,
            pool.wf(),
            pool.vira_rank() == old(pool).vira_rank(),
            all_classes_valid(base@),
            cards@.len() == i,
            dealt_from(start, pool@, cards@, classes, old(pool).vira_rank()),
        decreases base.len() - i,
    {
        assert(classes[i as int] == base@[i as int]);
        if !deal_one(pool, &mut cards, base[i], 0, Ghost(start), Ghost(classes)) {
            return Err(SeedError::NoConsistentHand);
        }
        i = i + 1;
    }
    let mut j: usize = 0;
    while j < completion.len()
        invariant
            j <= completion@.len(),
            classes == base@ + completion@,
            start == old(pool)@,
            pool.wf(),
            pool.vira_rank() == old(pool).vira_rank(),
            all_classes_valid(completion@),
            cards@.len() == base@.len() + j,
            dealt_from(start, pool@, cards@, classes, old(pool).vira_rank()),
        decreases completion.len() - j,
    {
        assert(classes[base@.len() + j] == completion@[j as int]);
        let pick = gen_index(rng, usize::MAX);
        if !deal_one(pool, &mut cards, completion[j], pick, Ghost(start), Ghost(classes)) {
            return Err(SeedError::NoConsistentHand);
        }
        j = j + 1;
    }
    proof {
        assert(classes.take(cards@.len() as int) == classes);
        assert forall|c: int| 0 <= c < 13 implies #[trigger] class_count(classes, c as u8) <= start[c].len() by {
            assert(pool@[c].len() + class_count(classes, c as u8) == start[c].len());
        }
    }
    Ok(cards)
}

/// How the villain's hand was chosen: pinned when the lab fixed it; else
/// from the posterior when every needed likelihood was available and the
/// line kept some mass; else from the prior alone.
pub fn sampling_mode(villain_pinned: bool, posterior_has_mass: bool) -> (r: VillainSampling)
    ensures
        r == (if villain_pinned {
            VillainSampling::Pinned
        } else if posterior_has_mass {
            VillainSampling::Posterior
        } else {
            VillainSampling::Prior
        }),
{
    if villain_pinned {
        VillainSampling::Pinned
    } else if posterior_has_mass {
        VillainSampling::Posterior
    } else {
        VillainSampling::Prior
    }
}

/// The first card of `hand` whose class under `turnup` is `class`, if any.
#[verifier::opaque]
pub open spec fn first_of_class(hand: Seq<Card>, turnup: Turnup, class: u8) -> Option<int> {
    if exists|k: int| 0 <= k < hand.len() && class_of(hand[k].rank, hand[k].suit, turnup.rank) == class {
        Some(
            choose|k: int|
                0 <= k < hand.len() && class_of(hand[k].rank, hand[k].suit, turnup.rank) == class
                    && forall|m: int|
                    0 <= m < k ==> class_of(hand[m].rank, hand[m].suit, turnup.rank) != class,
        )
    } else {
        None
    }
}

/// The position of the first card of `hand` of class `class` under `turnup`.
pub fn find_class_card(hand: &Vec<Card>, turnup: &Turnup, class: u8) -> (r: Option<usize>)
    ensures
        match r {
            Some(k) => first_of_class(hand@, *turnup, class) == Some(k as int),
            None => first_of_class(hand@, *turnup, class) is None,
        },
        r matches Some(k) ==> k < hand@.len() && class_of(hand@[k as int].rank, hand@[k as int].suit, turnup.rank) == class,
{
    let mut k: usize = 0;
    while k < hand.len()
        invariant
            k <= hand@.len(),
            forall|m: int| 0 <= m < k ==> class_of(hand@[m].rank, hand@[m].suit, turnup.rank) != class,
        decreases hand.len() - k,
    {
        if abstract_card(&hand[k], turnup) == class {
            proof {
                lemma_first_of_class(hand@, *turnup, class, k as int);
            }
            return Some(k);
        }
        k = k + 1;
    }
    proof {
        lemma_no_card_of_class(hand@, *turnup, class);
    }
    None
}

/// "seat S does not hold a card of class C at step N".
pub open spec fn missing_card_message(seat: Player, class: u8, step: usize) -> Seq<char> {
    "seat "@ + crate::text::decimal(seat as nat) + " does not hold a card of class "@
        + crate::text::decimal(class as nat) + " at step "@ + crate::text::decimal(step as nat)
}

/// The concrete action a line entry takes from the seat's current hand; a
/// play names the first held card of its class, which is also returned.
pub open spec fn entry_action(kind: SeededActionKind, card: Option<Card>) -> Option<Action> {
    match kind {
        SeededActionKind::PlayFaceUp { .. } => match card {
            Some(c) => Some(Action::PlayFaceUp { card_id: c.id }),
            None => None,
        },
        SeededActionKind::PlayFaceDown { .. } => match card {
            Some(c) => Some(Action::PlayFaceDown { card_id: c.id }),
            None => None,
        },
        SeededActionKind::Raise { to } => Some(Action::Raise { to }),
        SeededActionKind::AcceptRaise => Some(Action::AcceptRaise),
        SeededActionKind::Fold => Some(Action::Fold),
        SeededActionKind::AcceptEleven => Some(Action::AcceptEleven),
        SeededActionKind::FoldEleven => Some(Action::FoldEleven),
    }
}

/// Turns a line entry into the engine action it replays, for `seat` holding
/// `hand` at step `step`: a play takes the first held card of its class
/// (`Invalid` for a class out of range, `History` when none is held); every
/// other entry maps to its action with no card.
#[verifier::rlimit(30)]
pub fn history_action(
    kind: &SeededActionKind,
    hand: &Vec<Card>,
    turnup: &Turnup,
    seat: Player,
    step: usize,
) -> (r: Result<(Action, Option<Card>), SeedError>)
    ensures
        match played_class_of(*kind) {
            None => r == Ok::<(Action, Option<Card>), SeedError>((entry_action(*kind, None)->0, None)),
            Some(class) => if class >= 13 {
                r matches Err(SeedError::Invalid(m)) && m@ == class_range_message(class)
            } else {
                match first_of_class(hand@, *turnup, class) {
                    None => r matches Err(SeedError::History(m)) && m@ == missing_card_message(
                        seat,
                        class,
                        step,
                    ),
                    Some(k) => r == Ok::<(Action, Option<Card>), SeedError>(
                        (entry_action(*kind, Some(hand@[k]))->0, Some(hand@[k])),
                    ),
                }
            },
        },
{
    let class = match kind {
        SeededActionKind::PlayFaceUp { class } => *class,
        SeededActionKind::PlayFaceDown { class } => *class,
        SeededActionKind::Raise { to } => {
            return Ok((Action::Raise { to: *to }, None));
        },
        SeededActionKind::AcceptRaise => {
            return Ok((Action::AcceptRaise, None));
        },
        SeededActionKind::Fold => {
            return Ok((Action::Fold, None));
        },
        SeededActionKind::AcceptEleven => {
            return Ok((Action::AcceptEleven, None));
        },
        SeededActionKind::FoldEleven => {
            return Ok((Action::FoldEleven, None));
        },
    };
    let target = match class_card(class) {
        Ok(c) => c,
        Err(e) => {
            return Err(e);
        },
    };
    if let Some(k) = find_class_card(hand, turnup, target) {
        let card = hand[k].clone();
        let id = card.id.clone();
        let action = match kind {
            SeededActionKind::PlayFaceUp { .. } => Action::PlayFaceUp { card_id: id },
            _ => Action::PlayFaceDown { card_id: id },
        };
        return Ok((action, Some(card)));
    }
    let mut m = String::from_str("seat ");
    let s1 = format_u64(seat as u64);
    m.append(s1.as_str());
    m.append(" does not hold a card of class ");
    let s2 = format_u64(class as u64);
    m.append(s2.as_str());
    m.append(" at step ");
    let s3 = format_u64(step as u64);
    m.append(s3.as_str());
    Err(SeedError::History(m))
}

/// "seat S acts out of turn at step N".
pub open spec fn out_of_turn_message(seat: Player, step: usize) -> Seq<char> {
    "seat "@ + crate::text::decimal(seat as nat) + " acts out of turn at step "@ + crate::text::decimal(
        step as nat,
    )
}

/// The replay's turn check before a line entry: the entry's seat must be the
/// player the rules engine says is to act (none once the hand or match is
/// over), else a `History` error naming the seat and the step.
pub fn check_entry_turn(to_act: Option<Player>, seat: Player, step: usize) -> (r: Result<(), SeedError>)
    ensures
        r is Ok <==> to_act == Some(seat),
        r matches Err(e) ==> e matches SeedError::History(m) && m@ == out_of_turn_message(seat, step),
{
    if to_act == Some(seat) {
        return Ok(());
    }
    let mut m = String::from_str("seat ");
    let s1 = format_u64(seat as u64);
    m.append(s1.as_str());
    m.append(" acts out of turn at step ");
    let s2 = format_u64(step as u64);
    m.append(s2.as_str());
    Err(SeedError::History(m))
}

/// The replay's closing check: the hand must still be live once the whole
/// line is replayed (the match not won, the hand neither won nor gone),
/// else a `History` error saying that nothing is left to play.
pub fn check_line_leaves_play(match_won: bool, hand_over: bool) -> (r: Result<(), SeedError>)
    ensures
        r is Ok <==> (!match_won && !hand_over),
        r matches Err(e) ==> e matches SeedError::History(m)
            && m@ == "the line already ends the hand; there is nothing left to play"@,
{
    if !match_won && !hand_over {
        Ok(())
    } else {
        Err(
            SeedError::History(
                String::from_str("the line already ends the hand; there is nothing left to play"),
            ),
        )
    }
}

proof fn lemma_no_card_of_class(hand: Seq<Card>, turnup: Turnup, class: u8)
    requires
        forall|m: int| 0 <= m < hand.len() ==> class_of(hand[m].rank, hand[m].suit, turnup.rank) != class,
    ensures
        first_of_class(hand, turnup, class) is None,
{
    reveal(first_of_class);
}

proof fn lemma_first_of_class(hand: Seq<Card>, turnup: Turnup, class: u8, k: int)
    requires
        0 <= k < hand.len(),
        class_of(hand[k].rank, hand[k].suit, turnup.rank) == class,
        forall|m: int| 0 <= m < k ==> class_of(hand[m].rank, hand[m].suit, turnup.rank) != class,
    ensures
        first_of_class(hand, turnup, class) == Some(k),
{
    reveal(first_of_class);
    let f = first_of_class(hand, turnup, class)->0;
    assert(first_of_class(hand, turnup, class) is Some);
    if f < k {
        assert(class_of(hand[f].rank, hand[f].suit, turnup.rank) != class);
    } else if f > k {
        assert(class_of(hand[k].rank, hand[k].suit, turnup.rank) != class);
    }
}

pub proof fn lemma_rank_index_roundtrip(r: Rank)
    ensures
        rank_at(rank_index(r)) == r,
        rank_index(r) < 10,
{
}

pub proof fn lemma_rank_at_index(i: nat)
    requires
        i < 10,
    ensures
        rank_index(rank_at(i)) == i,
{
}

/// Each card of a class's initial pool belongs to that class and is not the turnup.
pub proof fn lemma_initial_options_class(vira: Turnup, c: int, k: int)
    requires
        0 <= c < 13,
        0 <= k < initial_options(vira, c).len(),
    ensures
        class_of(initial_options(vira, c)[k].0, initial_options(vira, c)[k].1, vira.rank) == c,
        initial_options(vira, c)[k] != (vira.rank, vira.suit),
{
    let mi = rank_index(manilha_rank_of(vira.rank));
    lemma_rank_index_roundtrip(vira.rank);
    lemma_rank_index_roundtrip(manilha_rank_of(vira.rank));
    if c < 9 {
        let r = plain_rank(vira.rank, c as nat);
        let i: nat = if (c as nat) < mi { c as nat } else { (c + 1) as nat };
        lemma_rank_at_index(i);
        let all = seq![(r, Suit::Diamonds), (r, Suit::Spades), (r, Suit::Hearts), (r, Suit::Clubs)];
        let keep = |p: (Rank, Suit)| !(p.0 == vira.rank && p.1 == vira.suit);
        #[allow(deprecated)]
        all.filter_lemma(keep);
        assert(initial_options(vira, c) == all.filter(keep));
        let p = all.filter(keep)[k];
        assert(all.filter(keep).contains(p));
        all.lemma_filter_contains_rev(keep, p);
        assert(all.contains(p));
        assert(p.0 == r);
        assert(r != manilha_rank_of(vira.rank));
    } else {
        assert(initial_options(vira, c)[k] == (manilha_rank_of(vira.rank), suit_at(c - 9)));
        assert(manilha_rank_of(vira.rank) != vira.rank);
    }
}

/// The pool is the deck without the turnup: a card other than the turnup is
/// among its class's initial cards, and the turnup is in none.
pub proof fn lemma_pool_is_deck_without_turnup(vira: Turnup, rank: Rank, suit: Suit)
    ensures
        (rank, suit) != (vira.rank, vira.suit) <==> initial_options(
            vira,
            class_of(rank, suit, vira.rank) as int,
        ).contains((rank, suit)),
        class_of(rank, suit, vira.rank) < 13,
{
    let c = class_of(rank, suit, vira.rank) as int;
    let m = manilha_rank_of(vira.rank);
    let mi = rank_index(m);
    lemma_rank_index_roundtrip(vira.rank);
    lemma_rank_index_roundtrip(m);
    lemma_rank_index_roundtrip(rank);
    if rank == m {
        assert(initial_options(vira, c)[0] == (rank, suit));
        assert(m != vira.rank);
    } else {
        let i = rank_index(rank);
        assert(i != mi);
        assert(plain_rank(vira.rank, c as nat) == rank);
        let all = seq![(rank, Suit::Diamonds), (rank, Suit::Spades), (rank, Suit::Hearts), (rank, Suit::Clubs)];
        let keep = |p: (Rank, Suit)| !(p.0 == vira.rank && p.1 == vira.suit);
        #[allow(deprecated)]
        all.filter_lemma(keep);
        let j: int = suit_strength(suit) as int;
        assert(all[j] == (rank, suit));
        if (rank, suit) != (vira.rank, vira.suit) {
            assert(keep(all[j]));
        } else {
            if all.filter(keep).contains((rank, suit)) {
                let k = choose|k: int| 0 <= k < all.filter(keep).len() && all.filter(keep)[k] == (rank, suit);
                assert(keep(all.filter(keep)[k]));
            }
        }
    }
    if (rank, suit) == (vira.rank, vira.suit) {
        if initial_options(vira, c).contains((rank, suit)) {
            let k = choose|k: int| 0 <= k < initial_options(vira, c).len() && initial_options(vira, c)[k] == (rank, suit);
            lemma_initial_options_class(vira, c, k);
        }
    }
}

proof fn lemma_suits_except_counts(rank: Rank, vira: Turnup)
    ensures
        suits_except(rank, vira).len() == if rank == vira.rank { 3int } else { 4int },
        suits_except(rank, vira).no_duplicates(),
{
    let a = (rank, Suit::Diamonds);
    let b = (rank, Suit::Spades);
    let c = (rank, Suit::Hearts);
    let d = (rank, Suit::Clubs);
    let keep = |p: (Rank, Suit)| !(p.0 == vira.rank && p.1 == vira.suit);
    let e = Seq::<(Rank, Suit)>::empty();
    assert(seq![a, b, c, d] =~= e.push(a).push(b).push(c).push(d));
    assert(e.filter(keep) =~= e) by {
        reveal(Seq::filter);
    }
    e.lemma_filter_push(a, keep);
    e.push(a).lemma_filter_push(b, keep);
    e.push(a).push(b).lemma_filter_push(c, keep);
    e.push(a).push(b).push(c).lemma_filter_push(d, keep);
    let f = suits_except(rank, vira);
    assert(f == e.push(a).push(b).push(c).push(d).filter(keep));
    if rank != vira.rank {
        assert(f =~= seq![a, b, c, d]);
    } else if vira.suit == Suit::Diamonds {
        assert(f =~= seq![b, c, d]);
    } else if vira.suit == Suit::Spades {
        assert(f =~= seq![a, c, d]);
    } else if vira.suit == Suit::Hearts {
        assert(f =~= seq![a, b, d]);
    } else {
        assert(f =~= seq![a, b, c]);
    }
    assert forall|i: int, j: int| 0 <= i < f.len() && 0 <= j < f.len() && i != j implies f[i] != f[j] by {
        assert(suit_strength(f[i].1) != suit_strength(f[j].1));
    }
}

/// The plain level of the turnup's own rank.
pub open spec fn turnup_level(vira_rank: Rank) -> nat {
    if vira_rank == Rank::Three { 8 } else { rank_index(vira_rank) }
}

proof fn lemma_plain_rank_levels(vira_rank: Rank)
    ensures
        turnup_level(vira_rank) < 9,
        plain_rank(vira_rank, turnup_level(vira_rank)) == vira_rank,
        forall|c: nat| c < 9 && c != turnup_level(vira_rank) ==> #[trigger] plain_rank(vira_rank, c) != vira_rank,
        forall|c1: nat, c2: nat| c1 < c2 < 9 ==> #[trigger] plain_rank(vira_rank, c1) != #[trigger] plain_rank(vira_rank, c2),
{
    let m = manilha_rank_of(vira_rank);
    lemma_rank_index_roundtrip(vira_rank);
    lemma_rank_index_roundtrip(m);
    assert forall|c: nat| c < 9 && c != turnup_level(vira_rank) implies #[trigger] plain_rank(vira_rank, c) != vira_rank by {
        let mi = rank_index(m);
        let i: nat = if c < mi { c } else { c + 1 };
        lemma_rank_at_index(i);
    }
    assert forall|c1: nat, c2: nat| c1 < c2 < 9 implies #[trigger] plain_rank(vira_rank, c1) != #[trigger] plain_rank(vira_rank, c2) by {
        let mi = rank_index(m);
        let i1: nat = if c1 < mi { c1 } else { c1 + 1 };
        let i2: nat = if c2 < mi { c2 } else { c2 + 1 };
        lemma_rank_at_index(i1);
        lemma_rank_at_index(i2);
    }
}

/// The number of cards the first `n` classes start with.
pub open spec fn pool_size_below(vira: Turnup, n: int) -> nat
    decreases n,
{
    if n <= 0 {
        0
    } else {
        pool_size_below(vira, n - 1) + initial_options(vira, n - 1).len()
    }
}

proof fn lemma_pool_size_below(vira: Turnup, n: int)
    requires
        0 <= n <= 13,
        forall|c: int| 0 <= c < 9 ==> #[trigger] initial_options(vira, c).len() == if c == turnup_level(vira.rank) { 3int } else { 4int },
        forall|c: int| 9 <= c < 13 ==> #[trigger] initial_options(vira, c).len() == 1,
    ensures
        pool_size_below(vira, n) == if n <= 9 {
            4 * n - if turnup_level(vira.rank) < n { 1int } else { 0int }
        } else {
            35 + (n - 9)
        },
    decreases n,
{
    if n > 0 {
        lemma_pool_size_below(vira, n - 1);
        assert(initial_options(vira, n - 1).len() >= 1);
    }
}

/// The pool a turnup leaves: each plain level holds its rank's four suits,
/// except the turnup's own level, which holds three; each manilha class holds
/// its one card; 39 cards in all, none twice.
pub proof fn lemma_pool_counts(vira: Turnup)
    ensures
        forall|c: int| 0 <= c < 9 ==> #[trigger] initial_options(vira, c).len() == if plain_rank(vira.rank, c as nat)
            == vira.rank { 3int } else { 4int },
        forall|c: int| 9 <= c < 13 ==> #[trigger] initial_options(vira, c).len() == 1,
        forall|c: int| 0 <= c < 9 ==> (#[trigger] plain_rank(vira.rank, c as nat) == vira.rank <==> c == turnup_level(vira.rank)),
        turnup_level(vira.rank) < 9,
        pool_size_below(vira, 13) == 39,
        forall|c: int| 0 <= c < 13 ==> #[trigger] initial_options(vira, c).no_duplicates(),
        forall|c1: int, c2: int, k1: int, k2: int|
            0 <= c1 < 13 && 0 <= c2 < 13 && c1 != c2 && 0 <= k1 < initial_options(vira, c1).len() && 0 <= k2
                < initial_options(vira, c2).len() ==> #[trigger] initial_options(vira, c1)[k1]
                != #[trigger] initial_options(vira, c2)[k2],
{
    lemma_plain_rank_levels(vira.rank);
    assert forall|c: int| 0 <= c < 9 implies #[trigger] initial_options(vira, c).len() == if plain_rank(vira.rank, c as nat)
        == vira.rank { 3int } else { 4int } && initial_options(vira, c).no_duplicates() by {
        lemma_suits_except_counts(plain_rank(vira.rank, c as nat), vira);
    }
    assert forall|c: int| 0 <= c < 9 implies (#[trigger] plain_rank(vira.rank, c as nat) == vira.rank <==> c == turnup_level(vira.rank)) by {
        if c != turnup_level(vira.rank) {
            assert(plain_rank(vira.rank, c as nat) != vira.rank);
        }
    }
    assert forall|c: int| 9 <= c < 13 implies #[trigger] initial_options(vira, c).len() == 1 && initial_options(vira, c).no_duplicates() by {
    }
    assert forall|c: int| 0 <= c < 9 implies #[trigger] initial_options(vira, c).len() == if c == turnup_level(vira.rank) { 3int } else { 4int } by {
        assert(plain_rank(vira.rank, c as nat) == vira.rank <==> c == turnup_level(vira.rank));
    }
    lemma_pool_size_below(vira, 13);
    assert forall|c1: int, c2: int, k1: int, k2: int|
        0 <= c1 < 13 && 0 <= c2 < 13 && c1 != c2 && 0 <= k1 < initial_options(vira, c1).len() && 0 <= k2
            < initial_options(vira, c2).len() implies #[trigger] initial_options(vira, c1)[k1]
            != #[trigger] initial_options(vira, c2)[k2] by {
        lemma_initial_options_class(vira, c1, k1);
        lemma_initial_options_class(vira, c2, k2);
    }
}

/// The copies left of the classes `class..13`.
pub open spec fn copies_from(avail: Seq<usize>, class: int) -> nat
    decreases 13 - class,
{
    if class >= 13 || class < 0 {
        0
    } else {
        avail[class] as nat + copies_from(avail, class + 1)
    }
}

/// The deal weight of one completion on its own: per class, the ways to deal
/// its copies of that class from the copies left.
pub open spec fn completion_weight(avail: Seq<usize>, s: Seq<u8>) -> nat {
    joint_prior_upto(avail, s, Seq::empty(), 13)
}

/// The summed deal weights of a list of completions.
pub open spec fn total_weight(avail: Seq<usize>, list: Seq<Seq<u8>>) -> nat
    decreases list.len(),
{
    if list.len() == 0 {
        0
    } else {
        total_weight(avail, list.drop_last()) + completion_weight(avail, list.last())
    }
}

/// The first `n` terms (those with `t <= r`) of the sum over `t` of
/// `binom(a, t) * binom(b, r - t)`.
pub open spec fn vandermonde_sum(a: nat, b: nat, r: nat, n: nat) -> nat
    decreases n,
{
    if n == 0 {
        0
    } else {
        vandermonde_sum(a, b, r, (n - 1) as nat) + if n - 1 <= r {
            binom(a, (n - 1) as nat) * binom(b, (r - (n - 1)) as nat)
        } else {
            0
        }
    }
}

proof fn lemma_vandermonde_none(b: nat, r: nat, n: nat)
    requires
        n >= 1,
    ensures
        vandermonde_sum(0, b, r, n) == binom(b, r),
    decreases n,
{
    let t = (n - 1) as nat;
    if n > 1 {
        lemma_vandermonde_none(b, r, t);
        assert(binom(0, t) == 0);
        assert(binom(0, t) * binom(b, (r - t) as nat) == 0);
    } else {
        assert(binom(0, 0) == 1);
        assert(binom(0, 0) * binom(b, r) == binom(b, r));
        assert(vandermonde_sum(0, b, r, 0) == 0);
    }
}

proof fn lemma_vandermonde_split(a: nat, b: nat, r: nat, n: nat)
    requires
        a >= 1,
        r >= 1,
        n <= r + 1,
    ensures
        vandermonde_sum(a, b, r, n) == (if n >= 1 { vandermonde_sum((a - 1) as nat, b, (r - 1) as nat, (n - 1) as nat) } else { 0 })
            + vandermonde_sum((a - 1) as nat, b, r, n),
    decreases n,
{
    if n >= 1 {
        lemma_vandermonde_split(a, b, r, (n - 1) as nat);
        let t = (n - 1) as nat;
        let z = binom(b, (r - t) as nat);
        if t == 0 {
            assert(binom(a, 0) == 1 && binom((a - 1) as nat, 0) == 1);
        } else {
            let x = binom((a - 1) as nat, (t - 1) as nat);
            let y = binom((a - 1) as nat, t);
            assert(binom(a, t) == x + y);
            assert((x + y) * z == x * z + y * z) by (nonlinear_arith);
            assert(((r - 1) as nat - (t - 1) as nat) as nat == (r - t) as nat);
        }
    }
}

/// Vandermonde's identity.
proof fn lemma_vandermonde(a: nat, b: nat, r: nat)
    ensures
        vandermonde_sum(a, b, r, r + 1) == binom(a + b, r),
    decreases a,
{
    if a == 0 {
        lemma_vandermonde_none(b, r, r + 1);
    } else if r == 0 {
        assert(vandermonde_sum(a, b, 0, 0) == 0);
        assert(binom(a, 0) == 1 && binom(b, 0) == 1);
        assert(binom(a, 0) * binom(b, 0) == 1) by (nonlinear_arith)
            requires
                binom(a, 0) == 1 && binom(b, 0) == 1,
        ;
    } else {
        lemma_vandermonde_split(a, b, r, r + 1);
        lemma_vandermonde((a - 1) as nat, b, (r - 1) as nat);
        lemma_vandermonde((a - 1) as nat, b, r);
        assert(binom(a + b, r) == binom((a + b - 1) as nat, (r - 1) as nat) + binom((a + b - 1) as nat, r));
        assert((a - 1) as nat + b == (a + b - 1) as nat);
    }
}

proof fn lemma_vandermonde_tail(a: nat, b: nat, r: nat, m: nat, n: nat)
    requires
        a + 1 <= m <= n,
    ensures
        vandermonde_sum(a, b, r, n) == vandermonde_sum(a, b, r, m),
    decreases n,
{
    if n > m {
        lemma_vandermonde_tail(a, b, r, m, (n - 1) as nat);
        lemma_binom_bound(a, (n - 1) as nat);
    }
}

proof fn lemma_single_factor(avail: Seq<usize>, s: Seq<u8>, c: int)
    requires
        0 <= c < avail.len(),
    ensures
        prior_factor(avail, s, Seq::empty(), c) == binom(avail[c] as nat, class_count(s, c as u8)),
{
    let h = class_count(s, c as u8);
    assert(class_count(Seq::<u8>::empty(), c as u8) == 0);
    lemma_binom_bound(avail[c] as nat, h);
    if h <= avail[c] {
        assert(binom((avail[c] - h) as nat, 0) == 1);
    }
}

proof fn lemma_weight_empty(avail: Seq<usize>, n: int)
    requires
        0 <= n <= avail.len(),
    ensures
        joint_prior_upto(avail, Seq::empty(), Seq::empty(), n) == 1,
    decreases n,
{
    if n > 0 {
        lemma_weight_empty(avail, n - 1);
        lemma_single_factor(avail, Seq::empty(), n - 1);
        assert(class_count(Seq::<u8>::empty(), (n - 1) as u8) == 0);
    }
}

proof fn lemma_weight_prefix(avail: Seq<usize>, class: int, t: nat, s: Seq<u8>, n: int)
    requires
        0 <= class < 13,
        avail.len() == 13,
        0 <= n <= 13,
        forall|i: int| 0 <= i < s.len() ==> class < #[trigger] s[i],
    ensures
        joint_prior_upto(avail, repeat_class(class as u8, t) + s, Seq::empty(), n) == joint_prior_upto(
            avail,
            s,
            Seq::empty(),
            n,
        ) * if n > class { binom(avail[class] as nat, t) } else { 1 },
    decreases n,
{
    if n > 0 {
        let x = repeat_class(class as u8, t) + s;
        let c = n - 1;
        lemma_weight_prefix(avail, class, t, s, c);
        lemma_single_factor(avail, x, c);
        lemma_single_factor(avail, s, c);
        lemma_count_concat(repeat_class(class as u8, t), s, c as u8);
        lemma_count_repeat(class as u8, t, c as u8);
        let p = joint_prior_upto(avail, s, Seq::empty(), c);
        let fx = prior_factor(avail, x, Seq::empty(), c);
        let fs = prior_factor(avail, s, Seq::empty(), c);
        let b = binom(avail[class] as nat, t);
        if c == class {
            assert forall|i: int| 0 <= i < s.len() implies #[trigger] s[i] != c as u8 by {}
            lemma_count_absent(s, c as u8);
            assert(fs == 1);
            assert(fx == b);
        } else {
            assert(fx == fs);
            let k = if c > class { b } else { 1 };
            assert((p * k) * fx == (p * fs) * k) by (nonlinear_arith)
                requires
                    fx == fs,
            ;
        }
    }
}

proof fn lemma_total_concat(avail: Seq<usize>, l1: Seq<Seq<u8>>, l2: Seq<Seq<u8>>)
    ensures
        total_weight(avail, l1 + l2) == total_weight(avail, l1) + total_weight(avail, l2),
    decreases l2.len(),
{
    if l2.len() == 0 {
        assert(l1 + l2 == l1);
    } else {
        lemma_total_concat(avail, l1, l2.drop_last());
        assert((l1 + l2).drop_last() == l1 + l2.drop_last());
    }
}

proof fn lemma_total_prefixed(avail: Seq<usize>, class: int, t: nat, list: Seq<Seq<u8>>)
    requires
        0 <= class < 13,
        avail.len() == 13,
        forall|k: int, i: int| 0 <= k < list.len() && 0 <= i < list[k].len() ==> class < #[trigger] list[k][i],
    ensures
        total_weight(avail, list.map_values(|s: Seq<u8>| repeat_class(class as u8, t) + s)) == binom(
            avail[class] as nat,
            t,
        ) * total_weight(avail, list),
    decreases list.len(),
{
    let f = |s: Seq<u8>| repeat_class(class as u8, t) + s;
    let b = binom(avail[class] as nat, t);
    if list.len() == 0 {
        assert(list.map_values(f).len() == 0);
        assert(b * 0 == 0);
    } else {
        let rest = list.drop_last();
        lemma_total_prefixed(avail, class, t, rest);
        assert(list.map_values(f).drop_last() == rest.map_values(f));
        let last = list.last();
        assert forall|i: int| 0 <= i < last.len() implies class < #[trigger] last[i] by {
            assert(last[i] == list[list.len() - 1][i]);
        }
        lemma_weight_prefix(avail, class, t, last, 13);
        assert(list.map_values(f).last() == f(last));
        let tr = total_weight(avail, rest);
        let w = completion_weight(avail, last);
        assert(completion_weight(avail, f(last)) == w * b);
        assert(total_weight(avail, list.map_values(f)) == b * tr + w * b);
        assert(total_weight(avail, list) == tr + w);
        assert(b * tr + w * b == b * (tr + w)) by (nonlinear_arith);
    }
}

proof fn lemma_completions_weight(avail: Seq<usize>, class: int, remaining: int)
    requires
        avail.len() == 13,
        0 <= class <= 13,
        remaining >= 0,
    ensures
        total_weight(avail, completions_of(avail, class, remaining)) == binom(
            copies_from(avail, class),
            remaining as nat,
        ),
    decreases 13 - class, remaining + 2,
{
    let all = completions_of(avail, class, remaining);
    if remaining == 0 {
        assert(all == seq![Seq::<u8>::empty()]);
        assert(all.drop_last().len() == 0);
        assert(all.last() == Seq::<u8>::empty());
        lemma_weight_empty(avail, 13);
        assert(completion_weight(avail, Seq::<u8>::empty()) == 1);
        assert(total_weight(avail, all.drop_last()) == 0);
        assert(total_weight(avail, all) == total_weight(avail, all.drop_last()) + completion_weight(avail, all.last()));
        assert(total_weight(avail, all) == 1);
        assert(binom(copies_from(avail, class), 0) == 1);
    } else if class >= 13 {
        assert(all.len() == 0);
        assert(copies_from(avail, class) == 0);
        assert(binom(0, remaining as nat) == 0);
    } else {
        let a = avail[class] as nat;
        let rest = copies_from(avail, class + 1);
        assert(copies_from(avail, class) == a + rest);
        let most = if (avail[class] as int) < remaining { avail[class] as int } else { remaining };
        assert(all == completions_upto(avail, class, remaining, most + 1));
        lemma_upto_weight(avail, class, remaining, most + 1);
        lemma_vandermonde(a, rest, remaining as nat);
        if a < remaining {
            lemma_vandermonde_tail(a, rest, remaining as nat, (most + 1) as nat, (remaining + 1) as nat);
        }
        assert(vandermonde_sum(a, rest, remaining as nat, (most + 1) as nat) == binom(a + rest, remaining as nat));
    }
}

proof fn lemma_upto_weight(avail: Seq<usize>, class: int, remaining: int, takes: int)
    requires
        avail.len() == 13,
        0 <= class < 13,
        remaining > 0,
        0 <= takes <= remaining + 1,
        takes <= avail[class] + 1,
    ensures
        total_weight(avail, completions_upto(avail, class, remaining, takes)) == vandermonde_sum(
            avail[class] as nat,
            copies_from(avail, class + 1),
            remaining as nat,
            takes as nat,
        ),
    decreases 13 - class, takes,
{
    if takes > 0 {
        let t = takes - 1;
        lemma_upto_weight(avail, class, remaining, t);
        lemma_completions_weight(avail, class + 1, remaining - t);
        lemma_completions_fit(avail, class + 1, remaining - t);
        let prev = completions_upto(avail, class, remaining, t);
        let sub = completions_of(avail, class + 1, remaining - t);
        let f = |s: Seq<u8>| repeat_class(class as u8, t as nat) + s;
        assert(completions_upto(avail, class, remaining, takes) == prev + sub.map_values(f));
        assert forall|k: int, i: int| 0 <= k < sub.len() && 0 <= i < sub[k].len() implies class < #[trigger] sub[k][i] by {
            assert(fits(sub[k], avail, class + 1, remaining - t));
        }
        lemma_total_prefixed(avail, class, t as nat, sub);
        lemma_total_concat(avail, prev, sub.map_values(f));
    }
}

/// Deal weights: the completions of `unknowns` cards over the thirteen
/// classes, each weighted by the ways to deal it from the copies left, sum to
/// the ways of choosing `unknowns` of all the copies left.
pub proof fn lemma_completion_weights_sum(avail: Seq<usize>, unknowns: nat)
    requires
        avail.len() == 13,
    ensures
        total_weight(avail, completions_of(avail, 0, unknowns as int)) == binom(copies_from(avail, 0), unknowns),
{
    lemma_completions_weight(avail, 0, unknowns as int);
}

/// The class list is in nondecreasing order: a multiset of classes written
/// the one way the enumeration writes it.
pub open spec fn nondecreasing(s: Seq<u8>) -> bool {
    forall|i: int, j: int| 0 <= i <= j < s.len() ==> s[i] <= s[j]
}

proof fn lemma_count_prefixed(class: u8, t: nat, x: Seq<u8>)
    requires
        forall|i: int| 0 <= i < x.len() ==> class < #[trigger] x[i],
    ensures
        class_count(repeat_class(class, t) + x, class) == t,
{
    lemma_count_concat(repeat_class(class, t), x, class);
    lemma_count_repeat(class, t, class);
    assert forall|i: int| 0 <= i < x.len() implies #[trigger] x[i] != class by {}
    lemma_count_absent(x, class);
}

proof fn lemma_upto_sorted_distinct(avail: Seq<usize>, class: int, remaining: int, takes: int)
    requires
        avail.len() == 13,
        0 <= class < 13,
        remaining > 0,
        0 <= takes <= remaining + 1,
        takes <= avail[class] + 1,
    ensures
        ({
            let l = completions_upto(avail, class, remaining, takes);
            &&& forall|k: int| 0 <= k < l.len() ==> nondecreasing(#[trigger] l[k])
            &&& forall|k: int| 0 <= k < l.len() ==> class_count(#[trigger] l[k], class as u8) < takes
            &&& l.no_duplicates()
        }),
    decreases 13 - class, takes,
{
    if takes > 0 {
        let t = takes - 1;
        lemma_upto_sorted_distinct(avail, class, remaining, t);
        lemma_completions_sorted_distinct(avail, class + 1, remaining - t);
        lemma_completions_fit(avail, class + 1, remaining - t);
        let prev = completions_upto(avail, class, remaining, t);
        let sub = completions_of(avail, class + 1, remaining - t);
        let f = |s: Seq<u8>| repeat_class(class as u8, t as nat) + s;
        let m = sub.map_values(f);
        let l = completions_upto(avail, class, remaining, takes);
        assert(l == prev + m);
        assert forall|j: int| 0 <= j < sub.len() implies nondecreasing(#[trigger] m[j]) && class_count(
            m[j],
            class as u8,
        ) == t by {
            let x = sub[j];
            assert(fits(x, avail, class + 1, remaining - t));
            assert(m[j] == f(x));
            let y = f(x);
            assert forall|a: int, b: int| 0 <= a <= b < y.len() implies y[a] <= y[b] by {
                if a < t {
                    assert(y[a] == class as u8);
                    if b >= t {
                        assert(y[b] == x[b - t]);
                    }
                } else {
                    assert(y[a] == x[a - t] && y[b] == x[b - t]);
                }
            }
            assert forall|i: int| 0 <= i < x.len() implies (class as u8) < #[trigger] x[i] by {}
            lemma_count_prefixed(class as u8, t as nat, x);
        }
        assert forall|k: int| 0 <= k < l.len() implies nondecreasing(#[trigger] l[k]) && class_count(
            l[k],
            class as u8,
        ) < takes by {
            if k < prev.len() {
                assert(l[k] == prev[k]);
            } else {
                assert(l[k] == m[k - prev.len()]);
            }
        }
        assert forall|i: int, j: int| 0 <= i < l.len() && 0 <= j < l.len() && i != j implies l[i] != l[j] by {
            if i < prev.len() && j < prev.len() {
                assert(l[i] == prev[i] && l[j] == prev[j]);
            } else if i >= prev.len() && j >= prev.len() {
                let a = i - prev.len();
                let b = j - prev.len();
                assert(l[i] == m[a] && l[j] == m[b]);
                if m[a] == m[b] {
                    assert(sub[a] =~= m[a].skip(t));
                    assert(sub[b] =~= m[b].skip(t));
                }
            } else if i < prev.len() {
                assert(l[i] == prev[i] && l[j] == m[j - prev.len()]);
                assert(class_count(m[j - prev.len()], class as u8) == t);
            } else {
                assert(l[j] == prev[j] && l[i] == m[i - prev.len()]);
                assert(class_count(m[i - prev.len()], class as u8) == t);
            }
        }
    }
}

proof fn lemma_completions_sorted_distinct(avail: Seq<usize>, class: int, remaining: int)
    requires
        avail.len() == 13,
        0 <= class <= 13,
        remaining >= 0,
    ensures
        forall|k: int| 0 <= k < completions_of(avail, class, remaining).len() ==> nondecreasing(
            #[trigger] completions_of(avail, class, remaining)[k],
        ),
        completions_of(avail, class, remaining).no_duplicates(),
    decreases 13 - class, remaining + 2,
{
    let all = completions_of(avail, class, remaining);
    if remaining == 0 {
        assert(all == seq![Seq::<u8>::empty()]);
        assert forall|k: int| 0 <= k < all.len() implies nondecreasing(#[trigger] all[k]) by {
            assert(all[k] == Seq::<u8>::empty());
        }
    } else if class < 13 {
        let most = if (avail[class] as int) < remaining { avail[class] as int } else { remaining };
        lemma_upto_sorted_distinct(avail, class, remaining, most + 1);
        assert(all == completions_upto(avail, class, remaining, most + 1));
    } else {
        assert(all.len() == 0);
    }
}

proof fn lemma_count_at_most_len(s: Seq<u8>, c: u8)
    ensures
        class_count(s, c) <= s.len(),
    decreases s.len(),
{
    if s.len() > 0 {
        lemma_count_at_most_len(s.drop_last(), c);
    }
}

proof fn lemma_sorted_run(s: Seq<u8>, class: u8)
    requires
        nondecreasing(s),
        forall|i: int| 0 <= i < s.len() ==> class <= #[trigger] s[i],
    ensures
        forall|i: int| 0 <= i < class_count(s, class) ==> #[trigger] s[i] == class,
        forall|i: int| class_count(s, class) <= i < s.len() ==> class < #[trigger] s[i],
        class_count(s, class) <= s.len(),
    decreases s.len(),
{
    lemma_count_at_most_len(s, class);
    if s.len() > 0 {
        let r = s.drop_last();
        assert forall|i: int, j: int| 0 <= i <= j < r.len() implies r[i] <= r[j] by {
            assert(r[i] == s[i] && r[j] == s[j]);
        }
        assert forall|i: int| 0 <= i < r.len() implies class <= #[trigger] r[i] by {
            assert(r[i] == s[i]);
        }
        lemma_sorted_run(r, class);
        let t = class_count(r, class);
        if s.last() == class {
            assert forall|i: int| 0 <= i < s.len() implies #[trigger] s[i] == class by {
                assert(s[i] <= s[s.len() - 1]);
            }
            lemma_count_at_most_len(r, class);
            if t < r.len() {
                assert(r[t as int] == s[t as int]);
                assert(class < r[t as int]);
            }
        } else {
            assert forall|i: int| 0 <= i < t implies #[trigger] s[i] == class by {
                assert(r[i] == s[i]);
            }
            assert forall|i: int| t <= i < s.len() implies class < #[trigger] s[i] by {
                if i < r.len() {
                    assert(r[i] == s[i]);
                }
            }
        }
    }
}

proof fn lemma_upto_grows(avail: Seq<usize>, class: int, remaining: int, takes: int, more: int, x: Seq<u8>)
    requires
        takes <= more,
        completions_upto(avail, class, remaining, takes).contains(x),
        0 <= class < 13,
        more <= remaining + 1,
    ensures
        completions_upto(avail, class, remaining, more).contains(x),
    decreases more - takes,
{
    if takes < more {
        lemma_upto_grows(avail, class, remaining, takes, more - 1, x);
        let prev = completions_upto(avail, class, remaining, more - 1);
        let l = completions_upto(avail, class, remaining, more);
        let j = choose|j: int| 0 <= j < prev.len() && prev[j] == x;
        assert(l[j] == prev[j]);
    }
}

#[verifier::spinoff_prover]
#[verifier::rlimit(50)]
proof fn lemma_completions_complete(avail: Seq<usize>, class: int, remaining: int, s: Seq<u8>)
    requires
        avail.len() == 13,
        0 <= class <= 13,
        remaining >= 0,
        nondecreasing(s),
        fits(s, avail, class, remaining),
    ensures
        completions_of(avail, class, remaining).contains(s),
    decreases 13 - class,
{
    let all = completions_of(avail, class, remaining);
    if remaining == 0 {
        assert(s =~= Seq::<u8>::empty());
        assert(all[0] == s);
    } else if class >= 13 {
        assert(class <= s[0] < 13);
    } else {
        let c = class as u8;
        assert forall|i: int| 0 <= i < s.len() implies c <= #[trigger] s[i] by {}
        lemma_sorted_run(s, c);
        let t = class_count(s, c);
        let x = s.skip(t as int);
        assert(s =~= repeat_class(c, t) + x);
        assert forall|i: int, j: int| 0 <= i <= j < x.len() implies x[i] <= x[j] by {
            assert(x[i] == s[i + t] && x[j] == s[j + t]);
        }
        assert forall|i: int| 0 <= i < x.len() implies class + 1 <= #[trigger] x[i] < 13 by {
            assert(x[i] == s[i + t]);
        }
        assert forall|d: u8| d < 13 implies #[trigger] class_count(x, d) <= avail[d as int] by {
            lemma_count_concat(repeat_class(c, t), x, d);
            assert(class_count(s, d) <= avail[d as int]);
        }
        assert(fits(x, avail, class + 1, remaining - t));
        lemma_completions_complete(avail, class + 1, remaining - t, x);
        let sub = completions_of(avail, class + 1, remaining - t);
        let j = choose|j: int| 0 <= j < sub.len() && sub[j] == x;
        let f = |y: Seq<u8>| repeat_class(c, t) + y;
        let most = if (avail[class] as int) < remaining { avail[class] as int } else { remaining };
        assert(t <= avail[class]);
        let prev = completions_upto(avail, class, remaining, t as int);
        let l = completions_upto(avail, class, remaining, (t + 1) as int);
        assert(l == prev + sub.map_values(f));
        assert(l[prev.len() + j] == f(x));
        assert(l.contains(s));
        lemma_upto_grows(avail, class, remaining, (t + 1) as int, most + 1, s);
        assert(all == completions_upto(avail, class, remaining, most + 1));
    }
}

/// Completions enumerate multisets: the completions of `unknowns` cards over
/// the thirteen classes within the copies left are class lists in
/// nondecreasing order that fit the copies left, no two alike, and every such
/// list is among them; so each multiset of classes is visited exactly once.
pub proof fn lemma_completions_exactly_once(avail: Seq<usize>, unknowns: nat)
    requires
        avail.len() == 13,
    ensures
        ({
            let all = completions_of(avail, 0, unknowns as int);
            &&& all.no_duplicates()
            &&& forall|k: int| 0 <= k < all.len() ==> nondecreasing(#[trigger] all[k]) && fits(
                all[k],
                avail,
                0,
                unknowns as int,
            )
            &&& forall|s: Seq<u8>| nondecreasing(s) && fits(s, avail, 0, unknowns as int) ==> #[trigger] all.contains(s)
        }),
{
    lemma_completions_sorted_distinct(avail, 0, unknowns as int);
    lemma_completions_fit(avail, 0, unknowns as int);
    assert forall|s: Seq<u8>| nondecreasing(s) && fits(s, avail, 0, unknowns as int) implies #[trigger] completions_of(
        avail,
        0,
        unknowns as int,
    ).contains(s) by {
        lemma_completions_complete(avail, 0, unknowns as int, s);
    }
}

proof fn lemma_fresh_bag_count(vira: Turnup, v: Seq<Seq<(Rank, Suit)>>, n: int, x: (Rank, Suit))
    requires
        v.len() == 13,
        forall|c: int| 0 <= c < 13 ==> #[trigger] v[c] == initial_options(vira, c),
        0 <= n <= 13,
    ensures
        pool_bag_upto(v, n).count(x) == if (class_of(x.0, x.1, vira.rank) as int) < n && x != (vira.rank, vira.suit) {
            1nat
        } else {
            0nat
        },
    decreases n,
{
    broadcast use group_to_multiset_ensures, vstd::multiset::group_multiset_axioms;
    if n > 0 {
        let c = n - 1;
        lemma_fresh_bag_count(vira, v, c, x);
        lemma_pool_counts(vira);
        lemma_pool_is_deck_without_turnup(vira, x.0, x.1);
        let o = v[c];
        assert(o == initial_options(vira, c));
        let inside = class_of(x.0, x.1, vira.rank) as int == c && x != (vira.rank, vira.suit);
        if o.contains(x) {
            let k = choose|k: int| 0 <= k < o.len() && o[k] == x;
            lemma_initial_options_class(vira, c, k);
            o.lemma_multiset_has_no_duplicates();
            assert(o.to_multiset().count(x) == 1);
            assert(inside);
        } else {
            assert(o.to_multiset().count(x) == 0);
            assert(!inside);
        }
    }
}

/// Deck conservation: two hands dealt one after the other from a fresh pool
/// for a turnup (as `realize_hand` deals them, each taking its cards out of
/// the pool) hold distinct cards, none of them the turnup.
pub proof fn lemma_seeded_deals_distinct(
    vira: Turnup,
    fresh: Seq<Seq<(Rank, Suit)>>,
    between: Seq<Seq<(Rank, Suit)>>,
    after: Seq<Seq<(Rank, Suit)>>,
    first: Seq<Card>,
    second: Seq<Card>,
)
    requires
        fresh.len() == 13,
        forall|c: int| 0 <= c < 13 ==> #[trigger] fresh[c] == initial_options(vira, c),
        pool_bag(fresh) == pool_bag(between).add(card_pairs(first).to_multiset()),
        pool_bag(between) == pool_bag(after).add(card_pairs(second).to_multiset()),
    ensures
        (card_pairs(first) + card_pairs(second)).no_duplicates(),
        forall|i: int|
            0 <= i < first.len() + second.len() ==> #[trigger] (card_pairs(first) + card_pairs(second))[i] != (
                vira.rank,
                vira.suit,
            ),
{
    broadcast use group_to_multiset_ensures, vstd::multiset::group_multiset_axioms;
    let a = card_pairs(first);
    let b = card_pairs(second);
    let d = a + b;
    lemma_multiset_commutative(a, b);
    assert(d.to_multiset() =~= a.to_multiset().add(b.to_multiset()));
    assert forall|x: (Rank, Suit)| #[trigger] d.to_multiset().count(x) <= pool_bag(fresh).count(x) by {
        assert(pool_bag(fresh).count(x) == pool_bag(after).count(x) + b.to_multiset().count(x)
            + a.to_multiset().count(x));
    }
    assert forall|x: (Rank, Suit)| d.to_multiset().contains(x) implies #[trigger] d.to_multiset().count(x) == 1 by {
        lemma_fresh_bag_count(vira, fresh, 13, x);
        lemma_pool_is_deck_without_turnup(vira, x.0, x.1);
        assert(d.to_multiset().count(x) <= pool_bag(fresh).count(x));
    }
    d.lemma_multiset_has_no_duplicates_conv();
    assert forall|i: int| 0 <= i < first.len() + second.len() implies #[trigger] d[i] != (vira.rank, vira.suit) by {
        let x = (vira.rank, vira.suit);
        lemma_fresh_bag_count(vira, fresh, 13, x);
        assert(d.to_multiset().count(x) <= pool_bag(fresh).count(x));
        if d[i] == x {
            assert(d.contains(x));
        }
    }
}

proof fn lemma_class_found_from(hand: Seq<Card>, turnup: Turnup, class: u8, k: int)
    requires
        0 <= k < hand.len(),
        class_of(hand[k].rank, hand[k].suit, turnup.rank) == class,
    ensures
        first_of_class(hand, turnup, class) is Some,
        0 <= first_of_class(hand, turnup, class)->0 < hand.len(),
        class_of(
            hand[first_of_class(hand, turnup, class)->0].rank,
            hand[first_of_class(hand, turnup, class)->0].suit,
            turnup.rank,
        ) == class,
    decreases k,
{
    if exists|m: int| 0 <= m < k && class_of(hand[m].rank, hand[m].suit, turnup.rank) == class {
        let m = choose|m: int| 0 <= m < k && class_of(hand[m].rank, hand[m].suit, turnup.rank) == class;
        lemma_class_found_from(hand, turnup, class, m);
    } else {
        lemma_first_of_class(hand, turnup, class, k);
    }
}

/// The first card of a class, when there is one, is a held card of that class.
pub proof fn lemma_first_of_class_found(hand: Seq<Card>, turnup: Turnup, class: u8)
    ensures
        first_of_class(hand, turnup, class) matches Some(k) ==> 0 <= k < hand.len() && class_of(
            hand[k].rank,
            hand[k].suit,
            turnup.rank,
        ) == class,
        first_of_class(hand, turnup, class) is None ==> forall|k: int|
            0 <= k < hand.len() ==> class_of(hand[k].rank, hand[k].suit, turnup.rank) != class,
{
    if exists|k: int| 0 <= k < hand.len() && class_of(hand[k].rank, hand[k].suit, turnup.rank) == class {
        let k = choose|k: int| 0 <= k < hand.len() && class_of(hand[k].rank, hand[k].suit, turnup.rank) == class;
        lemma_class_found_from(hand, turnup, class, k);
    } else {
        assert(first_of_class(hand, turnup, class) is None) by {
            reveal(first_of_class);
        }
    }
}

/// Replaying keeps each line entry's meaning: the engine action `history_action`
/// replays (with the card it plays, if any), read back in the solver's terms
/// as an observed action, is the entry's own abstract action. A non-play
/// entry becomes the engine action of the same kind; a play names a held card
/// of the entry's class and is face up or face down as the entry says.
pub proof fn lemma_replay_keeps_entry_kind(kind: SeededActionKind, hand: Seq<Card>, turnup: Turnup, seat: Player)
    ensures
        played_class_of(kind) is None ==> entry_action(kind, None) is Some && crate::policy::observed_abstract(
            (crate::policy::ObservedAction { player: seat, action: entry_action(kind, None)->0, card: None }),
            turnup,
        ) == abstract_of(kind),
        played_class_of(kind) is Some && played_class_of(kind)->0 < 13 && first_of_class(
            hand,
            turnup,
            played_class_of(kind)->0,
        ) is Some ==> ({
            let k = first_of_class(hand, turnup, played_class_of(kind)->0)->0;
            let a = entry_action(kind, Some(hand[k]))->0;
            &&& 0 <= k < hand.len()
            &&& entry_action(kind, Some(hand[k])) is Some
            &&& crate::policy::observed_abstract(
                (crate::policy::ObservedAction { player: seat, action: a, card: Some(hand[k]) }),
                turnup,
            ) == abstract_of(kind)
            &&& (a == (Action::PlayFaceUp { card_id: hand[k].id }) || a == (Action::PlayFaceDown {
                card_id: hand[k].id,
            }))
        }),
{
    match played_class_of(kind) {
        Some(c) => {
            lemma_first_of_class_found(hand, turnup, c);
        },
        None => {},
    }
}

} // verus!
