//! Plain-value model of the public game state that the bots read: cards,
//! the turnup, actions and the acting player's view of the hand.
use vstd::prelude::*;

verus! {

/// A seat at the table: 0 or 1.
pub type Player = u8;

/// Points needed to win a match.
pub const MATCH_TARGET: u8 = 12;

/// Card ranks in ladder order, weakest first.
#[derive(Debug, Clone, Copy, PartialEq, Eq, Hash, Structural)]
pub enum Rank {
    Four,
    Five,
    Six,
    Seven,
    Queen,
    Jack,
    King,
    Ace,
    Two,
    Three,
}

/// Suits in manilha order, weakest first.
#[derive(Debug, Clone, Copy, PartialEq, Eq, Hash, Structural)]
pub enum Suit {
    Diamonds,
    Spades,
    Hearts,
    Clubs,
}

/// Position of a rank on the ladder 4, 5, 6, 7, Q, J, K, A, 2, 3.
pub open spec fn rank_index(rank: Rank) -> nat {
    match rank {
        Rank::Four => 0,
        Rank::Five => 1,
        Rank::Six => 2,
        Rank::Seven => 3,
        Rank::Queen => 4,
        Rank::Jack => 5,
        Rank::King => 6,
        Rank::Ace => 7,
        Rank::Two => 8,
        Rank::Three => 9,
    }
}

/// The rank at a ladder position (positions wrap around after 9).
pub open spec fn rank_at(index: nat) -> Rank {
    let i = index % 10;
    if i == 0 { Rank::Four }
    else if i == 1 { Rank::Five }
    else if i == 2 { Rank::Six }
    else if i == 3 { Rank::Seven }
    else if i == 4 { Rank::Queen }
    else if i == 5 { Rank::Jack }
    else if i == 6 { Rank::King }
    else if i == 7 { Rank::Ace }
    else if i == 8 { Rank::Two }
    else { Rank::Three }
}

/// The manilha rank for a turnup of rank `rank`: the next rank on the ladder,
/// wrapping from 3 back to 4.
pub open spec fn manilha_rank_of(rank: Rank) -> Rank {
    rank_at(rank_index(rank) + 1)
}

/// Strength of a suit among manilhas: diamonds 0 up to clubs 3.
pub open spec fn suit_strength(suit: Suit) -> nat {
    match suit {
        Suit::Diamonds => 0,
        Suit::Spades => 1,
        Suit::Hearts => 2,
        Suit::Clubs => 3,
    }
}

impl Rank {
    /// Ladder position of the rank.
    pub fn index(self) -> (r: u8)
        ensures
            r as nat == rank_index(self),
    {
        match self {
            Rank::Four => 0,
            Rank::Five => 1,
            Rank::Six => 2,
            Rank::Seven => 3,
            Rank::Queen => 4,
            Rank::Jack => 5,
            Rank::King => 6,
            Rank::Ace => 7,
            Rank::Two => 8,
            Rank::Three => 9,
        }
    }

    /// The manilha rank when this rank is turned up.
    pub fn next_for_manilha(self) -> (r: Rank)
        ensures
            r == manilha_rank_of(self),
    {
        match self {
            Rank::Four => Rank::Five,
            Rank::Five => Rank::Six,
            Rank::Six => Rank::Seven,
            Rank::Seven => Rank::Queen,
            Rank::Queen => Rank::Jack,
            Rank::Jack => Rank::King,
            Rank::King => Rank::Ace,
            Rank::Ace => Rank::Two,
            Rank::Two => Rank::Three,
            Rank::Three => Rank::Four,
        }
    }
}

impl Suit {
    /// Strength of the suit among manilhas.
    pub fn manilha_strength(self) -> (r: u8)
        ensures
            r as nat == suit_strength(self),
    {
        match self {
            Suit::Diamonds => 0,
            Suit::Spades => 1,
            Suit::Hearts => 2,
            Suit::Clubs => 3,
        }
    }
}

/// The card turned up after the deal; it fixes the manilha rank.
#[derive(Debug, Clone, Copy, PartialEq, Eq, Structural)]
pub struct Turnup {
    pub rank: Rank,
    pub suit: Suit,
}

/// A concrete card held by a player.
#[derive(Debug, PartialEq, Eq)]
pub struct Card {
    pub id: String,
    pub rank: Rank,
    pub suit: Suit,
}

impl Clone for Card {
    fn clone(&self) -> (r: Self)
        ensures
            r == *self,
    {
        Card { id: self.id.clone(), rank: self.rank, suit: self.suit }
    }
}

/// A card as shown to the other seat (a face-up play).
#[derive(Debug, Clone, Copy, PartialEq, Eq, Structural)]
pub struct PublicCard {
    pub rank: Rank,
    pub suit: Suit,
}

pub open spec fn is_manilha_rank(rank: Rank, turnup: Turnup) -> bool {
    rank == manilha_rank_of(turnup.rank)
}

impl Card {
    /// Whether the card is a manilha under this turnup.
    pub fn is_manilha(&self, turnup: &Turnup) -> (r: bool)
        ensures
            r == is_manilha_rank(self.rank, *turnup),
    {
        self.rank == turnup.rank.next_for_manilha()
    }
}

/// A move a seat can make.
#[derive(Debug, PartialEq, Eq)]
pub enum Action {
    PlayFaceUp { card_id: String },
    PlayFaceDown { card_id: String },
    Raise { to: u8 },
    AcceptRaise,
    Fold,
    AcceptEleven,
    FoldEleven,
    ConcedeHand,
}

/// Mathematical model of an action: card ids become character sequences.
pub enum ActionView {
    PlayFaceUp(Seq<char>),
    PlayFaceDown(Seq<char>),
    Raise(u8),
    AcceptRaise,
    Fold,
    AcceptEleven,
    FoldEleven,
    ConcedeHand,
}

impl View for Action {
    type V = ActionView;

    open spec fn view(&self) -> ActionView {
        match self {
            Action::PlayFaceUp { card_id } => ActionView::PlayFaceUp(card_id@),
            Action::PlayFaceDown { card_id } => ActionView::PlayFaceDown(card_id@),
            Action::Raise { to } => ActionView::Raise(*to),
            Action::AcceptRaise => ActionView::AcceptRaise,
            Action::Fold => ActionView::Fold,
            Action::AcceptEleven => ActionView::AcceptEleven,
            Action::FoldEleven => ActionView::FoldEleven,
            Action::ConcedeHand => ActionView::ConcedeHand,
        }
    }
}

impl Clone for Action {
    fn clone(&self) -> (r: Self)
        ensures
            r == *self,
    {
        match self {
            Action::PlayFaceUp { card_id } => Action::PlayFaceUp { card_id: card_id.clone() },
            Action::PlayFaceDown { card_id } => Action::PlayFaceDown { card_id: card_id.clone() },
            Action::Raise { to } => Action::Raise { to: *to },
            Action::AcceptRaise => Action::AcceptRaise,
            Action::Fold => Action::Fold,
            Action::AcceptEleven => Action::AcceptEleven,
            Action::FoldEleven => Action::FoldEleven,
            Action::ConcedeHand => Action::ConcedeHand,
        }
    }
}

/// Whether two actions denote the same move (card ids compared by content).
pub fn same_action(a: &Action, b: &Action) -> (r: bool)
    ensures
        r == (a@ == b@),
{
    match a {
        Action::PlayFaceUp { card_id: x } => match b {
            Action::PlayFaceUp { card_id: y } => x.eq(y),
            _ => false,
        },
        Action::PlayFaceDown { card_id: x } => match b {
            Action::PlayFaceDown { card_id: y } => x.eq(y),
            _ => false,
        },
        Action::Raise { to: x } => match b {
            Action::Raise { to: y } => *x == *y,
            _ => false,
        },
        Action::AcceptRaise => matches!(b, Action::AcceptRaise),
        Action::Fold => matches!(b, Action::Fold),
        Action::AcceptEleven => matches!(b, Action::AcceptEleven),
        Action::FoldEleven => matches!(b, Action::FoldEleven),
        Action::ConcedeHand => matches!(b, Action::ConcedeHand),
    }
}

/// The views of a list of actions.
pub open spec fn action_views(actions: Seq<Action>) -> Seq<ActionView> {
    actions.map_values(|a: Action| a@)
}

/// Whether `actions` holds a move equal to `a`.
pub fn contains_action(actions: &Vec<Action>, a: &Action) -> (r: bool)
    ensures
        r == exists|i: int| 0 <= i < actions.len() && (#[trigger] actions@[i])@ == a@,
{
    let mut i: usize = 0;
    while i < actions.len()
        invariant
            i <= actions.len(),
            forall|j: int| 0 <= j < i ==> (#[trigger] actions@[j])@ != a@,
        decreases actions.len() - i,
    {
        if same_action(&actions[i], a) {
            return true;
        }
        i = i + 1;
    }
    false
}

/// Match score, one counter per seat.
#[derive(Debug, Clone, Copy, PartialEq, Eq, Structural)]
pub struct Score {
    pub zero: u8,
    pub one: u8,
}

/// A raise awaiting an answer.
#[derive(Debug, Clone, Copy, PartialEq, Eq, Structural)]
pub struct PendingRaise {
    pub raised_by: Player,
    pub to: u8,
    pub previous_value: u8,
}

/// A mão de onze decision awaiting an answer.
#[derive(Debug, Clone, Copy, PartialEq, Eq, Structural)]
pub struct PendingDecision {
    pub player: Player,
}

/// One play of the current round as the acting seat sees it; `card` is
/// `None` for a face-down play.
#[derive(Debug, Clone, Copy, PartialEq, Eq, Structural)]
pub struct PublicPlay {
    pub player: Player,
    pub card: Option<PublicCard>,
}

/// The round being played.
#[derive(Debug, Clone, PartialEq, Eq)]
pub struct PublicRound {
    pub plays: Vec<PublicPlay>,
}

/// A finished round; `winner` is `None` on a tie.
#[derive(Debug, Clone, Copy, PartialEq, Eq, Structural)]
pub struct PublicCompletedRound {
    pub winner: Option<Player>,
}

/// Public state of the hand in progress.
#[derive(Debug, Clone, PartialEq, Eq)]
pub struct PublicHandState {
    pub hand_value: u8,
    pub pending_raise: Option<PendingRaise>,
    pub pending_decision: Option<PendingDecision>,
    pub current_round: PublicRound,
    pub completed_rounds: Vec<PublicCompletedRound>,
}

/// The acting seat's own cards and the public hand state.
#[derive(Debug, Clone, PartialEq, Eq)]
pub struct PlayerHandView {
    pub hand: Vec<Card>,
    pub public_state: PublicHandState,
}

/// What one seat can see of the match.
#[derive(Debug, Clone, PartialEq, Eq)]
pub struct PlayerMatchView {
    pub player: Player,
    pub score: Score,
    pub winner: Option<Player>,
    pub next_dealer: Player,
    pub current_player: Option<Player>,
    pub hand_in_progress: bool,
    pub hand: Option<PlayerHandView>,
}

} // verus!
