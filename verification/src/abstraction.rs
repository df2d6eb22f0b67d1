//! Card abstraction shared with the solved policies: the 13 card classes
//! (nine plain strength levels, then the four manilhas) and abstract actions.
use crate::engine::{manilha_rank_of, rank_at, rank_index, suit_strength, Card, Rank, Suit, Turnup};
use vstd::prelude::*;

verus! {

/// Number of card classes.
pub const NUM_CLASSES: usize = 13;

/// Class of a card under a turnup: manilhas are classes 9 (diamonds) to 12
/// (clubs); any other card's class is its rank's position on the ladder with
/// the manilha rank left out (0 to 8).
pub open spec fn class_of(rank: Rank, suit: Suit, vira_rank: Rank) -> nat {
    let mi = rank_index(manilha_rank_of(vira_rank));
    if rank == manilha_rank_of(vira_rank) {
        9 + suit_strength(suit)
    } else if rank_index(rank) < mi {
        rank_index(rank)
    } else {
        (rank_index(rank) - 1) as nat
    }
}

/// The class of a card under this turnup.
pub fn abstract_card(card: &Card, turnup: &Turnup) -> (r: u8)
    ensures
        r as nat == class_of(card.rank, card.suit, turnup.rank),
        r < 13,
{
    let manilha = turnup.rank.next_for_manilha();
    if card.rank == manilha {
        9 + card.suit.manilha_strength()
    } else {
        let i = card.rank.index();
        let mi = manilha.index();
        if i < mi {
            i
        } else {
            i - 1
        }
    }
}

/// The plain level of the turnup's own rank (one copy of it is out of the deck).
pub open spec fn blocked_level(vira_rank: Rank) -> nat {
    class_of(vira_rank, Suit::Diamonds, vira_rank)
}

/// The plain level of the turnup's rank: the class with only three cards left.
pub fn blocked_plain_level(vira_rank: Rank) -> (r: u8)
    ensures
        r as nat == blocked_level(vira_rank),
        r < 9,
{
    let manilha = vira_rank.next_for_manilha();
    let i = vira_rank.index();
    let mi = manilha.index();
    if i < mi {
        i
    } else {
        i - 1
    }
}

/// An action in the solver's abstract action space; plays name card classes.
#[derive(Debug, Clone, Copy, PartialEq, Eq, Structural)]
pub enum AbstractAction {
    PlayFaceUp(u8),
    PlayFaceDown(u8),
    Raise(u8),
    AcceptRaise,
    Fold,
    AcceptEleven,
    FoldEleven,
    OpponentPlayedHidden,
}

} // verus!
