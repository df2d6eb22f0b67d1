//! Text pieces of the language-model bot: its prompts and card notation.
use crate::engine::{Card, Rank, Suit};
use vstd::prelude::*;

verus! {

/// The rank symbol of the card notation.
pub open spec fn rank_symbol(rank: Rank) -> Seq<char> {
    match rank {
        Rank::Four => "4"@,
        Rank::Five => "5"@,
        Rank::Six => "6"@,
        Rank::Seven => "7"@,
        Rank::Queen => "Q"@,
        Rank::Jack => "J"@,
        Rank::King => "K"@,
        Rank::Ace => "A"@,
        Rank::Two => "2"@,
        Rank::Three => "3"@,
    }
}

/// The suit symbol of the card notation.
pub open spec fn suit_symbol(suit: Suit) -> Seq<char> {
    match suit {
        Suit::Diamonds => "d"@,
        Suit::Spades => "s"@,
        Suit::Hearts => "h"@,
        Suit::Clubs => "c"@,
    }
}

/// The rank symbol: 4, 5, 6, 7, Q, J, K, A, 2 or 3.
pub fn format_rank(rank: Rank) -> (r: &'static str)
    ensures
        r@ == rank_symbol(rank),
{
    match rank {
        Rank::Four => "4",
        Rank::Five => "5",
        Rank::Six => "6",
        Rank::Seven => "7",
        Rank::Queen => "Q",
        Rank::Jack => "J",
        Rank::King => "K",
        Rank::Ace => "A",
        Rank::Two => "2",
        Rank::Three => "3",
    }
}

/// The suit symbol: d, s, h or c.
pub fn format_suit(suit: Suit) -> (r: &'static str)
    ensures
        r@ == suit_symbol(suit),
{
    match suit {
        Suit::Diamonds => "d",
        Suit::Spades => "s",
        Suit::Hearts => "h",
        Suit::Clubs => "c",
    }
}

/// A card in the compact notation: rank symbol then suit symbol, e.g. "As".
pub fn format_card_literal(card: &Card) -> (r: String)
    ensures
        r@ == rank_symbol(card.rank) + suit_symbol(card.suit),
{
    let mut s = String::from_str(format_rank(card.rank));
    s.append(format_suit(card.suit));
    s
}

/// The instruction sent with every turn.
pub fn llm_user_prompt() -> (r: String)
    ensures
        r@ == "Choose the next action from the legal_actions list. Use mixed weights only when you genuinely want a distribution."@,
{
    String::from_str(
        "Choose the next action from the legal_actions list. Use mixed weights only when you genuinely want a distribution.",
    )
}

/// The system prompt: the rules summary, the action notation and the answer format.
pub fn llm_system_prompt() -> (r: String)
    ensures
        r@ == LLM_BOT_SYSTEM_PROMPT@,
{
    String::from_str(LLM_BOT_SYSTEM_PROMPT)
}

pub const LLM_BOT_SYSTEM_PROMPT: &'static str = "You are a 2-player Truco bot.

Rules summary:
- Deck ranks from weakest to strongest are: 4, 5, 6, 7, Q, J, K, A, 2, 3.
- The turnup defines the manilha rank as the next rank in that cycle.
- Among manilhas, suit order from weakest to strongest is DIAMONDS, SPADES, HEARTS, CLUBS.
- Non-manilhas of different suits tie when ranks are equal.
- A hand is worth 1 point unless raised through the ladder 3, 6, 9, 12.
- A declined raise awards the previous stake to the raiser.
- Hiding a card on the first round is illegal.
- In Mao de onze, accepting plays for 3 and folding concedes 1.

Action notation:
- Legal actions are given in canonical JSON.
- To play a card face up: { \"type\": \"play_face_up\", \"card_id\": \"...\" }
- To play a card face down: { \"type\": \"play_face_down\", \"card_id\": \"...\" }
- To raise: { \"type\": \"raise\", \"to\": 3|6|9|12 }
- Other actions are accept_raise, fold, accept_eleven, fold_eleven.

Your response must be strict JSON with this shape:
{
  \"reasoning\": \"short explanation\",
  \"choices\": [
    {
      \"action\": { ... one legal action object ... },
      \"weight\": 0.7
    }
  ]
}

You may return a mixed strategy by assigning positive weights to multiple legal actions.
Never invent an illegal action or a card id that is not listed.
";

} // verus!
