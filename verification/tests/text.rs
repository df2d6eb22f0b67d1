use truco_bots::engine::{Action, Card, Rank, Suit};
use truco_bots::llm::{format_card_literal, format_rank, format_suit, llm_system_prompt, llm_user_prompt};
use truco_bots::text::{
    compare_text, describe_action, format_signed_points, format_u64, is_blank, split_commas_of,
    starts_with, trim,
};

#[test]
fn signed_points_always_show_a_sign() {
    assert_eq!(format_signed_points(3), "+3");
    assert_eq!(format_signed_points(0), "+0");
    assert_eq!(format_signed_points(-2), "-2");
    assert_eq!(format_signed_points(i32::MIN), "-2147483648");
}

#[test]
fn decimal_numbers() {
    assert_eq!(format_u64(0), "0");
    assert_eq!(format_u64(1907), "1907");
    assert_eq!(format_u64(u64::MAX), "18446744073709551615");
}

#[test]
fn action_descriptions() {
    assert_eq!(
        describe_action(&Action::PlayFaceUp {
            card_id: "p0c1".to_string()
        }),
        "face-up play p0c1"
    );
    assert_eq!(describe_action(&Action::Raise { to: 12 }), "raise to 12");
    assert_eq!(describe_action(&Action::AcceptEleven), "accept mão de onze");
    assert_eq!(describe_action(&Action::ConcedeHand), "concede hand");
}

#[test]
fn blank_and_prefix_tests() {
    assert!(is_blank(""));
    assert!(is_blank(" \t\n\u{a0}"));
    assert!(!is_blank(" x "));
    assert!(starts_with("openai/gpt", "openai/"));
    assert!(!starts_with("open", "openai/"));
}

#[test]
fn text_order_is_by_character() {
    assert_eq!(compare_text("gpt-a", "gpt-b"), -1);
    assert_eq!(compare_text("gpt", "gpt"), 0);
    assert_eq!(compare_text("gpt-b", "gpt"), 1);
    assert_eq!(compare_text("Z", "a"), -1);
}

#[test]
fn trimming_and_splitting() {
    assert_eq!(trim("  a b \n"), "a b");
    assert_eq!(trim(" \t "), "");
    assert_eq!(trim("x"), "x");
    assert_eq!(split_commas_of("a, b,,c"), vec!["a", " b", "", "c"]);
    assert_eq!(split_commas_of(""), vec![""]);
    assert_eq!(split_commas_of(","), vec!["", ""]);
}

#[test]
fn card_notation() {
    let card = Card {
        id: "example".to_string(),
        rank: Rank::Ace,
        suit: Suit::Spades,
    };
    assert_eq!(format_card_literal(&card), "As");
    assert_eq!(format_rank(Rank::Queen), "Q");
    assert_eq!(format_suit(Suit::Clubs), "c");
}

#[test]
fn prompts() {
    assert!(llm_system_prompt().starts_with("You are a 2-player Truco bot."));
    assert!(llm_system_prompt().contains("DIAMONDS, SPADES, HEARTS, CLUBS"));
    assert_eq!(
        llm_user_prompt(),
        "Choose the next action from the legal_actions list. Use mixed weights only when you genuinely want a distribution."
    );
}

#[test]
fn signed_points_read_back_as_themselves() {
    for value in [i32::MIN, -1_000_000, -12, -1, 0, 1, 9, 10, 99, 100, 12_345, i32::MAX] {
        let text = format_signed_points(value);
        assert_eq!(text.parse::<i32>(), Ok(value));
        assert_eq!(text.starts_with('+'), value >= 0);
    }
}
