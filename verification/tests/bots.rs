use rand::rngs::StdRng;
use rand::SeedableRng;
use truco_bots::bot::{check_weighted_plan, single_choice_decision, Bot, BotDecisionSource, BotError};
use truco_bots::bot::BotTurn;
use truco_bots::engine::{
    Action, Card, PendingDecision, PendingRaise, PlayerHandView, PlayerMatchView, PublicHandState, PublicRound, Rank,
    Score, Suit, Turnup,
};
use truco_bots::heuristic::cards::{card_strength, count_manilhas, is_highest_manilha_clubs};
use truco_bots::heuristic::play::choose_opening_raise_with_draw;
use truco_bots::heuristic::{BotProfile, HeuristicBot};
use truco_bots::random::UniformRandomBot;
use truco_bots::simple::SimpleTrainerBot;

fn card(id: &str, rank: Rank, suit: Suit) -> Card {
    Card {
        id: id.to_string(),
        rank,
        suit,
    }
}

fn sample_hand() -> Vec<Card> {
    vec![
        card("p0c0", Rank::Seven, Suit::Diamonds),
        card("p0c1", Rank::Six, Suit::Clubs),
        card("p0c2", Rank::Four, Suit::Hearts),
    ]
}

fn turn_with(
    hand: Vec<Card>,
    legal_actions: Vec<Action>,
    pending_raise: Option<PendingRaise>,
    score: Score,
) -> BotTurn {
    BotTurn {
        player: 0,
        turnup: Some(Turnup {
            rank: Rank::Ace,
            suit: Suit::Spades,
        }),
        view: PlayerMatchView {
            player: 0,
            score,
            winner: None,
            next_dealer: 1,
            current_player: Some(0),
            hand_in_progress: true,
            hand: Some(PlayerHandView {
                hand,
                public_state: PublicHandState {
                    hand_value: 1,
                    pending_raise,
                    pending_decision: None,
                    current_round: PublicRound { plays: vec![] },
                    completed_rounds: vec![],
                },
            }),
        },
        legal_actions,
    }
}

fn opening_turn() -> BotTurn {
    let hand = sample_hand();
    let mut legal: Vec<Action> = hand
        .iter()
        .map(|c| Action::PlayFaceUp {
            card_id: c.id.clone(),
        })
        .collect();
    legal.push(Action::Raise { to: 3 });
    turn_with(hand, legal, None, Score { zero: 0, one: 0 })
}

#[test]
fn uniform_random_bot_always_returns_a_legal_action() {
    let turn = opening_turn();
    let mut bot = UniformRandomBot::from_seed(7);
    for _ in 0..32 {
        let action = bot.choose_action(&turn).expect("bot should act");
        assert!(turn.legal_actions.contains(&action));
    }
}

#[test]
fn uniform_random_bot_can_choose_different_actions_over_time() {
    let turn = opening_turn();
    let mut bot = UniformRandomBot::from_seed(42);
    let mut saw_raise = false;
    let mut saw_play = false;
    for _ in 0..64 {
        match bot.choose_action(&turn).expect("bot should act") {
            Action::Raise { .. } => saw_raise = true,
            Action::PlayFaceUp { .. } => saw_play = true,
            _ => {}
        }
    }
    assert!(saw_raise);
    assert!(saw_play);
}

#[test]
fn uniform_random_plans_weigh_every_legal_action_equally() {
    let turn = opening_turn();
    let mut bot = UniformRandomBot::new(StdRng::seed_from_u64(3));
    let decision = bot.choose_decision(&turn).expect("bot should act");
    assert_eq!(decision.plan.choices.len(), turn.legal_actions.len());
    assert!(decision.plan.choices.iter().all(|c| c.weight == 1));
    assert_eq!(
        decision.plan.reasoning.as_deref(),
        Some("Uniform random baseline bot. Every legal action was assigned equal weight.")
    );
}

#[test]
fn bots_refuse_turns_without_legal_actions() {
    let turn = turn_with(sample_hand(), vec![], None, Score { zero: 0, one: 0 });
    assert!(matches!(
        UniformRandomBot::from_seed(1).choose_decision(&turn),
        Err(BotError::NoLegalActions)
    ));
    assert!(matches!(
        SimpleTrainerBot::from_seed(1).choose_decision(&turn),
        Err(BotError::NoLegalActions)
    ));
    assert!(matches!(
        HeuristicBot::from_seed(1).choose_decision(&turn),
        Err(BotError::NoLegalActions)
    ));
}

#[test]
fn simple_trainer_bot_plays_a_legal_card_action() {
    let turn = opening_turn();
    let mut bot = SimpleTrainerBot::from_seed(5);
    let decision = BotDecisionSource::choose_decision(&mut bot, &turn).expect("bot should act");
    assert!(turn.legal_actions.contains(&decision.action));
    assert_eq!(decision.plan.choices.len(), 1);
}

#[test]
fn heuristic_bot_acts_legally_with_a_profile_explanation() {
    let turn = opening_turn();
    for seed in 0..16 {
        let mut bot = HeuristicBot::from_seed_with_profile(seed, BotProfile::Aggressive);
        let decision = bot.choose_decision(&turn).expect("bot should act");
        assert!(turn.legal_actions.contains(&decision.action));
        assert!(decision
            .plan
            .reasoning
            .as_deref()
            .is_some_and(|r| r.starts_with("Aggressive heuristic profile")));
        assert_eq!(bot.profile(), BotProfile::Aggressive);
    }
}

#[test]
fn heuristic_bot_answers_a_pending_raise() {
    let hand = sample_hand();
    let legal = vec![Action::AcceptRaise, Action::Fold, Action::Raise { to: 6 }];
    let turn = turn_with(
        hand,
        legal.clone(),
        Some(PendingRaise {
            raised_by: 1,
            to: 3,
            previous_value: 1,
        }),
        Score { zero: 0, one: 0 },
    );
    let mut bot = HeuristicBot::from_seed(3);
    let decision = bot.choose_decision(&turn).expect("bot should act");
    assert!(legal.contains(&decision.action));
    assert_eq!(
        decision.plan.reasoning.as_deref(),
        Some("Balanced heuristic profile resolved the pending raise response.")
    );
}

#[test]
fn card_strengths_follow_the_turnup() {
    let turnup = Turnup {
        rank: Rank::Ace,
        suit: Suit::Spades,
    };
    // Ace turnup: twos are manilhas.
    assert_eq!(card_strength(&card("x", Rank::Two, Suit::Clubs), &turnup), 13);
    assert_eq!(card_strength(&card("x", Rank::Two, Suit::Diamonds), &turnup), 10);
    assert_eq!(card_strength(&card("x", Rank::Three, Suit::Clubs), &turnup), 9);
    assert_eq!(card_strength(&card("x", Rank::Four, Suit::Hearts), &turnup), 0);
    assert!(is_highest_manilha_clubs(&card("x", Rank::Two, Suit::Clubs), &turnup));
    assert!(!is_highest_manilha_clubs(&card("x", Rank::Three, Suit::Clubs), &turnup));
    let hand = vec![
        card("a", Rank::Two, Suit::Hearts),
        card("b", Rank::Two, Suit::Spades),
        card("c", Rank::King, Suit::Clubs),
    ];
    assert_eq!(count_manilhas(&hand, &turnup), 2);
}

#[test]
fn weighted_plans_are_checked_before_drawing() {
    let legal = vec![Action::Fold, Action::AcceptRaise];
    assert!(check_weighted_plan(&vec![Action::Fold], &legal).is_ok());
    assert_eq!(
        check_weighted_plan(&vec![Action::Fold], &vec![]),
        Err(BotError::NoLegalActions)
    );
    assert_eq!(
        check_weighted_plan(&vec![], &legal),
        Err(BotError::InvalidDecision(
            "bot returned no weighted action choices".to_string()
        ))
    );
    assert_eq!(
        check_weighted_plan(&vec![Action::Fold, Action::Raise { to: 3 }], &legal),
        Err(BotError::InvalidDecision(format!(
            "bot returned an illegal action: {:?}",
            Action::Raise { to: 3 }
        )))
    );
}

#[test]
fn single_choice_decisions_carry_their_reason() {
    let decision = single_choice_decision(Action::Fold, "why".to_string());
    assert_eq!(decision.action, Action::Fold);
    assert_eq!(decision.plan.choices.len(), 1);
    assert_eq!(decision.plan.choices[0].weight, 1);
    assert_eq!(decision.plan.reasoning.as_deref(), Some("why"));
}

#[test]
fn bot_errors_as_text() {
    assert_eq!(BotError::NoLegalActions.message(), "bot received no legal actions");
    assert_eq!(BotError::InvalidDecision("x".to_string()).message(), "x");
}

fn plays_of(hand: &[Card]) -> Vec<Action> {
    hand.iter()
        .map(|c| Action::PlayFaceUp {
            card_id: c.id.clone(),
        })
        .collect()
}

fn third_round_raise_response_turn(lone_card: Card) -> BotTurn {
    turn_with(
        vec![lone_card],
        vec![Action::AcceptRaise, Action::Fold],
        Some(PendingRaise {
            raised_by: 1,
            to: 6,
            previous_value: 3,
        }),
        Score { zero: 0, one: 0 },
    )
}

#[test]
fn heuristic_bot_does_not_lead_with_highest_manilha_when_other_cards_exist() {
    let hand = vec![
        card("p0c0", Rank::Two, Suit::Clubs),
        card("p0c1", Rank::Six, Suit::Hearts),
        card("p0c2", Rank::Four, Suit::Diamonds),
    ];
    let legal = plays_of(&hand);
    let turn = turn_with(hand, legal, None, Score { zero: 0, one: 0 });
    let mut bot = HeuristicBot::from_seed_with_profile(3, BotProfile::Balanced);
    let action = bot.choose_decision(&turn).expect("bot should act").action;
    assert_eq!(
        action,
        Action::PlayFaceUp {
            card_id: "p0c2".into(),
        }
    );
}

#[test]
fn heuristic_bot_accepts_more_often_with_a_stronger_last_card() {
    let strong_turn = third_round_raise_response_turn(card("hero", Rank::Two, Suit::Clubs));
    let weak_turn = third_round_raise_response_turn(card("hero", Rank::Four, Suit::Diamonds));
    let mut strong_accepts = 0;
    let mut weak_accepts = 0;
    for seed in 0..64 {
        let mut strong_bot = HeuristicBot::from_seed_with_profile(seed, BotProfile::Balanced);
        let mut weak_bot = HeuristicBot::from_seed_with_profile(seed, BotProfile::Balanced);
        let strong_action = strong_bot
            .choose_decision(&strong_turn)
            .expect("strong bot should act")
            .action;
        let weak_action = weak_bot
            .choose_decision(&weak_turn)
            .expect("weak bot should act")
            .action;
        if matches!(strong_action, Action::AcceptRaise) {
            strong_accepts += 1;
        }
        if matches!(weak_action, Action::AcceptRaise) {
            weak_accepts += 1;
        }
    }
    assert!(strong_accepts > weak_accepts);
    assert!(strong_accepts >= 50);
    assert!(weak_accepts <= 12);
}

#[test]
fn heuristic_bot_balanced_profile_bluffs_sometimes_with_a_weak_opening_hand() {
    let hand = vec![
        card("hero0", Rank::Seven, Suit::Diamonds),
        card("hero1", Rank::Six, Suit::Hearts),
        card("hero2", Rank::Four, Suit::Diamonds),
    ];
    let mut legal = plays_of(&hand);
    legal.push(Action::Raise { to: 3 });
    let turn = turn_with(hand, legal, None, Score { zero: 0, one: 0 });
    let mut raises = 0;
    for seed in 0..256 {
        let mut bot = HeuristicBot::from_seed_with_profile(seed, BotProfile::Balanced);
        let action = bot.choose_decision(&turn).expect("bot should act").action;
        if matches!(action, Action::Raise { to: 3 }) {
            raises += 1;
        }
    }
    assert!(raises > 0);
}

#[test]
fn heuristic_bot_balanced_profile_accepts_strong_mao_de_onze_more_often_than_not() {
    let hand = vec![
        card("bot0", Rank::Two, Suit::Diamonds),
        card("bot1", Rank::Three, Suit::Hearts),
        card("bot2", Rank::Seven, Suit::Clubs),
    ];
    let mut turn = turn_with(
        hand,
        vec![Action::AcceptEleven, Action::FoldEleven],
        None,
        Score { zero: 4, one: 11 },
    );
    turn.player = 1;
    turn.view.player = 1;
    turn.view.current_player = Some(1);
    turn.view.next_dealer = 1;
    turn.view
        .hand
        .as_mut()
        .expect("player hand should exist")
        .public_state
        .pending_decision = Some(PendingDecision { player: 1 });
    let mut accepts = 0;
    let mut folds = 0;
    for seed in 0..128 {
        let mut bot = HeuristicBot::from_seed_with_profile(seed, BotProfile::Balanced);
        let action = bot.choose_decision(&turn).expect("bot should act").action;
        match action {
            Action::AcceptEleven => accepts += 1,
            Action::FoldEleven => folds += 1,
            _ => panic!("mão de onze should only resolve with accept or fold"),
        }
    }
    assert!(accepts > folds);
}

#[test]
fn heuristic_bot_does_not_reraise_when_current_stake_already_wins_the_match() {
    let hand = vec![
        card("p0c0", Rank::Two, Suit::Clubs),
        card("p0c1", Rank::Two, Suit::Hearts),
        card("p0c2", Rank::Three, Suit::Clubs),
    ];
    let mut legal = plays_of(&hand);
    legal.push(Action::Raise { to: 6 });
    let mut turn = turn_with(hand, legal, None, Score { zero: 9, one: 0 });
    turn.view
        .hand
        .as_mut()
        .expect("player hand should exist")
        .public_state
        .hand_value = 3;
    for seed in 0..64 {
        let mut bot = HeuristicBot::from_seed_with_profile(seed, BotProfile::Aggressive);
        let action = bot.choose_decision(&turn).expect("bot should act").action;
        assert!(matches!(action, Action::PlayFaceUp { .. }));
    }
}

#[test]
fn simple_trainer_bot_accepts_small_raise_with_strong_hand() {
    let hand = vec![
        card("p1c0", Rank::Three, Suit::Clubs),
        card("p1c1", Rank::Five, Suit::Spades),
        card("p1c2", Rank::Four, Suit::Diamonds),
    ];
    let mut turn = turn_with(
        hand,
        vec![Action::AcceptRaise, Action::Fold, Action::Raise { to: 6 }],
        Some(PendingRaise {
            raised_by: 0,
            to: 3,
            previous_value: 1,
        }),
        Score { zero: 0, one: 0 },
    );
    turn.player = 1;
    turn.view.player = 1;
    turn.view.current_player = Some(1);
    let mut bot = SimpleTrainerBot::from_seed(5);
    let action = bot.choose_action(&turn).expect("bot should act");
    assert_eq!(action, Action::AcceptRaise);
}

#[test]
fn opening_raise_follows_its_draw() {
    let hand = vec![
        card("hero0", Rank::Seven, Suit::Diamonds),
        card("hero1", Rank::Six, Suit::Hearts),
        card("hero2", Rank::Four, Suit::Diamonds),
    ];
    let mut legal = plays_of(&hand);
    legal.push(Action::Raise { to: 3 });
    let turn = turn_with(hand, legal, None, Score { zero: 0, one: 0 });
    assert_eq!(choose_opening_raise_with_draw(&turn, BotProfile::Balanced, false), None);
    assert_eq!(
        choose_opening_raise_with_draw(&turn, BotProfile::Balanced, true),
        Some(Action::Raise { to: 3 })
    );
}

#[test]
fn seeded_bots_repeat_their_draws() {
    let turn = opening_turn();
    let mut first = UniformRandomBot::from_seed(11);
    let mut second = UniformRandomBot::new(StdRng::from_seed({
        let mut bytes = [0u8; 32];
        bytes[..8].copy_from_slice(&11u64.to_le_bytes());
        bytes
    }));
    for _ in 0..16 {
        assert_eq!(
            first.choose_action(&turn).expect("bot should act"),
            second.choose_action(&turn).expect("bot should act")
        );
    }
}

#[test]
fn action_debug_text_matches_the_derived_format() {
    let actions = vec![
        Action::PlayFaceUp { card_id: "AS".to_string() },
        Action::PlayFaceDown { card_id: "7H".to_string() },
        Action::PlayFaceUp { card_id: "q\"uote\\back".to_string() },
        Action::PlayFaceUp { card_id: "tab\tnl\ncr\rnul\0".to_string() },
        Action::PlayFaceDown { card_id: "esc\u{1b}bell\u{7}del\u{7f}".to_string() },
        Action::PlayFaceUp { card_id: "it's".to_string() },
        Action::PlayFaceUp { card_id: "é♠\u{301}\u{200b}".to_string() },
        Action::PlayFaceDown { card_id: String::new() },
        Action::Raise { to: 3 },
        Action::Raise { to: 12 },
        Action::Raise { to: 0 },
        Action::AcceptRaise,
        Action::Fold,
        Action::AcceptEleven,
        Action::FoldEleven,
        Action::ConcedeHand,
    ];
    for action in actions {
        assert_eq!(action.debug_text(), format!("{:?}", action));
    }
    assert_eq!(
        Action::PlayFaceUp { card_id: "a\u{1}b".to_string() }.debug_text(),
        "PlayFaceUp { card_id: \"a\\u{1}b\" }"
    );
}

#[test]
fn illegal_actions_are_named_with_escaped_ids() {
    let legal = vec![Action::Fold];
    let odd = Action::PlayFaceUp { card_id: "A\"S".to_string() };
    assert_eq!(
        check_weighted_plan(&vec![Action::Fold, odd], &legal),
        Err(BotError::InvalidDecision(
            "bot returned an illegal action: PlayFaceUp { card_id: \"A\\\"S\" }".to_string()
        ))
    );
}

#[test]
fn heuristic_bots_seed_their_generator_from_the_seed() {
    let mut bytes = [0u8; 32];
    bytes[..8].copy_from_slice(&42u64.to_le_bytes());
    let mut bot = HeuristicBot::from_seed(42);
    assert_eq!(*bot.rng_mut(), StdRng::from_seed(bytes));
    let mut aggressive = HeuristicBot::from_seed_with_profile(42, BotProfile::Aggressive);
    assert_eq!(aggressive.profile(), BotProfile::Aggressive);
    assert_eq!(*aggressive.rng_mut(), StdRng::from_seed(bytes));
    assert_ne!(*HeuristicBot::from_seed(21).rng_mut(), StdRng::from_seed(bytes));
}
