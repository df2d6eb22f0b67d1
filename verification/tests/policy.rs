use rand::rngs::StdRng;
use rand::SeedableRng;
use std::sync::Arc;
use truco_bots::abstraction::AbstractAction;
use truco_bots::bot::{BotDecision, BotPlan, WeightedActionChoice};
use truco_bots::engine::{Action, Card, Rank, Score, Suit, Turnup};
use truco_bots::heuristic::BotProfile;
use truco_bots::policy::{
    concrete_choices, observed_to_abstract, starting_abstract_hand, store_covers_spec,
    with_fallback_note, ObservedAction, PlayedCard, PolicyChoice, PolicyMiss, PolicyStore,
    PolicyStoreError, SolverPolicyBot,
};
use truco_bots::seed::SeedSpec;

fn card(id: &str, rank: Rank, suit: Suit) -> Card {
    Card {
        id: id.to_string(),
        rank,
        suit,
    }
}

fn ace_of_spades() -> Turnup {
    Turnup {
        rank: Rank::Ace,
        suit: Suit::Spades,
    }
}

#[test]
fn store_serves_the_seat_transpose() {
    let mut store: PolicyStore<String> = PolicyStore::new("profiles".to_string());
    store.insert_profile((10, 11), 6, 0, "stored".to_string());
    assert_eq!(store.profile_count(), 1);
    assert_eq!(store.select((10, 11), 6, 0), Some((&"stored".to_string(), false)));
    // The live spot 11x10 with the other dealer is the stored spot's transpose.
    assert_eq!(store.select((11, 10), 6, 1), Some((&"stored".to_string(), true)));
    assert!(store.covers((11, 10), 6, 1));
    assert!(!store.covers((11, 10), 6, 0));
    assert!(!store.covers((10, 11), 5, 0));
    assert_eq!(store.dir(), "profiles");
}

#[test]
fn a_direct_profile_wins_over_the_transpose() {
    let mut store: PolicyStore<u32> = PolicyStore::new(String::new());
    store.insert_profile((10, 10), 2, 1, 1);
    store.insert_profile((10, 10), 2, 0, 2);
    assert_eq!(store.select((10, 10), 2, 1), Some((&1, false)));
    assert_eq!(store.select((10, 10), 2, 0), Some((&2, false)));
    store.insert_profile((10, 10), 2, 0, 3);
    assert_eq!(store.profile_count(), 2);
    assert_eq!(store.select((10, 10), 2, 0), Some((&3, false)));
}

#[test]
fn store_coverage_of_a_studied_position() {
    let mut store: PolicyStore<u8> = PolicyStore::new(String::new());
    // Jack turnup: its plain level is 5.
    store.insert_profile((10, 10), 5, 0, 0);
    let mut spec = SeedSpec {
        score: Score { zero: 10, one: 10 },
        dealer: 0,
        vira_rank: Rank::Jack,
        human_player: 0,
        hero_hand: None,
        villain_hand: None,
        history: vec![],
    };
    assert!(store_covers_spec(&store, &spec));
    spec.score = Score { zero: 11, one: 10 };
    assert!(!store_covers_spec(&store, &spec));
    spec.score = Score { zero: 10, one: 10 };
    spec.vira_rank = Rank::Two;
    assert!(!store_covers_spec(&store, &spec));
}

#[test]
fn miss_labels() {
    assert_eq!(PolicyMiss::NoHand.label(), "no hand in progress");
    assert_eq!(
        PolicyMiss::UncoveredSpot {
            score: (10, 13),
            tc: 4,
            dealer: 1
        }
        .label(),
        "no profile for score 10x13 tc4 dealer 1"
    );
    assert_eq!(
        PolicyMiss::UnreconstructableLog("bad".to_string()).label(),
        "action log: bad"
    );
    assert_eq!(
        PolicyMiss::IncompleteHand.label(),
        "could not reconstruct the starting hand"
    );
    assert_eq!(
        PolicyMiss::MissingKey(1234567890123).label(),
        "info set 1234567890123 missing from profile"
    );
    assert_eq!(
        PolicyMiss::CorruptProfile("short row".to_string()).label(),
        "invalid policy profile: short row"
    );
    assert_eq!(
        PolicyMiss::NoLegalChoices.label(),
        "no stored action is currently legal"
    );
}

#[test]
fn store_error_messages() {
    assert_eq!(
        PolicyStoreError::Manifest("bad format".to_string()).message(),
        "policy manifest: bad format"
    );
    assert_eq!(
        PolicyStoreError::Profile {
            file: "a.tpb".to_string(),
            message: "truncated".to_string()
        }
        .message(),
        "policy profile a.tpb: truncated"
    );
}

#[test]
fn observed_actions_in_solver_terms() {
    let turnup = ace_of_spades();
    let played = ObservedAction {
        player: 1,
        action: Action::PlayFaceUp {
            card_id: "p1-three".to_string(),
        },
        card: Some(card("p1-three", Rank::Three, Suit::Clubs)),
    };
    // Ace turnup: the manilha is the two; the three is plain level 8.
    assert_eq!(observed_to_abstract(&played, &turnup), Ok(AbstractAction::PlayFaceUp(8)));
    let unresolved = ObservedAction {
        player: 0,
        action: Action::PlayFaceDown {
            card_id: "x".to_string(),
        },
        card: None,
    };
    assert_eq!(
        observed_to_abstract(&unresolved, &turnup),
        Err("play_face_down entry is missing its resolved card".to_string())
    );
    let concede = ObservedAction {
        player: 0,
        action: Action::ConcedeHand,
        card: None,
    };
    assert_eq!(
        observed_to_abstract(&concede, &turnup),
        Err("concede_hand is outside the solver's action space".to_string())
    );
    let raise = ObservedAction {
        player: 0,
        action: Action::Raise { to: 6 },
        card: None,
    };
    assert_eq!(observed_to_abstract(&raise, &turnup), Ok(AbstractAction::Raise(6)));
}

#[test]
fn starting_hand_joins_held_and_played_cards() {
    let turnup = ace_of_spades();
    let remaining = vec![
        card("p1-five", Rank::Five, Suit::Spades),
        card("p1-two", Rank::Two, Suit::Clubs),
    ];
    let plays = vec![
        PlayedCard {
            player: 0,
            card: card("p0-seven", Rank::Seven, Suit::Diamonds),
        },
        PlayedCard {
            player: 1,
            card: card("p1-three", Rank::Three, Suit::Clubs),
        },
    ];
    // five = 1, the clubs two is manilha 12, three = 8: sorted 1, 8, 12.
    assert_eq!(
        starting_abstract_hand(&plays, 1, &remaining, &turnup),
        Some(vec![1, 8, 12])
    );
    // Seat 0 played the seven (3): with these two held cards its hand is 1, 3, 12.
    assert_eq!(
        starting_abstract_hand(&plays, 0, &remaining, &turnup),
        Some(vec![1, 3, 12])
    );
    assert_eq!(
        starting_abstract_hand(&plays, 0, &vec![remaining[0].clone()], &turnup),
        None
    );
    assert_eq!(starting_abstract_hand(&vec![], 1, &remaining, &turnup), None);
}

#[test]
fn stored_actions_map_onto_legal_moves() {
    let turnup = ace_of_spades();
    let remaining = vec![
        card("p1-three", Rank::Three, Suit::Clubs),
        card("p1-five", Rank::Five, Suit::Spades),
        card("p1-four", Rank::Four, Suit::Diamonds),
    ];
    let legal = vec![
        Action::PlayFaceUp {
            card_id: "p1-three".to_string(),
        },
        Action::PlayFaceUp {
            card_id: "p1-five".to_string(),
        },
        Action::Raise { to: 3 },
    ];
    let entries = vec![
        AbstractAction::PlayFaceUp(8),
        AbstractAction::PlayFaceDown(8),
        AbstractAction::OpponentPlayedHidden,
        AbstractAction::PlayFaceUp(5),
        AbstractAction::Raise(3),
        AbstractAction::Fold,
    ];
    let choices = concrete_choices(&entries, &remaining, &turnup, &legal);
    assert_eq!(
        choices,
        vec![
            PolicyChoice {
                entry: 0,
                action: Action::PlayFaceUp {
                    card_id: "p1-three".to_string()
                }
            },
            PolicyChoice {
                entry: 4,
                action: Action::Raise { to: 3 }
            },
        ]
    );
}

#[test]
fn fallback_decisions_name_the_miss() {
    let decision = BotDecision {
        action: Action::Fold,
        plan: BotPlan {
            choices: vec![WeightedActionChoice {
                action: Action::Fold,
                weight: 1,
            }],
            reasoning: Some("Balanced heuristic profile selected a tactical card play.".to_string()),
        },
    };
    let miss = PolicyMiss::UncoveredSpot {
        score: (10, 13),
        tc: 2,
        dealer: 0,
    };
    let noted = with_fallback_note(decision, &miss);
    assert_eq!(noted.action, Action::Fold);
    assert_eq!(
        noted.plan.reasoning.as_deref(),
        Some("solver fallback (no profile for score 10x13 tc2 dealer 0); Balanced heuristic profile selected a tactical card play.")
    );
    let bare = BotDecision {
        action: Action::Fold,
        plan: BotPlan {
            choices: vec![],
            reasoning: None,
        },
    };
    let noted = with_fallback_note(bare, &PolicyMiss::NoHand);
    assert_eq!(
        noted.plan.reasoning.as_deref(),
        Some("solver fallback (no hand in progress); heuristic")
    );
}

#[test]
fn solver_bot_keeps_its_store_and_a_balanced_fallback() {
    let store: Arc<PolicyStore<u8>> = Arc::new(PolicyStore::new("dir".to_string()));
    let mut bot = SolverPolicyBot::new(store.clone(), Some(7));
    assert!(Arc::ptr_eq(bot.store(), &store));
    assert_eq!(bot.fallback_mut().profile(), BotProfile::Balanced);
    let _ = SolverPolicyBot::new(store, None);
}

#[test]
fn solver_bot_seeds_its_generators_from_the_seed() {
    let store: Arc<PolicyStore<u8>> = Arc::new(PolicyStore::new("dir".to_string()));
    let mut bot = SolverPolicyBot::new(store.clone(), Some(7));
    let base = 7u64.wrapping_add(0x501B_EB07);
    assert_eq!(*bot.rng_mut(), StdRng::seed_from_u64(base));
    assert_eq!(*bot.fallback_mut().rng_mut(), StdRng::seed_from_u64(base + 1));
    let mut unseeded = SolverPolicyBot::new(store.clone(), None);
    let default_base = 0x501B_EB07_0000u64 + 0x501B_EB07;
    assert_eq!(*unseeded.rng_mut(), StdRng::seed_from_u64(default_base));
    assert_eq!(*unseeded.fallback_mut().rng_mut(), StdRng::seed_from_u64(default_base + 1));
    let mut wrapping = SolverPolicyBot::new(store, Some(u64::MAX));
    let wrapped = u64::MAX.wrapping_add(0x501B_EB07);
    assert_eq!(*wrapping.rng_mut(), StdRng::seed_from_u64(wrapped));
    assert_eq!(*wrapping.fallback_mut().rng_mut(), StdRng::seed_from_u64(wrapped + 1));
}
