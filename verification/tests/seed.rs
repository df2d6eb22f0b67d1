use rand::rngs::StdRng;
use rand::SeedableRng;
use truco_bots::abstraction::{abstract_card, AbstractAction};
use truco_bots::engine::{Action, Card, Player, Rank, Score, Suit, Turnup};
use truco_bots::seed::{
    binomial, check_entry_turn, check_line_leaves_play, class_card, completions_from, contains_multiset, find_class_card, history_action,
    joint_prior, played_classes, prepare_seed, prior_weights, rank_char, realize_hand,
    sampling_mode, seeded_to_abstract, suit_char, ConcretePool, SeedError, SeedSpec,
    SeededActionKind, SeededHistoryAction, VillainSampling,
};

fn ten_ten_spec(history: Vec<SeededHistoryAction>) -> SeedSpec {
    SeedSpec {
        score: Score { zero: 10, one: 10 },
        dealer: 0,
        vira_rank: Rank::Jack,
        human_player: 0,
        hero_hand: Some(vec![2, 5, 12]),
        villain_hand: None,
        history,
    }
}

fn act(seat: Player, kind: SeededActionKind) -> SeededHistoryAction {
    SeededHistoryAction { seat, kind }
}

fn jack_of_hearts() -> Turnup {
    Turnup {
        rank: Rank::Jack,
        suit: Suit::Hearts,
    }
}

#[test]
fn deck_conservation_with_duplicate_classes() {
    let mut spec = ten_ten_spec(vec![]);
    spec.hero_hand = Some(vec![4, 4, 4]);
    spec.villain_hand = Some(vec![4, 1, 2]);
    assert!(prepare_seed(&spec).is_ok());

    spec.villain_hand = Some(vec![4, 4, 2]);
    assert!(matches!(prepare_seed(&spec), Err(SeedError::NoConsistentHand)));

    spec.hero_hand = Some(vec![5, 5, 5]);
    spec.villain_hand = Some(vec![5, 1, 2]);
    assert!(matches!(prepare_seed(&spec), Err(SeedError::NoConsistentHand)));
}

#[test]
fn pool_is_the_deck_without_the_turnup() {
    let pool = ConcretePool::new(&jack_of_hearts());
    let counts: Vec<usize> = (0..13u8).map(|c| pool.available(c)).collect();
    // Nine plain levels of four (the turnup's own level has three), four manilhas.
    assert_eq!(counts, vec![4, 4, 4, 4, 4, 3, 4, 4, 4, 1, 1, 1, 1]);
    assert_eq!(counts.iter().sum::<usize>(), 39);
}

#[test]
fn taking_cards_realizes_their_class() {
    let turnup = jack_of_hearts();
    let mut pool = ConcretePool::new(&turnup);
    let card = pool.take(12, 0).expect("the clubs manilha");
    assert_eq!(card.rank, Rank::King);
    assert_eq!(card.suit, Suit::Clubs);
    assert_eq!(card.id, "kc");
    assert!(pool.take(12, 5).is_none());
    let plain = pool.take(5, 7).expect("a jack");
    assert_eq!(plain.rank, Rank::Jack);
    assert_ne!(plain.suit, Suit::Hearts);
    assert_eq!(abstract_card(&plain, &turnup), 5);
    assert_eq!(pool.available(5), 2);
}

#[test]
fn unpinned_villain_completions_avoid_the_heros_manilha() {
    let spec = ten_ten_spec(vec![]);
    let plan = prepare_seed(&spec).expect("seeded plan");
    assert_eq!(sampling_mode(spec.villain_hand.is_some(), false), VillainSampling::Prior);
    assert!(!plan.villain_completions.is_empty());
    for completion in &plan.villain_completions {
        assert_eq!(completion.len(), 3);
        assert!(!completion.contains(&12));
    }
}

#[test]
fn sampling_modes() {
    assert_eq!(sampling_mode(true, true), VillainSampling::Pinned);
    assert_eq!(sampling_mode(false, true), VillainSampling::Posterior);
    assert_eq!(sampling_mode(false, false), VillainSampling::Prior);
}

#[test]
fn draft_less_seed_commits_the_played_cards() {
    let spec = SeedSpec {
        score: Score { zero: 10, one: 10 },
        dealer: 0,
        vira_rank: Rank::Four,
        human_player: 1,
        hero_hand: None,
        villain_hand: None,
        history: vec![
            act(1, SeededActionKind::PlayFaceUp { class: 8 }),
            act(0, SeededActionKind::PlayFaceUp { class: 4 }),
        ],
    };
    let mut plan = prepare_seed(&spec).expect("seeded plan");
    assert_eq!(plan.villain_seat, 0);
    assert_eq!(plan.hero_base, vec![8]);
    assert_eq!(plan.villain_base, vec![4]);
    for completion in plan.hero_completions.iter().chain(plan.villain_completions.iter()) {
        assert_eq!(completion.len(), 2);
    }
    let mut rng = StdRng::seed_from_u64(21);
    let hero_completion = plan.hero_completions[0].clone();
    let hero_base = plan.hero_base.clone();
    let cards =
        realize_hand(&mut plan.pool, &hero_base, &hero_completion, &mut rng).expect("hero cards");
    assert_eq!(cards.len(), 3);
    let turnup = plan.turnup.clone();
    assert_eq!(abstract_card(&cards[0], &turnup), 8);
    for (card, class) in cards.iter().zip(hero_base.iter().chain(hero_completion.iter())) {
        assert_eq!(abstract_card(card, &turnup), *class);
    }
}

#[test]
fn invalid_positions_are_refused() {
    let mut spec = ten_ten_spec(vec![]);
    spec.human_player = 2;
    match prepare_seed(&spec) {
        Err(SeedError::Invalid(m)) => assert_eq!(m, "seats must be 0 or 1"),
        Ok(_) => panic!("unexpected success"),
        Err(other) => panic!("unexpected {other:?}"),
    }
    let spec = ten_ten_spec(vec![act(3, SeededActionKind::Fold)]);
    match prepare_seed(&spec) {
        Err(SeedError::Invalid(m)) => assert_eq!(m, "history seat must be 0 or 1"),
        Ok(_) => panic!("unexpected success"),
        Err(other) => panic!("unexpected {other:?}"),
    }
    let spec = ten_ten_spec(vec![act(1, SeededActionKind::PlayFaceUp { class: 13 })]);
    match prepare_seed(&spec) {
        Err(SeedError::Invalid(m)) => assert_eq!(m, "card class 13 out of range"),
        Ok(_) => panic!("unexpected success"),
        Err(other) => panic!("unexpected {other:?}"),
    }
    // The hero plays a card outside the declared hero hand.
    let spec = ten_ten_spec(vec![
        act(1, SeededActionKind::PlayFaceUp { class: 3 }),
        act(0, SeededActionKind::PlayFaceUp { class: 7 }),
    ]);
    match prepare_seed(&spec) {
        Err(SeedError::Invalid(m)) => {
            assert_eq!(m, "the hero's played cards are not all in the pinned hand")
        }
        Ok(_) => panic!("unexpected success"),
        Err(other) => panic!("unexpected {other:?}"),
    }
    let mut spec = ten_ten_spec(vec![]);
    spec.villain_hand = Some(vec![1, 2]);
    match prepare_seed(&spec) {
        Err(SeedError::Invalid(m)) => assert_eq!(m, "pinned villain hand must have exactly 3 cards"),
        Ok(_) => panic!("unexpected success"),
        Err(other) => panic!("unexpected {other:?}"),
    }
    let spec = ten_ten_spec(vec![
        act(1, SeededActionKind::PlayFaceUp { class: 1 }),
        act(1, SeededActionKind::PlayFaceUp { class: 1 }),
        act(1, SeededActionKind::PlayFaceUp { class: 1 }),
        act(1, SeededActionKind::PlayFaceUp { class: 1 }),
    ]);
    match prepare_seed(&spec) {
        Err(SeedError::Invalid(m)) => assert_eq!(m, "a seat cannot have played more than 3 cards"),
        Ok(_) => panic!("unexpected success"),
        Err(other) => panic!("unexpected {other:?}"),
    }
}

#[test]
fn played_classes_follow_the_seat() {
    let spec = ten_ten_spec(vec![
        act(1, SeededActionKind::PlayFaceUp { class: 3 }),
        act(0, SeededActionKind::Raise { to: 3 }),
        act(1, SeededActionKind::AcceptRaise),
        act(0, SeededActionKind::PlayFaceUp { class: 5 }),
        act(0, SeededActionKind::PlayFaceDown { class: 2 }),
    ]);
    assert_eq!(played_classes(&spec, 0), vec![5, 2]);
    assert_eq!(played_classes(&spec, 1), vec![3]);
}

#[test]
fn multiset_containment() {
    assert!(contains_multiset(&vec![4, 4, 2], &vec![4, 2]));
    assert!(contains_multiset(&vec![4, 4, 2], &vec![]));
    assert!(!contains_multiset(&vec![4, 1, 2], &vec![4, 4]));
    assert!(!contains_multiset(&vec![1, 2, 3], &vec![7]));
}

#[test]
fn binomial_values() {
    assert_eq!(binomial(4, 2), 6);
    assert_eq!(binomial(4, 0), 1);
    assert_eq!(binomial(3, 5), 0);
    assert_eq!(binomial(10, 3), 120);
    assert_eq!(binomial(60, 30), 118264581564861424);
}

#[test]
fn completions_enumerate_multisets_within_availability() {
    let mut avail = vec![0usize; 13];
    avail[0] = 2;
    avail[3] = 1;
    let completions = completions_from(&avail, 0, 2);
    assert_eq!(completions, vec![vec![0u8, 3], vec![0, 0]]);
    assert_eq!(completions_from(&avail, 0, 0), vec![Vec::<u8>::new()]);
    assert!(completions_from(&avail, 0, 4).is_empty());
}

#[test]
fn joint_prior_counts_deals_from_one_pool() {
    let mut avail = vec![0usize; 13];
    avail[0] = 4;
    avail[1] = 3;
    // Hero takes two of class 0 (6 ways), villain one of the two left (2 ways)
    // and one of class 1 (3 ways).
    assert_eq!(joint_prior(&avail, &vec![0, 0], &vec![0, 1]), 36);
    // Five copies of class 0 do not exist.
    assert_eq!(joint_prior(&avail, &vec![0, 0, 0], &vec![0, 0]), 0);
    let weights = prior_weights(&avail, &vec![vec![0, 0], vec![1]], &vec![vec![0], vec![1, 1]]);
    assert_eq!(weights, vec![12, 18, 12, 3]);
}

#[test]
fn line_entries_map_to_abstract_actions() {
    assert_eq!(
        seeded_to_abstract(&SeededActionKind::PlayFaceDown { class: 4 }),
        Ok(AbstractAction::PlayFaceDown(4))
    );
    assert_eq!(seeded_to_abstract(&SeededActionKind::Raise { to: 6 }), Ok(AbstractAction::Raise(6)));
    assert_eq!(
        class_card(13),
        Err(SeedError::Invalid("card class 13 out of range".to_string()))
    );
    assert_eq!(class_card(12), Ok(12));
}

#[test]
fn card_characters() {
    assert_eq!(rank_char(Rank::Queen), 'q');
    assert_eq!(rank_char(Rank::Three), '3');
    assert_eq!(suit_char(Suit::Spades), 's');
}

#[test]
fn history_actions_take_the_first_card_of_the_class() {
    let turnup = jack_of_hearts();
    let hand = vec![
        Card { id: "qd".to_string(), rank: Rank::Queen, suit: Suit::Diamonds },
        Card { id: "kc".to_string(), rank: Rank::King, suit: Suit::Clubs },
        Card { id: "qs".to_string(), rank: Rank::Queen, suit: Suit::Spades },
    ];
    assert_eq!(find_class_card(&hand, &turnup, 4), Some(0));
    assert_eq!(find_class_card(&hand, &turnup, 7), None);
    let (action, card) = history_action(
        &SeededActionKind::PlayFaceDown { class: 4 },
        &hand,
        &turnup,
        1,
        2,
    )
    .expect("a queen is held");
    assert_eq!(action, Action::PlayFaceDown { card_id: "qd".to_string() });
    assert_eq!(card.map(|c| c.id), Some("qd".to_string()));
    let (action, card) =
        history_action(&SeededActionKind::Raise { to: 3 }, &hand, &turnup, 1, 0).expect("raise");
    assert_eq!(action, Action::Raise { to: 3 });
    assert!(card.is_none());
    assert_eq!(
        history_action(&SeededActionKind::PlayFaceUp { class: 7 }, &hand, &turnup, 1, 4),
        Err(SeedError::History("seat 1 does not hold a card of class 7 at step 4".to_string()))
    );
}

#[test]
fn pool_cards_are_distinct_and_a_three_turnup_blocks_the_top_level() {
    let turnup = Turnup {
        rank: Rank::Three,
        suit: Suit::Diamonds,
    };
    let mut pool = ConcretePool::new(&turnup);
    let counts: Vec<usize> = (0..13u8).map(|c| pool.available(c)).collect();
    assert_eq!(counts, vec![4, 4, 4, 4, 4, 4, 4, 4, 3, 1, 1, 1, 1]);
    let mut ids: Vec<String> = Vec::new();
    for class in 0..13u8 {
        while let Some(card) = pool.take(class, 0) {
            assert_eq!(abstract_card(&card, &turnup), class);
            assert_ne!(card.id, "3d");
            ids.push(card.id);
        }
    }
    assert_eq!(ids.len(), 39);
    let mut unique = ids.clone();
    unique.sort();
    unique.dedup();
    assert_eq!(unique.len(), 39);
}

#[test]
fn completions_visit_each_multiset_once_and_weigh_to_the_binomial() {
    let avail: Vec<usize> = vec![2, 0, 3, 1, 0, 0, 0, 0, 0, 0, 0, 0, 1];
    for unknowns in 0..=7usize {
        let all = completions_from(&avail, 0, unknowns);
        let mut seen = all.clone();
        seen.sort();
        seen.dedup();
        assert_eq!(seen.len(), all.len());
        let mut total: u128 = 0;
        for completion in &all {
            assert_eq!(completion.len(), unknowns);
            assert!(completion.windows(2).all(|w| w[0] <= w[1]));
            total += joint_prior(&avail, completion, &Vec::new());
        }
        assert_eq!(total, binomial(7, unknowns) as u128);
    }
    // Every multiset of size two within the copies: {0,0} {0,2} {0,3} {0,12}
    // {2,2} {2,3} {2,12} {3,12}.
    assert_eq!(completions_from(&avail, 0, 2).len(), 8);
    assert_eq!(completions_from(&avail, 0, 0), vec![Vec::<u8>::new()]);
}

#[test]
fn replay_checks_turn_order_and_that_play_remains() {
    assert_eq!(check_entry_turn(Some(1), 1, 0), Ok(()));
    assert_eq!(
        check_entry_turn(Some(0), 1, 3),
        Err(SeedError::History("seat 1 acts out of turn at step 3".to_string()))
    );
    assert_eq!(
        check_entry_turn(None, 0, 12),
        Err(SeedError::History("seat 0 acts out of turn at step 12".to_string()))
    );
    assert_eq!(check_line_leaves_play(false, false), Ok(()));
    for (won, over) in [(true, false), (false, true), (true, true)] {
        assert_eq!(
            check_line_leaves_play(won, over),
            Err(SeedError::History(
                "the line already ends the hand; there is nothing left to play".to_string()
            ))
        );
    }
}

#[test]
fn dealing_takes_cards_out_of_the_pool() {
    let turnup = jack_of_hearts();
    let mut pool = ConcretePool::new(&turnup);
    let mut rng = StdRng::seed_from_u64(5);
    // Class 5 (the jacks) has three copies left under a jack turnup.
    let hero = realize_hand(&mut pool, &vec![5, 12], &vec![5], &mut rng).expect("hero cards");
    let villain = realize_hand(&mut pool, &vec![], &vec![5, 0, 12], &mut rng);
    assert_eq!(villain, Err(SeedError::NoConsistentHand));
    let mut pool = ConcretePool::new(&turnup);
    let hero_again = realize_hand(&mut pool, &vec![5, 12], &vec![5], &mut rng).expect("hero cards");
    assert_eq!(hero_again.len(), 3);
    assert_eq!(pool.available(5), 1);
    assert_eq!(pool.available(12), 0);
    let villain = realize_hand(&mut pool, &vec![5], &vec![0, 3], &mut rng).expect("villain cards");
    assert_eq!(pool.available(5), 0);
    let mut ids: Vec<String> = hero_again.iter().chain(villain.iter()).map(|c| c.id.clone()).collect();
    assert!(!ids.contains(&"jh".to_string()));
    ids.sort();
    ids.dedup();
    assert_eq!(ids.len(), 6);
    assert_eq!(hero.len(), 3);
    // A class that has run out refuses the deal.
    assert_eq!(
        realize_hand(&mut pool, &vec![12], &vec![], &mut rng),
        Err(SeedError::NoConsistentHand)
    );
}
