use durak_rt::{
    Action, Card, Deck, Game, GameError, GamePlayer, GameState, Hand, Phase, Player, RandomPlayer,
    Suit,
};

fn card(suit: Suit, rank: u8) -> Card {
    Card { suit, rank }
}

fn s(rank: u8) -> Card {
    card(Suit::Spades, rank)
}

fn h(rank: u8) -> Card {
    card(Suit::Hearts, rank)
}

fn d(rank: u8) -> Card {
    card(Suit::Diamonds, rank)
}

fn c(rank: u8) -> Card {
    card(Suit::Clubs, rank)
}

#[allow(clippy::too_many_arguments)]
fn state(
    deck: Vec<Card>,
    attack: Vec<Card>,
    defense: Vec<Card>,
    hand1: Vec<Card>,
    hand2: Vec<Card>,
    acting: GamePlayer,
    defending: GamePlayer,
    visible: Card,
    taken: bool,
) -> GameState {
    GameState::new(
        Deck::from_cards(deck),
        attack,
        defense,
        Hand(hand1),
        Hand(hand2),
        acting,
        defending,
        visible,
        taken,
        Vec::new(),
    )
}

/// A deck that deals `hand1` and then `hand2` and turns up `trump`.
fn deck_dealing(trump: Card, hand1: &[Card], hand2: &[Card]) -> Deck {
    let mut rest: Vec<Card> = Deck::new(6)
        .cards()
        .iter()
        .copied()
        .filter(|x| *x != trump && !hand1.contains(x) && !hand2.contains(x))
        .collect();
    let mut cards = vec![trump];
    cards.append(&mut rest);
    for x in hand2.iter().rev() {
        cards.push(*x);
    }
    for x in hand1.iter().rev() {
        cards.push(*x);
    }
    Deck::from_cards(cards)
}

fn codes(cards: &[Card]) -> Vec<u8> {
    let mut v: Vec<u8> = cards.iter().map(|x| x.to_code()).collect();
    v.sort();
    v
}

fn every_card(st: &GameState) -> Vec<u8> {
    let mut all: Vec<Card> = Vec::new();
    all.extend(st.deck.cards().iter());
    all.extend(st.hand1.0.iter());
    all.extend(st.hand2.0.iter());
    all.extend(st.attack_table.iter());
    all.extend(st.defense_table.iter());
    all.extend(st.graveyard.iter());
    codes(&all)
}

#[test]
fn first_attacker_defaults_to_side_two_without_trumps() {
    let hand1 = [s(6), s(7), s(8), s(9), s(10), s(11)];
    let hand2 = [h(6), h(7), h(8), h(9), h(10), h(11)];
    let game = Game::deal(deck_dealing(c(6), &hand1, &hand2));
    let st = game.state();
    assert_eq!(st.hand1.0, hand1.to_vec());
    assert_eq!(st.hand2.0, hand2.to_vec());
    assert_eq!(st.visible_card, c(6));
    assert_eq!(st.acting_player, GamePlayer::Player2);
    assert_eq!(st.defending_player, GamePlayer::Player1);
}

#[test]
fn first_attacker_holds_the_lowest_trump() {
    let hand1 = [s(6), s(7), s(8), s(9), c(8), s(11)];
    let hand2 = [h(6), h(7), c(7), h(9), h(10), h(11)];
    let game = Game::deal(deck_dealing(c(6), &hand1, &hand2));
    assert_eq!(game.state().acting_player, GamePlayer::Player2);

    let hand1 = [s(6), s(7), s(8), s(9), c(7), s(11)];
    let hand2 = [h(6), h(7), c(8), h(9), h(10), h(11)];
    let game = Game::deal(deck_dealing(c(6), &hand1, &hand2));
    assert_eq!(game.state().acting_player, GamePlayer::Player1);
    assert_eq!(game.state().defending_player, GamePlayer::Player2);
}

#[test]
fn side_holding_the_only_trumps_attacks_first() {
    let hand1 = [s(6), s(7), s(8), s(9), c(14), s(11)];
    let hand2 = [h(6), h(7), h(8), h(9), h(10), h(11)];
    let game = Game::deal(deck_dealing(c(6), &hand1, &hand2));
    assert_eq!(game.state().acting_player, GamePlayer::Player1);
    let hand1 = [s(6), s(7), s(8), s(9), s(10), s(11)];
    let hand2 = [h(6), h(7), h(8), h(9), c(13), h(11)];
    let game = Game::deal(deck_dealing(c(6), &hand1, &hand2));
    assert_eq!(game.state().acting_player, GamePlayer::Player2);
}

#[test]
fn dealing_leaves_twenty_four_cards_and_an_empty_table() {
    let game = Game::deal(Deck::new(6));
    let st = game.state();
    assert_eq!(st.deck.len(), 24);
    assert_eq!(st.hand1.0, vec![c(14), c(13), c(12), c(11), c(10), c(9)]);
    assert_eq!(st.hand2.0, vec![c(8), c(7), c(6), d(14), d(13), d(12)]);
    assert_eq!(st.visible_card, s(6));
    assert!(st.attack_table.is_empty() && st.defense_table.is_empty());
    assert!(st.graveyard.is_empty());
    assert!(!st.defender_has_taken);
    assert_eq!(game.history().len(), 0);
    assert_eq!(every_card(st), (0u8..36).collect::<Vec<u8>>());
}

#[test]
fn new_game_deals_a_full_deck() {
    let game = Game::new();
    let st = game.state();
    assert_eq!(st.hand1.0.len(), 6);
    assert_eq!(st.hand2.0.len(), 6);
    assert_eq!(st.deck.len(), 24);
    assert_eq!(st.deck.get_first(), Some(st.visible_card));
    assert_ne!(st.acting_player, st.defending_player);
    assert_eq!(every_card(st), (0u8..36).collect::<Vec<u8>>());
}

#[test]
fn after_an_opening_attack_only_matching_ranks_may_follow() {
    let st = state(
        vec![d(7), d(8)],
        vec![],
        vec![],
        vec![s(6), h(6), s(7), d(9), c(6), h(13)],
        vec![h(7), h(8), h(9), h(10), h(11), h(12)],
        GamePlayer::Player1,
        GamePlayer::Player2,
        d(7),
        false,
    );
    let mut game = Game::from_state(st);
    assert_eq!(
        game.legal_actions(),
        vec![
            Action::Attack(s(6)),
            Action::Attack(h(6)),
            Action::Attack(s(7)),
            Action::Attack(d(9)),
            Action::Attack(c(6)),
            Action::Attack(h(13)),
        ]
    );
    assert_eq!(game.step(Action::Attack(s(6))), Ok(()));
    assert_eq!(
        game.legal_actions(),
        vec![Action::Attack(h(6)), Action::Attack(c(6)), Action::StopAttack]
    );
    assert_eq!(game.state().attack_table, vec![s(6)]);
    assert_eq!(game.state().hand1.0, vec![h(6), s(7), d(9), c(6), h(13)]);
    assert_eq!(game.state().acting_player, GamePlayer::Player1);
    assert_eq!(game.step(Action::Attack(s(7))), Err(GameError::IllegalAction));
}

#[test]
fn trump_attack_is_beaten_only_by_a_higher_trump() {
    let st = state(
        vec![],
        vec![s(6)],
        vec![],
        vec![h(9), d(9)],
        vec![s(7), h(6)],
        GamePlayer::Player2,
        GamePlayer::Player2,
        s(14),
        false,
    );
    let game = Game::from_state(st);
    let legal = game.legal_actions();
    assert_eq!(legal, vec![Action::Take, Action::Defend(s(7))]);
    assert!(!legal.contains(&Action::Defend(h(6))));
    assert_eq!(game.state().phase(), Phase::Defending);
}

#[test]
fn plain_attack_is_beaten_by_any_trump_or_a_higher_card_of_its_suit() {
    let st = state(
        vec![],
        vec![h(10)],
        vec![],
        vec![s(9)],
        vec![h(9), h(11), s(6), d(14), s(14)],
        GamePlayer::Player2,
        GamePlayer::Player2,
        s(12),
        false,
    );
    let game = Game::from_state(st);
    assert_eq!(
        game.legal_actions(),
        vec![Action::Take, Action::Defend(h(11)), Action::Defend(s(6)), Action::Defend(s(14))]
    );
}

#[test]
fn defence_answers_the_oldest_undefended_attack() {
    let st = state(
        vec![],
        vec![s(6), h(6), h(9)],
        vec![s(8)],
        vec![d(9)],
        vec![h(7), h(10), s(7), c(6)],
        GamePlayer::Player2,
        GamePlayer::Player2,
        c(12),
        false,
    );
    let mut game = Game::from_state(st);
    assert_eq!(game.state().num_undefended(), 2);
    assert_eq!(
        game.legal_actions(),
        vec![Action::Take, Action::Defend(h(7)), Action::Defend(h(10)), Action::Defend(c(6))]
    );
    assert_eq!(game.step(Action::Defend(h(7))), Ok(()));
    assert_eq!(game.state().acting_player, GamePlayer::Player2);
    assert_eq!(
        game.legal_actions(),
        vec![Action::Take, Action::Defend(h(10)), Action::Defend(c(6))]
    );
}

#[test]
fn illegal_action_is_refused_and_changes_nothing() {
    let mut game = Game::deal(Deck::new(6));
    let before = game.state().clone();
    let illegal = [
        Action::Take,
        Action::StopAttack,
        Action::Defend(c(14)),
        Action::Attack(s(6)),
    ];
    for a in illegal.iter() {
        assert_eq!(game.step(*a), Err(GameError::IllegalAction));
        assert_eq!(game.state(), &before);
        assert_eq!(game.state().hand1.0, before.hand1.0);
        assert_eq!(game.history().len(), 0);
    }
}

#[test]
fn every_listed_action_is_accepted_and_no_other() {
    let mut game = Game::new();
    let mut player = RandomPlayer::new();
    for _ in 0..40 {
        if game.is_over() {
            break;
        }
        let legal = game.legal_actions();
        for code in 0u8..74 {
            let a = Action::from_code(code).unwrap();
            let mut trial = Game::from_state(game.state().clone());
            let before = trial.state().clone();
            let r = trial.step(a);
            if legal.contains(&a) {
                assert_eq!(r, Ok(()));
                assert_eq!(trial.history().len(), 1);
            } else {
                assert_eq!(r, Err(GameError::IllegalAction));
                assert_eq!(trial.state(), &before);
                assert_eq!(trial.state().hand1.0, before.hand1.0);
                assert_eq!(trial.state().hand2.0, before.hand2.0);
                assert_eq!(trial.history().len(), 0);
            }
        }
        let observed = game.state().observe(game.state().acting_player);
        let choice = player.choose_action(observed, legal, Vec::new());
        assert_eq!(game.step(choice), Ok(()));
    }
}

#[test]
fn random_games_keep_every_card_and_end_with_matching_rewards() {
    for _ in 0..30 {
        let mut game = Game::new();
        let mut side1 = RandomPlayer::new();
        let mut side2 = RandomPlayer::new();
        let mut steps = 0usize;
        while !game.is_over() {
            let st = game.state();
            assert_eq!(every_card(st), (0u8..36).collect::<Vec<u8>>());
            assert!(st.attack_table.len() <= 6);
            assert!(st.defense_table.len() <= st.attack_table.len());
            let acting = st.acting_player;
            let actions = game.legal_actions();
            assert!(!actions.is_empty());
            let observed = st.observe(acting);
            let choice = match acting {
                GamePlayer::Player1 => side1.choose_action(observed, actions, Vec::new()),
                GamePlayer::Player2 => side2.choose_action(observed, actions, Vec::new()),
            };
            let before = game.state().clone();
            assert_eq!(game.step(choice), Ok(()));
            assert_eq!(game.history().len(), steps + 1);
            assert_eq!(game.history()[steps].hand1.0, before.hand1.0);
            let after = game.state();
            assert_eq!(after.visible_card, before.visible_card);
            assert!(after.deck.len() <= before.deck.len());
            assert_eq!(&after.deck.cards()[..], &before.deck.cards()[..after.deck.len()]);
            assert_eq!(&after.graveyard[..before.graveyard.len()], &before.graveyard[..]);
            steps += 1;
            assert!(steps < 5000);
        }
        let st = game.state();
        assert_eq!(every_card(st), (0u8..36).collect::<Vec<u8>>());
        assert_eq!(st.deck.len(), 0);
        let rewards = game.get_rewards();
        match (st.hand1.0.is_empty(), st.hand2.0.is_empty()) {
            (true, true) => assert_eq!(rewards, (0, 0)),
            (true, false) => assert_eq!(rewards, (1, -1)),
            (false, true) => assert_eq!(rewards, (-1, 1)),
            (false, false) => panic!("the game ended with both hands full"),
        }
    }
}

#[test]
fn play_runs_a_game_to_its_end() {
    for _ in 0..20 {
        let mut game = Game::new();
        let mut side1 = RandomPlayer::new();
        let mut side2 = RandomPlayer::new();
        let rewards = game.play(&mut side1, &mut side2);
        assert!(game.is_over());
        assert_eq!(rewards, game.get_rewards());
        assert!(rewards == (1, -1) || rewards == (-1, 1) || rewards == (0, 0));
        assert_eq!(every_card(game.state()), (0u8..36).collect::<Vec<u8>>());
        assert!(game.history().len() > 0);
    }
}

#[test]
fn take_with_room_lets_the_attacker_add_before_the_pickup() {
    let st = state(
        vec![d(12), d(13)],
        vec![s(6)],
        vec![],
        vec![h(6), d(6), h(7), c(9), c(10)],
        vec![h(8), h(9), h(10), h(11), h(12), h(13)],
        GamePlayer::Player2,
        GamePlayer::Player2,
        c(14),
        false,
    );
    let mut game = Game::from_state(st);
    assert_eq!(game.step(Action::Take), Ok(()));
    assert!(game.state().defender_has_taken);
    assert_eq!(game.state().acting_player, GamePlayer::Player1);
    assert_eq!(
        game.legal_actions(),
        vec![Action::Attack(h(6)), Action::Attack(d(6)), Action::StopAttack]
    );
    assert_eq!(game.step(Action::Attack(h(6))), Ok(()));
    assert_eq!(game.step(Action::StopAttack), Ok(()));
    let st = game.state();
    assert!(!st.defender_has_taken);
    assert!(st.attack_table.is_empty());
    assert_eq!(
        st.hand2.0,
        vec![h(8), h(9), h(10), h(11), h(12), h(13), s(6), h(6)]
    );
    assert_eq!(st.hand1.0, vec![d(6), h(7), c(9), c(10), d(13), d(12)]);
    assert_eq!(st.deck.len(), 0);
    assert_eq!(st.acting_player, GamePlayer::Player1);
    assert_eq!(st.defending_player, GamePlayer::Player2);
}

#[test]
fn take_without_room_ends_the_round_at_once() {
    let st = state(
        vec![d(12), d(13), d(14)],
        vec![s(6), h(6)],
        vec![s(9)],
        vec![c(9)],
        vec![h(8)],
        GamePlayer::Player2,
        GamePlayer::Player2,
        c(14),
        false,
    );
    let mut game = Game::from_state(st);
    assert_eq!(game.step(Action::Take), Ok(()));
    let st = game.state();
    assert!(!st.defender_has_taken);
    assert!(st.attack_table.is_empty() && st.defense_table.is_empty());
    assert_eq!(st.hand1.0, vec![c(9), d(14), d(13), d(12)]);
    assert_eq!(st.hand2.0, vec![h(8), s(9), s(6), h(6)]);
    assert_eq!(st.acting_player, GamePlayer::Player1);
    assert_eq!(st.defending_player, GamePlayer::Player2);
}

#[test]
fn full_table_forbids_further_attacks() {
    let st = state(
        vec![],
        vec![s(6), h(6), d(6), s(7), h(7), d(7)],
        vec![s(8), h(8), d(8), s(9), h(9)],
        vec![c(6), c(7), c(8), s(10)],
        vec![h(14)],
        GamePlayer::Player1,
        GamePlayer::Player2,
        c(14),
        false,
    );
    let game = Game::from_state(st);
    assert_eq!(game.legal_actions(), vec![Action::StopAttack]);
}

#[test]
fn stopping_after_a_full_defence_clears_the_table_and_swaps_roles() {
    let st = state(
        vec![d(12), d(13), d(14)],
        vec![s(6)],
        vec![s(8)],
        vec![c(9)],
        vec![h(8)],
        GamePlayer::Player1,
        GamePlayer::Player2,
        c(14),
        false,
    );
    let mut game = Game::from_state(st);
    assert_eq!(game.step(Action::StopAttack), Ok(()));
    let st = game.state();
    assert_eq!(st.graveyard, vec![s(6), s(8)]);
    assert!(st.attack_table.is_empty() && st.defense_table.is_empty());
    assert_eq!(st.hand1.0, vec![c(9), d(14), d(13), d(12)]);
    assert_eq!(st.hand2.0, vec![h(8)]);
    assert_eq!(st.acting_player, GamePlayer::Player2);
    assert_eq!(st.defending_player, GamePlayer::Player1);
    assert_eq!(st.phase(), Phase::Attacking);
    assert!(!game.is_over());
}

#[test]
fn stopping_with_undefended_cards_hands_over_to_the_defender() {
    let st = state(
        vec![d(12)],
        vec![s(6), h(6)],
        vec![],
        vec![c(9)],
        vec![h(8), s(12)],
        GamePlayer::Player1,
        GamePlayer::Player2,
        c(14),
        false,
    );
    let mut game = Game::from_state(st);
    assert_eq!(game.step(Action::StopAttack), Ok(()));
    let st = game.state();
    assert_eq!(st.acting_player, GamePlayer::Player2);
    assert_eq!(st.attack_table, vec![s(6), h(6)]);
    assert_eq!(game.legal_actions(), vec![Action::Take, Action::Defend(s(12))]);
}

#[test]
fn defender_who_runs_out_of_cards_wins_the_round() {
    let st = state(
        vec![d(12), d(13)],
        vec![s(6)],
        vec![],
        vec![c(9), c(10)],
        vec![s(8)],
        GamePlayer::Player2,
        GamePlayer::Player2,
        c(14),
        false,
    );
    let mut game = Game::from_state(st);
    assert_eq!(game.step(Action::Defend(s(8))), Ok(()));
    let st = game.state();
    assert_eq!(st.graveyard, vec![s(6), s(8)]);
    assert_eq!(st.hand1.0, vec![c(9), c(10), d(13), d(12)]);
    assert!(st.hand2.0.is_empty());
    assert_eq!(st.defending_player, GamePlayer::Player1);
    assert_eq!(st.acting_player, GamePlayer::Player2);
    assert!(game.is_over());
    assert_eq!(game.get_winner(), Some(GamePlayer::Player2));
    assert_eq!(game.get_rewards(), (-1, 1));
}

#[test]
fn answered_defence_returns_control_to_the_attacker() {
    let st = state(
        vec![d(12)],
        vec![s(6)],
        vec![],
        vec![c(9), s(8)],
        vec![s(7), h(7)],
        GamePlayer::Player2,
        GamePlayer::Player2,
        c(14),
        false,
    );
    let mut game = Game::from_state(st);
    assert_eq!(game.step(Action::Defend(s(7))), Ok(()));
    let st = game.state();
    assert_eq!(st.defense_table, vec![s(7)]);
    assert_eq!(st.hand2.0, vec![h(7)]);
    assert_eq!(st.acting_player, GamePlayer::Player1);
    assert_eq!(game.legal_actions(), vec![Action::StopAttack]);
    assert_eq!(game.history().len(), 1);
    assert_eq!(game.history()[0].defense_table, Vec::<Card>::new());
}

#[test]
fn winner_and_rewards_follow_the_empty_hands() {
    let over1 = Game::from_state(state(
        vec![],
        vec![],
        vec![],
        vec![],
        vec![s(6)],
        GamePlayer::Player2,
        GamePlayer::Player1,
        c(14),
        false,
    ));
    assert!(over1.is_over());
    assert_eq!(over1.get_winner(), Some(GamePlayer::Player1));
    assert_eq!(over1.get_rewards(), (1, -1));

    let draw = Game::from_state(state(
        vec![],
        vec![],
        vec![],
        vec![],
        vec![],
        GamePlayer::Player2,
        GamePlayer::Player1,
        c(14),
        false,
    ));
    assert!(draw.is_over());
    assert_eq!(draw.get_winner(), None);
    assert_eq!(draw.get_rewards(), (0, 0));

    let going = Game::from_state(state(
        vec![d(6)],
        vec![],
        vec![],
        vec![],
        vec![s(6)],
        GamePlayer::Player2,
        GamePlayer::Player1,
        c(14),
        false,
    ));
    assert!(!going.is_over());
    assert_eq!(going.get_winner(), None);
    assert_eq!(going.get_rewards(), (0, 0));
}

#[test]
fn observation_shows_own_hand_and_only_the_size_of_the_other() {
    let st = state(
        vec![d(12), d(13), d(14)],
        vec![s(6)],
        vec![s(8)],
        vec![c(9), h(6)],
        vec![h(8)],
        GamePlayer::Player1,
        GamePlayer::Player2,
        c(14),
        true,
    );
    let seen = st.observe(GamePlayer::Player1);
    assert_eq!(seen.player, GamePlayer::Player1);
    assert_eq!(seen.hand.0, vec![c(9), h(6)]);
    assert_eq!(seen.cards_in_opponent, 1);
    assert_eq!(seen.num_cards_in_deck, 3);
    assert_eq!(seen.attack_table, vec![s(6)]);
    assert_eq!(seen.defense_table, vec![s(8)]);
    assert_eq!(seen.visible_card, c(14));
    assert!(seen.defender_has_taken);
    assert_eq!(seen.acting_player, GamePlayer::Player1);
    assert_eq!(seen.defender, GamePlayer::Player2);
    let other = st.observe(GamePlayer::Player2);
    assert_eq!(other.hand.0, vec![h(8)]);
    assert_eq!(other.cards_in_opponent, 2);
}

#[test]
fn roles_and_hands_by_role() {
    let st = state(
        vec![],
        vec![s(6), h(6)],
        vec![s(8)],
        vec![c(9)],
        vec![h(8)],
        GamePlayer::Player1,
        GamePlayer::Player2,
        c(14),
        false,
    );
    assert_eq!(st.num_undefended(), 1);
    assert_eq!(st.phase(), Phase::Attacking);
    assert_eq!(st.attacker_hand().0, vec![c(9)]);
    assert_eq!(st.defender_hand().0, vec![h(8)]);
    assert_eq!(GamePlayer::Player1.other(), GamePlayer::Player2);
    assert_eq!(GamePlayer::Player2.other(), GamePlayer::Player1);
    let snap = st.snapshot();
    assert_eq!(snap, st);
    assert_eq!(snap.attack_table, st.attack_table);
}

#[test]
fn random_player_picks_among_the_offered_actions() {
    let mut player = RandomPlayer::new();
    let st = Game::deal(Deck::new(6)).state().clone();
    let offered = vec![Action::Take, Action::StopAttack, Action::Attack(s(6))];
    let mut seen = Vec::new();
    for _ in 0..200 {
        let observed = st.observe(GamePlayer::Player1);
        let a = player.choose_action(observed, offered.clone(), Vec::new());
        assert!(offered.contains(&a));
        if !seen.contains(&a) {
            seen.push(a);
        }
    }
    assert!(seen.len() > 1);
    let only = player.choose_action(st.observe(GamePlayer::Player2), vec![Action::Take], Vec::new());
    assert_eq!(only, Action::Take);
}
