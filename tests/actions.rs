use durak_rt::{num_actions, Action, ActionList, Card, GameError, Suit};

fn card(suit: Suit, rank: u8) -> Card {
    Card { suit, rank }
}

#[test]
fn there_are_seventy_four_action_slots() {
    assert_eq!(num_actions(), 74);
}

#[test]
fn action_codes_follow_the_fixed_layout() {
    assert_eq!(Action::StopAttack.to_code(), 0);
    assert_eq!(Action::Take.to_code(), 1);
    assert_eq!(Action::Attack(card(Suit::Spades, 6)).to_code(), 2);
    assert_eq!(Action::Attack(card(Suit::Clubs, 14)).to_code(), 37);
    assert_eq!(Action::Defend(card(Suit::Spades, 6)).to_code(), 38);
    assert_eq!(Action::Defend(card(Suit::Hearts, 8)).to_code(), 49);
    assert_eq!(Action::Defend(card(Suit::Clubs, 14)).to_code(), 73);
}

#[test]
fn every_action_code_round_trips() {
    for n in 0u8..74 {
        let a = Action::from_code(n).unwrap();
        assert_eq!(a.to_code(), n);
        assert_eq!(Action::from_code(a.to_code()), Ok(a));
    }
}

#[test]
fn decoding_an_action_past_the_range_fails() {
    assert_eq!(Action::from_code(74), Err(GameError::InvalidEncoding));
    assert_eq!(Action::from_code(200), Err(GameError::InvalidEncoding));
}

#[test]
fn action_list_gives_codes_in_order() {
    let list = ActionList(vec![
        Action::Defend(card(Suit::Hearts, 8)),
        Action::Take,
        Action::Attack(card(Suit::Spades, 7)),
    ]);
    assert_eq!(list.to_u8s(), vec![49, 1, 3]);
}

#[test]
fn bitmap_marks_exactly_the_listed_actions() {
    let list = ActionList(vec![Action::StopAttack, Action::Attack(card(Suit::Diamonds, 9))]);
    let bitmap = list.to_bitmap();
    assert_eq!(bitmap.len(), 74);
    for (i, b) in bitmap.iter().enumerate() {
        let expected = if i == 0 || i == 23 { 1 } else { 0 };
        assert_eq!(*b, expected);
    }
    assert_eq!(ActionList(vec![]).to_bitmap(), vec![0u8; 74]);
}

#[test]
fn bitmap_round_trips_in_code_order() {
    let list = ActionList(vec![
        Action::Defend(card(Suit::Clubs, 14)),
        Action::Take,
        Action::Attack(card(Suit::Spades, 6)),
    ]);
    let back = ActionList::from_bitmap(list.to_bitmap()).unwrap();
    assert_eq!(
        back,
        ActionList(vec![
            Action::Take,
            Action::Attack(card(Suit::Spades, 6)),
            Action::Defend(card(Suit::Clubs, 14)),
        ])
    );
}

#[test]
fn from_bitmap_ignores_slots_other_than_one() {
    let mut bitmap = vec![0u8; 74];
    bitmap[1] = 1;
    bitmap[2] = 2;
    bitmap[40] = 1;
    let list = ActionList::from_bitmap(bitmap).unwrap();
    assert_eq!(list, ActionList(vec![Action::Take, Action::Defend(card(Suit::Spades, 8))]));
    assert_eq!(ActionList::from_bitmap(vec![]), Ok(ActionList(vec![])));
}

#[test]
fn from_bitmap_rejects_a_slot_past_the_layout() {
    let mut bitmap = vec![0u8; 80];
    bitmap[0] = 1;
    bitmap[74] = 1;
    assert_eq!(ActionList::from_bitmap(bitmap), Err(GameError::InvalidEncoding));
    let mut padded = vec![0u8; 80];
    padded[5] = 1;
    assert_eq!(
        ActionList::from_bitmap(padded),
        Ok(ActionList(vec![Action::Attack(card(Suit::Spades, 9))]))
    );
}

#[test]
fn actions_are_written_out() {
    let list = ActionList(vec![
        Action::StopAttack,
        Action::Take,
        Action::Attack(card(Suit::Hearts, 12)),
        Action::Defend(card(Suit::Spades, 10)),
    ]);
    assert_eq!(
        list.to_strings(),
        vec![
            "StopAttack".to_string(),
            "Take".to_string(),
            "Attack(Q\u{2665})".to_string(),
            "Defend(10\u{2660})".to_string(),
        ]
    );
}
