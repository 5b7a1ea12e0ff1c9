use core::cmp::Ordering;
use pokr::{Board, Card, CardError, Deck, HandType, PlayerHand, PokerHand, Suit, Value};

#[test]
fn card_ordering() {
    let suit = Suit::Clubs;
    let other_suit = Suit::Hearts;
    let ace = Card::new(suit, Value::Ace);
    let two = Card::new(suit, Value::Two);
    let three = Card::new(suit, Value::Three);
    let four = Card::new(suit, Value::Four);
    let five = Card::new(suit, Value::Five);
    let ten = Card::new(suit, Value::Ten);
    let jack = Card::new(suit, Value::Jack);
    let queen = Card::new(suit, Value::Queen);
    let king_unsuited = Card::new(other_suit, Value::King);
    let five_unsuited = Card::new(other_suit, Value::Five);

    let straight_flush = PokerHand::new(vec![ace, two, three, four, five]).unwrap();

    assert!(straight_flush.contains_hand(HandType::Straight));
    assert!(straight_flush.contains_hand(HandType::StraightFlush));
    assert!(!straight_flush.contains_hand(HandType::Pair));

    let straight = PokerHand::new(vec![ace, two, three, four, five_unsuited]).unwrap();

    assert!(straight.contains_hand(HandType::Straight));
    assert!(!straight.contains_hand(HandType::StraightFlush));

    let royal_straight = PokerHand::new(vec![ace, king_unsuited, jack, queen, ten]).unwrap();

    assert!(royal_straight.contains_hand(HandType::Straight));

    assert!(royal_straight > straight);
}

#[test]
fn royal_straight_flush_classification() {
    let h = PokerHand::new(vec![
        Card::new(Suit::Spades, Value::Ace),
        Card::new(Suit::Spades, Value::King),
        Card::new(Suit::Spades, Value::Queen),
        Card::new(Suit::Spades, Value::Jack),
        Card::new(Suit::Spades, Value::Ten),
    ])
    .unwrap();
    assert!(h.contains_hand(HandType::StraightFlush));
    assert!(h.contains_hand(HandType::Straight));
    assert!(h.contains_hand(HandType::Flush));
    assert_eq!(h.best_hand_type(), HandType::StraightFlush);
}

#[test]
fn wheel_classifies_as_straight() {
    let wheel = PokerHand::new(vec![
        Card::new(Suit::Spades, Value::Ace),
        Card::new(Suit::Diamonds, Value::Two),
        Card::new(Suit::Clubs, Value::Three),
        Card::new(Suit::Hearts, Value::Four),
        Card::new(Suit::Spades, Value::Five),
    ])
    .unwrap();
    assert!(wheel.contains_hand(HandType::Straight));
    assert!(!wheel.contains_hand(HandType::StraightFlush));
    assert_eq!(wheel.best_hand_type(), HandType::Straight);
}

#[test]
fn wheel_loses_to_every_higher_straight() {
    // the Ace plays low in the wheel, so its high card is the Five
    let wheel = PokerHand::new(vec![
        Card::new(Suit::Spades, Value::Ace),
        Card::new(Suit::Diamonds, Value::Two),
        Card::new(Suit::Clubs, Value::Three),
        Card::new(Suit::Hearts, Value::Four),
        Card::new(Suit::Spades, Value::Five),
    ])
    .unwrap();
    assert_eq!(
        wheel.get_hand_ordering(HandType::Straight),
        vec![Value::Five, Value::Four, Value::Three, Value::Two, Value::Ace]
    );
    let ten_high = PokerHand::new(vec![
        Card::new(Suit::Spades, Value::Six),
        Card::new(Suit::Diamonds, Value::Seven),
        Card::new(Suit::Clubs, Value::Eight),
        Card::new(Suit::Hearts, Value::Nine),
        Card::new(Suit::Spades, Value::Ten),
    ])
    .unwrap();
    assert_eq!(wheel.compare(&ten_high), Ordering::Less);
    assert!(ten_high > wheel);
    let six_high = PokerHand::new(vec![
        Card::new(Suit::Spades, Value::Two),
        Card::new(Suit::Diamonds, Value::Three),
        Card::new(Suit::Clubs, Value::Four),
        Card::new(Suit::Hearts, Value::Five),
        Card::new(Suit::Spades, Value::Six),
    ])
    .unwrap();
    assert_eq!(wheel.compare(&six_high), Ordering::Less);
}

#[test]
fn cards_order_by_value_alone() {
    let two_spades = Card::new(Suit::Spades, Value::Two);
    let two_hearts = Card::new(Suit::Hearts, Value::Two);
    let three_hearts = Card::new(Suit::Hearts, Value::Three);
    let ace_clubs = Card::new(Suit::Clubs, Value::Ace);
    assert!(three_hearts > two_spades);
    assert!(two_spades < ace_clubs);
    assert_eq!(two_spades.partial_cmp(&two_hearts), Some(Ordering::Equal));
    assert!(two_spades != two_hearts);
}

#[test]
fn best_hand_rejects_fewer_than_five_cards() {
    let hand = PlayerHand::new(
        Card::new(Suit::Spades, Value::Ace),
        Card::new(Suit::Spades, Value::King),
    );
    let board = Board::new();
    match board.best_poker_hand(&hand) {
        Err(e) => assert_eq!(e, CardError::InvalidPokerHandCardCount),
        Ok(_) => panic!("two cards cannot make a 5-card hand"),
    }
}

#[test]
fn royal_straight_outranks_wheel() {
    let wheel = PokerHand::new(vec![
        Card::new(Suit::Spades, Value::Ace),
        Card::new(Suit::Diamonds, Value::Two),
        Card::new(Suit::Clubs, Value::Three),
        Card::new(Suit::Hearts, Value::Four),
        Card::new(Suit::Spades, Value::Five),
    ])
    .unwrap();
    let royal = PokerHand::new(vec![
        Card::new(Suit::Spades, Value::Ace),
        Card::new(Suit::Hearts, Value::King),
        Card::new(Suit::Clubs, Value::Queen),
        Card::new(Suit::Diamonds, Value::Jack),
        Card::new(Suit::Spades, Value::Ten),
    ])
    .unwrap();
    assert_eq!(wheel.best_hand_type(), HandType::Straight);
    assert_eq!(royal.best_hand_type(), HandType::Straight);
    assert!(royal > wheel);
    assert_eq!(royal.compare(&wheel), Ordering::Greater);
    assert_eq!(wheel.compare(&royal), Ordering::Less);
}

#[test]
fn compare_is_consistent_and_reflexive() {
    let pair = PokerHand::new(vec![
        Card::new(Suit::Spades, Value::King),
        Card::new(Suit::Hearts, Value::King),
        Card::new(Suit::Clubs, Value::Nine),
        Card::new(Suit::Diamonds, Value::Five),
        Card::new(Suit::Spades, Value::Two),
    ])
    .unwrap();
    let flush = PokerHand::new(vec![
        Card::new(Suit::Hearts, Value::Queen),
        Card::new(Suit::Hearts, Value::Nine),
        Card::new(Suit::Hearts, Value::Seven),
        Card::new(Suit::Hearts, Value::Four),
        Card::new(Suit::Hearts, Value::Two),
    ])
    .unwrap();
    let quads = PokerHand::new(vec![
        Card::new(Suit::Spades, Value::Three),
        Card::new(Suit::Hearts, Value::Three),
        Card::new(Suit::Clubs, Value::Three),
        Card::new(Suit::Diamonds, Value::Three),
        Card::new(Suit::Spades, Value::Eight),
    ])
    .unwrap();
    assert_eq!(pair.compare(&flush), Ordering::Less);
    assert_eq!(flush.compare(&pair), Ordering::Greater);
    assert_eq!(flush.compare(&quads), Ordering::Less);
    assert_eq!(pair.compare(&quads), Ordering::Less);
    assert_eq!(pair.compare(&pair), Ordering::Equal);
    assert!(pair == pair.clone());
}

#[test]
fn hand_ordering_full_house_and_pairs() {
    let full_house = PokerHand::new(vec![
        Card::new(Suit::Spades, Value::King),
        Card::new(Suit::Hearts, Value::King),
        Card::new(Suit::Clubs, Value::King),
        Card::new(Suit::Diamonds, Value::Two),
        Card::new(Suit::Spades, Value::Two),
    ])
    .unwrap();
    assert_eq!(full_house.best_hand_type(), HandType::FullHouse);
    assert_eq!(
        full_house.get_hand_ordering(HandType::FullHouse),
        vec![Value::King, Value::King, Value::King, Value::Two, Value::Two]
    );

    let two_pair = PokerHand::new(vec![
        Card::new(Suit::Spades, Value::Three),
        Card::new(Suit::Hearts, Value::Queen),
        Card::new(Suit::Clubs, Value::Three),
        Card::new(Suit::Diamonds, Value::Queen),
        Card::new(Suit::Spades, Value::Nine),
    ])
    .unwrap();
    assert_eq!(two_pair.best_hand_type(), HandType::DoublePair);
    assert_eq!(
        two_pair.get_hand_ordering(HandType::DoublePair),
        vec![Value::Queen, Value::Queen, Value::Three, Value::Three, Value::Nine]
    );

    let one_pair = PokerHand::new(vec![
        Card::new(Suit::Spades, Value::Five),
        Card::new(Suit::Hearts, Value::Five),
        Card::new(Suit::Clubs, Value::Ace),
        Card::new(Suit::Diamonds, Value::Nine),
        Card::new(Suit::Spades, Value::Three),
    ])
    .unwrap();
    assert_eq!(one_pair.best_hand_type(), HandType::Pair);
    assert_eq!(
        one_pair.get_hand_ordering(HandType::Pair),
        vec![Value::Five, Value::Five, Value::Ace, Value::Nine, Value::Three]
    );
}

#[test]
fn strength_roundtrip_and_values() {
    for s in 0..=8 {
        assert_eq!(HandType::from_strength(s).strength(), s);
    }
    assert_eq!(Value::Ace.number_value(), 14);
    assert_eq!(Value::Two.number_value(), 2);
    assert_eq!(Value::Ace.index(), 12);
    assert_eq!(Value::from_index(0), Value::Two);
    assert_eq!(Suit::from_index(Suit::Hearts.index()), Suit::Hearts);
}

#[test]
fn poker_hand_needs_exactly_five_cards() {
    let cards = vec![
        Card::new(Suit::Spades, Value::Ace),
        Card::new(Suit::Hearts, Value::King),
        Card::new(Suit::Clubs, Value::Queen),
        Card::new(Suit::Diamonds, Value::Jack),
    ];
    match PokerHand::new(cards) {
        Err(e) => assert_eq!(e, CardError::InvalidPokerHandCardCount),
        Ok(_) => panic!("four cards must be rejected"),
    }
}

#[test]
fn board_overflows_at_six_cards() {
    let mut board = Board::new();
    let mut deck = Deck::new();
    for _ in 0..5 {
        board.add_card(deck.draw_card().unwrap()).unwrap();
    }
    assert_eq!(board.card_count(), 5);
    match board.add_card(deck.draw_card().unwrap()) {
        Err(e) => assert_eq!(e, CardError::BoardOverflow),
        Ok(_) => panic!("a sixth community card must be rejected"),
    }
}

#[test]
fn deck_draws_all_52_distinct_then_empties() {
    let mut deck = Deck::new();
    let mut drawn: Vec<Card> = Vec::new();
    for _ in 0..52 {
        drawn.push(deck.draw_card().unwrap());
    }
    for i in 0..drawn.len() {
        for j in (i + 1)..drawn.len() {
            assert!(drawn[i] != drawn[j]);
        }
    }
    match deck.draw_card() {
        Err(e) => assert_eq!(e, CardError::EmptyDeck),
        Ok(_) => panic!("the deck must be empty after 52 draws"),
    }
}

#[test]
fn shuffle_keeps_the_same_52_cards() {
    let mut deck = Deck::new();
    let mut rng = pokr::deck::rng_from_seed(42);
    deck.shuffle(&mut rng);
    let mut drawn: Vec<Card> = Vec::new();
    for _ in 0..52 {
        drawn.push(deck.draw_card().unwrap());
    }
    // still one full deck: every suit/value combination occurs exactly once
    let mut reference = Deck::new();
    for _ in 0..52 {
        let c = reference.draw_card().unwrap();
        assert_eq!(drawn.iter().filter(|d| **d == c).count(), 1);
    }
}

#[test]
fn best_hand_dominates_subsets_and_is_idempotent() {
    let hand = PlayerHand::new(
        Card::new(Suit::Spades, Value::Ace),
        Card::new(Suit::Spades, Value::King),
    );
    let mut board = Board::new();
    board.add_card(Card::new(Suit::Spades, Value::Queen)).unwrap();
    board.add_card(Card::new(Suit::Spades, Value::Jack)).unwrap();
    board.add_card(Card::new(Suit::Spades, Value::Ten)).unwrap();
    board.add_card(Card::new(Suit::Hearts, Value::Two)).unwrap();
    board.add_card(Card::new(Suit::Clubs, Value::Three)).unwrap();
    let best = board.best_poker_hand(&hand).unwrap();
    assert_eq!(best.best_hand_type(), HandType::StraightFlush);

    // a specific 5-card subset never ranks above the selected hand
    let subset = PokerHand::new(vec![
        Card::new(Suit::Spades, Value::Ace),
        Card::new(Suit::Spades, Value::King),
        Card::new(Suit::Spades, Value::Queen),
        Card::new(Suit::Hearts, Value::Two),
        Card::new(Suit::Clubs, Value::Three),
    ])
    .unwrap();
    assert_eq!(subset.compare(&best), Ordering::Less);

    // re-evaluating the same 7 cards returns an equally-ranked hand
    let again = board.best_poker_hand(&hand).unwrap();
    assert_eq!(best.compare(&again), Ordering::Equal);
    assert!(best == again);
}
