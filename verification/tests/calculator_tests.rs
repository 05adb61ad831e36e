use poker_equity::cards::Card;
use poker_equity::error::{CardError, EquityError, GameError, PokerError};
use poker_equity::hand::Hand;
use poker_equity::odds::{chunk_sizes, EquityCalculator};
use poker_equity::variants::Draw;

fn cards(text: &str) -> Vec<Card> {
    Card::parse_field(text).unwrap()
}

#[test]
fn seats_keep_their_hands_and_discards() {
    let mut calculator = EquityCalculator::new(Draw, 1000);
    calculator
        .add_player("Alice".to_string(), Hand::from_str(Draw, "7d5h4c3s2h").unwrap())
        .unwrap();
    calculator
        .add_draw_player(
            "Bob".to_string(),
            Hand::from_str(Draw, "Ad5s4h3d2c").unwrap(),
            Some(cards("Ad")),
        )
        .unwrap();
    calculator
        .add_draw_player("Carol".to_string(), Hand::new(Draw), None)
        .unwrap();
    let seats = calculator.players();
    assert_eq!(seats.len(), 3);
    assert_eq!(seats[0].0, "Alice");
    assert!(seats[0].2.is_empty());
    assert_eq!(seats[1].2, cards("Ad"));
    assert!(seats[2].2.is_empty());
    assert!(calculator.dead_cards().is_empty());
    assert!(calculator.community_cards().is_empty());
}

#[test]
fn a_card_held_or_already_dead_cannot_be_dead() {
    let mut calculator = EquityCalculator::new(Draw, 1000);
    calculator
        .add_player("Alice".to_string(), Hand::from_str(Draw, "7d5h4c3s2h").unwrap())
        .unwrap();
    assert!(matches!(
        calculator.add_dead_cards(cards("Kc 7d")),
        Err(PokerError::Game(GameError::DuplicateCard(card))) if card == cards("7d")[0]
    ));
    assert!(calculator.dead_cards().is_empty(), "nothing added when refused");
    calculator.add_dead_cards(cards("7h 7s")).unwrap();
    assert_eq!(calculator.dead_cards(), &cards("7h 7s")[..]);
    assert!(matches!(
        calculator.add_dead_cards(cards("7s")),
        Err(PokerError::Game(GameError::DuplicateCard(_)))
    ));
}

#[test]
fn every_game_needs_two_players_and_no_card_twice() {
    let mut calculator = EquityCalculator::new(Draw, 1000);
    calculator
        .add_player("Alice".to_string(), Hand::from_str(Draw, "7d5h4c3s2h").unwrap())
        .unwrap();
    assert!(matches!(
        calculator.validate_base(),
        Err(PokerError::Equity(EquityError::NoPlayers))
    ));
    calculator
        .add_player("Bob".to_string(), Hand::from_str(Draw, "Ad5s4h3d2c").unwrap())
        .unwrap();
    assert!(calculator.validate_base().is_ok());
    // The board is checked last, and the first card seen again is named.
    calculator.set_community_cards(cards("Kh 7d")).unwrap();
    assert!(matches!(
        calculator.validate_base(),
        Err(PokerError::Game(GameError::DuplicateCard(card))) if card == cards("7d")[0]
    ));
}

#[test]
fn the_starting_deck_leaves_out_every_known_card() {
    let mut calculator = EquityCalculator::new(Draw, 1000);
    calculator
        .add_player("Alice".to_string(), Hand::from_str(Draw, "7d5h4c3s2h").unwrap())
        .unwrap();
    calculator
        .add_player("Bob".to_string(), Hand::from_str(Draw, "Ad5s4h3d2c").unwrap())
        .unwrap();
    calculator.add_dead_cards(cards("Kh Ks")).unwrap();
    let deck = calculator.starting_deck().unwrap();
    assert_eq!(deck.remaining_cards(), 52 - 12);
    assert!(!deck.remaining().contains(cards("Kh")[0]));
    assert!(!deck.remaining().contains(cards("2c")[0]));
    assert!(deck.remaining().contains(cards("Ah")[0]));

    // A board card one of the seats already holds is gone by its turn.
    calculator.set_community_cards(cards("Qc 7d")).unwrap();
    assert!(matches!(
        calculator.starting_deck(),
        Err(PokerError::Card(CardError::CardNotFound(c))) if c == cards("7d")[0]
    ));
}

#[test]
fn simulations_are_split_into_chunks() {
    assert_eq!(chunk_sizes(25_000), vec![10_000, 10_000, 5_000]);
    assert_eq!(chunk_sizes(20_000), vec![10_000, 10_000]);
    assert_eq!(chunk_sizes(999), vec![999]);
    assert!(chunk_sizes(0).is_empty());
}
