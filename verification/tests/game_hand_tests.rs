use poker_equity::cards::{Card, Rank, Suit};
use poker_equity::error::{CardError, PokerError};
use poker_equity::hand::Hand;
use poker_equity::variants::rules::Draw as DrawRules;
use poker_equity::variants::{Draw, Omaha, PokerType, PokerVariant, TexasHoldem};

#[test]
fn each_game_says_what_it_deals() {
    assert_eq!(TexasHoldem.poker_type(), PokerType::Holdem);
    assert_eq!(TexasHoldem.max_cards(), 7);
    assert_eq!(TexasHoldem.hole_cards(), 2);
    assert_eq!(Omaha.poker_type(), PokerType::Omaha);
    assert_eq!(Omaha.max_cards(), 9);
    assert_eq!(Omaha.hole_cards(), 4);
    assert_eq!(PokerVariant::poker_type(&Draw), PokerType::Draw);
    assert_eq!(Draw.max_cards(), 5);
    assert_eq!(Draw.hole_cards(), 5);
    assert_eq!(DrawRules::valid_hand_size(&Draw), 5);
    assert_eq!(DrawRules::poker_type(&Draw), PokerType::Draw);
    assert_eq!(TexasHoldem.deck().len(), 52);
}

#[test]
fn a_hand_holds_what_its_game_deals() {
    let seven = Hand::from_str(TexasHoldem, "AhKh 2c3d4s 9h9d").unwrap();
    assert_eq!(seven.num_cards(), 7);
    assert!(matches!(
        Hand::from_str(TexasHoldem, "AhKh2c3d4s9h9dTc"),
        Err(PokerError::Card(CardError::TooManyCards(8)))
    ));
    assert!(matches!(
        Hand::from_str(Draw, "AhK"),
        Err(PokerError::Card(CardError::InvalidFormat(_)))
    ));
    assert_eq!(Hand::from_str(Omaha, "   ").unwrap().num_cards(), 0);
    let cards = vec![Card::new(Suit::Heart, Rank::Ace); 6];
    assert!(matches!(Hand::new_with_cards(Draw, cards), Err(CardError::TooManyCards(6))));
}

#[test]
fn refilling_writes_over_the_cards() {
    let mut hand = Hand::new(TexasHoldem);
    let hole = vec![Card::new(Suit::Heart, Rank::Ace), Card::new(Suit::Heart, Rank::King)];
    let board = vec![
        Card::new(Suit::Heart, Rank::Queen),
        Card::new(Suit::Heart, Rank::Jack),
        Card::new(Suit::Heart, Rank::Ten),
    ];
    hand.refill(&hole, &board).unwrap();
    assert_eq!(hand.num_cards(), 5);
    assert_eq!(hand.cards()[0], hole[0]);
    assert_eq!(hand.cards()[4], board[2]);
    assert_eq!(hand.evaluate().hand_type_value(), 9);
    let too_many = vec![Card::new(Suit::Club, Rank::Two); 6];
    assert!(matches!(hand.refill(&hole, &too_many), Err(CardError::TooManyCards(8))));
    assert_eq!(hand.num_cards(), 5, "left as it was");
}

#[test]
fn adding_stops_at_the_first_card_that_will_not_fit() {
    let mut hand = Hand::new(Draw);
    let cards = vec![Card::new(Suit::Club, Rank::Two); 7];
    assert!(matches!(hand.add_cards(cards), Err(CardError::TooManyCards(6))));
    assert_eq!(hand.num_cards(), 5, "the cards before it stay");
    assert!(matches!(
        hand.add_card(Card::new(Suit::Club, Rank::Three)),
        Err(CardError::TooManyCards(6))
    ));
}

#[test]
fn a_game_hand_discards_as_a_hand_does() {
    let mut hand = Hand::from_str(Draw, "AhKhQhJhTh").unwrap();
    let ace = Card::new(Suit::Heart, Rank::Ace);
    assert!(hand.discard(&vec![ace]).is_ok());
    assert_eq!(hand.num_cards(), 4);
    assert!(matches!(hand.discard(&vec![ace]), Err(CardError::CardNotFound(_))));
    let copy = hand.clone();
    assert_eq!(copy.cards(), hand.cards());
}

#[test]
fn a_game_hand_writes_every_card() {
    assert_eq!(Hand::from_str(Draw, "AhKh 2c").unwrap().to_string(), "Ah Kh 2c");
    assert_eq!(Hand::new(Omaha).to_string(), "");
}
