use std::cmp::Ordering;

use poker_equity::cards::{Card, Hand, HandRank, Rank, Suit};
use poker_equity::error::{CardError, PokerError};

fn hand(text: &str) -> Hand {
    Hand::from_str(text).unwrap()
}

#[test]
fn five_cards_score_by_category() {
    assert_eq!(hand("AhKhQhJhTh").evaluate().hand_type_value(), 9);
    assert!(matches!(hand("AhKhQhJhTh").evaluate(), HandRank::StraightFlush(Rank::Ace)));
    assert!(matches!(hand("2c2d2h2s3c").evaluate(), HandRank::FourOfAKind(Rank::Two)));
    assert!(matches!(
        hand("KcKdKh3s3c").evaluate(),
        HandRank::FullHouse(Rank::King, Rank::Three)
    ));
    assert_eq!(hand("2h7h9hJhKh").evaluate().hand_type_value(), 6);
    assert!(matches!(hand("9c8dTh7sJc").evaluate(), HandRank::Straight(Rank::Jack)));
    assert!(matches!(hand("5c5d5h9sKc").evaluate(), HandRank::ThreeOfAKind(Rank::Five)));
    assert!(matches!(
        hand("5c5d9h9sKc").evaluate(),
        HandRank::TwoPair(Rank::Nine, Rank::Five, Rank::King)
    ));
    assert_eq!(hand("5c5d9h8sKc").evaluate().hand_type_value(), 2);
    assert_eq!(hand("2c5d9h8sKc").evaluate().hand_type_value(), 1);
}

#[test]
fn kickers_are_listed_high_to_low() {
    match hand("5c5d9h8sKc").evaluate() {
        HandRank::Pair(rank, kickers) => {
            assert_eq!(rank, Rank::Five);
            assert_eq!(kickers, vec![Rank::King, Rank::Nine, Rank::Eight]);
        }
        other => panic!("expected a pair, got {:?}", other),
    }
    match hand("2c5d9h8sKc").evaluate() {
        HandRank::HighCard(ranks) => {
            assert_eq!(ranks, vec![Rank::King, Rank::Nine, Rank::Eight, Rank::Five, Rank::Two]);
        }
        other => panic!("expected a high card, got {:?}", other),
    }
}

#[test]
fn comparing_needs_two_complete_hands() {
    let short = hand("AhKh");
    let full = hand("2c5d9h8sKc");
    assert!(matches!(
        Hand::compare(&short, &full),
        Err(PokerError::Card(CardError::IncompleteHand(2)))
    ));
    // Within a category the higher ranks win.
    let higher = hand("3c5d9h8sKc");
    assert_eq!(Hand::compare(&higher, &full).unwrap(), Ordering::Greater);
    assert_eq!(Hand::compare(&full, &full).unwrap(), Ordering::Equal);
    // Between categories the lower category compares greater.
    let pair = hand("5c5d9h8sKc");
    assert_eq!(Hand::compare(&full, &pair).unwrap(), Ordering::Greater);
}

#[test]
fn comparing_the_other_way_round_gives_the_opposite_answer() {
    let hands = ["AhKhQhJhTh", "2c2d2h2s3c", "KcKdKh3s3c", "5c5d9h8sKc", "2c5d9h8sKc", "3c5d9h8sKc"];
    for a in hands {
        for b in hands {
            let forward = Hand::compare(&hand(a), &hand(b)).unwrap();
            let backward = Hand::compare(&hand(b), &hand(a)).unwrap();
            assert_eq!(forward, backward.reverse(), "{} against {}", a, b);
        }
        assert_eq!(Hand::compare(&hand(a), &hand(a)).unwrap(), Ordering::Equal);
    }
}

#[test]
fn whitespace_never_changes_what_is_read() {
    for (a, b) in [("AhKh", "Ah Kh"), ("AhKhQh", " A h K h Q h "), ("2c", "\t2c\n")] {
        assert_eq!(hand(a).cards(), hand(b).cards());
        assert_eq!(Card::parse_field(a).unwrap(), Card::parse_field(b).unwrap());
    }
}

#[test]
fn reading_a_hand_refuses_what_it_cannot_hold() {
    assert!(matches!(
        Hand::from_str("AhK"),
        Err(PokerError::Card(CardError::InvalidFormat(_)))
    ));
    assert!(matches!(
        Hand::from_str("AhKhQhJhTh9h"),
        Err(PokerError::Card(CardError::TooManyCards(6)))
    ));
    assert!(matches!(
        Hand::from_str("AhXh"),
        Err(PokerError::Card(CardError::InvalidRank('X')))
    ));
    assert_eq!(Hand::from_str(" Ah  Kh ").unwrap().cards(), hand("AhKh").cards());
}

#[test]
fn a_hand_holds_at_most_five() {
    let mut h = hand("AhKhQhJh");
    assert!(h.add_card(Card::new(Suit::Heart, Rank::Ten)).is_ok());
    assert_eq!(h.num_cards(), 5);
    assert!(matches!(
        h.add_card(Card::new(Suit::Heart, Rank::Nine)),
        Err(CardError::TooManyCards(6))
    ));
    assert_eq!(h.num_cards(), 5);
}

#[test]
fn discarding_checks_before_it_throws_anything_away() {
    let mut h = hand("AhKhQhJhTh");
    let missing = Card::new(Suit::Club, Rank::Two);
    let ace = Card::new(Suit::Heart, Rank::Ace);
    assert!(matches!(
        h.discard(&vec![ace, missing]),
        Err(CardError::CardNotFound(card)) if card == missing
    ));
    assert_eq!(h.num_cards(), 5, "nothing went");
    let six = vec![ace; 6];
    assert!(matches!(h.discard(&six), Err(CardError::TooManyDiscards(6))));
    assert!(h.discard(&vec![ace]).is_ok());
    assert_eq!(h.cards(), hand("KhQhJhTh").cards());
}

#[test]
fn a_hand_writes_each_card_after_the_first() {
    assert_eq!(hand("AhKhQh").to_string(), " Kh Qh");
    assert_eq!(hand("").to_string(), "");
}
