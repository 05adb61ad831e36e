use poker_equity::cards::{Card, CardSet, Rank, Suit};
use poker_equity::notation::{parse_hand, HandSpec};
use poker_equity::odds::{certain_cards, last_card_is_shared, names_only_a_rank, pin_open_suits};
use poker_equity::variants::{Draw, TexasHoldem};

fn card(text: &str) -> Card {
    Card::parse_field(text).unwrap()[0]
}

#[test]
fn named_cards_are_certain_and_open_suits_are_not() {
    let named = parse_hand("Ah2c3d", 3).unwrap();
    let certain = certain_cards(&named.alternatives);
    assert_eq!(certain.len(), 3);
    assert!(certain.contains(card("Ah")));

    let suited = parse_hand("AKs", 2).unwrap();
    assert!(certain_cards(&suited.alternatives).is_empty(), "the suit is still open");

    // A card every alternative names is certain.
    let both = parse_hand("Ah Kh, Ah Qd", 2).unwrap();
    assert_eq!(certain_cards(&both.alternatives), CardSet::from_cards(&[card("Ah")]));
    assert!(certain_cards(&[]).is_empty());
}

#[test]
fn only_a_whole_rank_is_an_open_suit() {
    assert!(names_only_a_rank(CardSet::of_rank(Rank::Ace)));
    assert!(!names_only_a_rank(CardSet::of_suit(Suit::Club)));
    assert!(!names_only_a_rank(CardSet::from_cards(&[card("Ah")])));
    assert!(!names_only_a_rank(CardSet::FULL_DECK()));
}

#[test]
fn open_suits_are_pinned_to_the_lowest_free_card() {
    let hands = vec![
        parse_hand("A 2 3", 3).unwrap(),
        parse_hand("Ac A 4", 3).unwrap(),
    ];
    let (pinned, board) = pin_open_suits(&hands, &[CardSet::of_rank(Rank::Two)], CardSet::FULL_DECK())
        .expect("every rank has a card left");
    // The ace of clubs is named outright, so the open aces take the next.
    assert_eq!(pinned[0], HandSpec::from_slots(&[
        CardSet::from_cards(&[card("Ad")]),
        CardSet::from_cards(&[card("2c")]),
        CardSet::from_cards(&[card("3c")]),
    ]));
    assert_eq!(pinned[1], HandSpec::from_slots(&[
        CardSet::from_cards(&[card("Ac")]),
        CardSet::from_cards(&[card("Ah")]),
        CardSet::from_cards(&[card("4c")]),
    ]));
    assert_eq!(board, vec![CardSet::from_cards(&[card("2d")])]);
}

#[test]
fn pinning_leaves_alone_what_it_cannot_pin() {
    let range = vec![parse_hand("AKs", 2).unwrap()];
    assert!(pin_open_suits(&range, &[], CardSet::FULL_DECK()).is_none(), "several holdings");

    let aces_gone = CardSet::FULL_DECK().without(CardSet::of_rank(Rank::Ace));
    let open_ace = vec![parse_hand("A K", 2).unwrap()];
    assert!(pin_open_suits(&open_ace, &[], aces_gone).is_none(), "no ace left to give");
}

#[test]
fn only_a_stud_deal_can_run_the_deck_out() {
    // Eight hold'em players take sixteen cards; no community game shares
    // a last card.
    assert!(!last_card_is_shared(TexasHoldem, 8));
    assert!(!last_card_is_shared(Draw, 10));
}
