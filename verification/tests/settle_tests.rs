use poker_equity::cards::{Card, CardSet};
use poker_equity::error::{EquityError, GameError, PokerError};
use poker_equity::notation::{parse_board, parse_hand, NotationErrorKind};
use poker_equity::odds::{settle_request, settle_text, SettledRequest};
use poker_equity::variants::{Draw, Omaha, TexasHoldem};

fn card(text: &str) -> Card {
    Card::parse_field(text).unwrap()[0]
}

fn holdem(hands: &[&str], board: &str, dead: &str) -> Result<SettledRequest, PokerError> {
    settle_text(TexasHoldem, hands, board, dead)
}

fn omaha(hands: &[&str], board: &str) -> Result<SettledRequest, PokerError> {
    settle_text(Omaha, hands, board, "")
}

fn draw(hands: &[&str], dead: &str) -> Result<SettledRequest, PokerError> {
    settle_text(Draw, hands, "", dead)
}

fn names_card(error: &PokerError, name: &str) -> bool {
    matches!(error, PokerError::Game(GameError::DuplicateCard(c)) if c.to_string() == name)
}

#[test]
fn test_a_bad_holdem_request_is_refused_with_a_reason() {
    let build = |hands: &[&str], board: &str, dead: &str| holdem(hands, board, dead).map(|_| ());

    // Equity is a comparison, so one hand is not a question.
    assert!(matches!(build(&[], "", ""), Err(PokerError::Equity(EquityError::NoPlayers))));
    assert!(matches!(build(&["AhKh"], "", ""), Err(PokerError::Equity(EquityError::NoPlayers))));

    // Hold'em deals both hole cards at once, so a field of one card is a
    // miscount rather than a hand in progress.
    let one_card = build(&["Ah", "Ks"], "", "").unwrap_err();
    assert!(
        matches!(
            &one_card,
            PokerError::Equity(EquityError::Notation(e))
                if matches!(e.kind, NotationErrorKind::WrongSlotCount { expected: 2, found: 1 })
        ),
        "got {:?}",
        one_card
    );
    assert!(build(&["AhKhQh", "2h2d"], "", "").is_err(), "three is too many");
    assert!(build(&["", "AhKh"], "", "").is_err(), "an empty field is not a hand");

    // A card is in one place or none, and the refusal names it.
    for (label, hands, board, dead) in [
        ("two seats", &["AhKh", "AhQd"][..], "", ""),
        ("a seat and the board", &["AhKh", "2h2d"][..], "AhQcJc", ""),
        ("a seat and the dead cards", &["AhKh", "2h2d"][..], "", "Ah"),
    ] {
        let error = build(hands, board, dead).unwrap_err();
        assert!(names_card(&error, "Ah"), "{} claiming Ah gave {:?}", label, error);
    }

    // Five cards is the whole board.
    assert!(build(&["AhKh", "2h2d"], "2c3c4c5c6c7c", "").is_err());
}

#[test]
fn test_slot_counts_are_checked() {
    assert!(holdem(&["AhKhQh", "QsJs"], "", "").is_err());
    assert!(holdem(&["AhKh"], "", "").is_err());
}

#[test]
fn test_a_bad_omaha_request_is_refused() {
    assert!(matches!(omaha(&["AsKsQcJd"], ""), Err(PokerError::Equity(EquityError::NoPlayers))));
    for short in [&["Ah", "KsQcJdTs"], &["9h8h7h", "AsKsQcJd"]] {
        assert!(omaha(short, "").is_err(), "{:?} is not four cards a seat", short);
    }
    assert!(omaha(&["2h3h4h5h6h", "TsJsQcKd"], "").is_err(), "five is too many");
    assert!(omaha(&["Ah**Kd", "TsJsQc9d"], "").is_ok());
    for (hands, board) in [(["AsKsQcJd", "As2d3h4c"], ""), (["AsKsQcJd", "Th9h8c7d"], "As2c3d")] {
        let refused = omaha(&hands, board).unwrap_err();
        assert!(names_card(&refused, "As"), "{:?} on {:?} gave {:?}", hands, board, refused);
    }
    assert!(omaha(&["AsKsQcJd", "Th9h8c7d"], "2c3d4h5s6c7s").is_err());
}

#[test]
fn five_card_draw_equity_tests_test_a_card_cannot_be_dead_and_in_a_hand() {
    let refused = draw(&["AhKhQh7h", "JsJdTsTc3d"], "Ah").unwrap_err();
    assert!(names_card(&refused, "Ah"), "got {:?}", refused);
}

#[test]
fn a_settled_request_is_filled_out_to_the_game() {
    let settled = holdem(&["AhKh", "2c 2d"], "Qs Js", "7c").unwrap();
    assert_eq!(settled.players, 2);
    assert_eq!(settled.hole, 2);
    assert_eq!(settled.board_slots, 5);
    assert_eq!(settled.hands.len(), 2);
    assert_eq!(settled.board.len(), 5);
    assert_eq!(settled.board[0], CardSet::from_cards(&[card("Qs")]));
    assert_eq!(settled.board[2], CardSet::FULL_DECK());
    assert_eq!(settled.board[4], CardSet::FULL_DECK());
    assert!(!settled.available.contains(card("7c")));
    assert_eq!(settled.available.len(), 51);
    // Each hand, then the board last.
    assert_eq!(settled.certain.len(), 3);
    assert_eq!(settled.certain[0], CardSet::from_cards(&[card("Ah"), card("Kh")]));
    assert_eq!(settled.certain[1], CardSet::from_cards(&[card("2c"), card("2d")]));
    assert_eq!(settled.certain[2], CardSet::from_cards(&[card("Qs"), card("Js")]));
    assert_eq!(settled.spoken_for.len(), 6);
}

#[test]
fn a_short_draw_hand_is_filled_out_with_wildcards() {
    let settled = draw(&["AhKhQh7h", "JsJdTsTc3d"], "2c").unwrap();
    assert_eq!(settled.hole, 5);
    assert_eq!(settled.board_slots, 0);
    assert!(settled.board.is_empty());
    let drawing = &settled.hands[0].alternatives[0];
    assert_eq!(drawing.len(), 5);
    assert_eq!(drawing[4], CardSet::FULL_DECK());
    assert_eq!(settled.certain[0].len(), 4);
    assert_eq!(settled.certain[1].len(), 5);
    assert!(settled.certain[2].is_empty(), "no board, nothing certain on it");
    // Six is more than a draw hand holds: the text says so as it is read,
    // and masks say so when they are settled.
    assert!(matches!(
        draw(&["AhKhQh7h2c3c", "JsJdTsTc3d"], ""),
        Err(PokerError::Equity(EquityError::Notation(_)))
    ));
    let hands = vec![parse_hand("AhKhQh7h2c3c", 6).unwrap(), parse_hand("JsJdTsTc3d", 5).unwrap()];
    assert!(matches!(
        settle_request(Draw, &hands, &[], CardSet::EMPTY()),
        Err(PokerError::Equity(EquityError::NotEnoughCards(6)))
    ));
}

#[test]
fn a_short_community_hand_is_a_miscount() {
    let hands = vec![parse_hand("Ah", 1).unwrap(), parse_hand("KsKd", 2).unwrap()];
    let refused = settle_request(TexasHoldem, &hands, &[], CardSet::EMPTY()).unwrap_err();
    assert!(matches!(refused, PokerError::Equity(EquityError::NotEnoughCards(1))), "got {:?}", refused);
}

#[test]
fn each_game_seats_what_its_deck_allows() {
    let hand = parse_hand("AhKh", 2).unwrap();
    let full = vec![hand.clone(); 23];
    assert!(settle_request(TexasHoldem, &full, &[], CardSet::EMPTY()).is_err(), "all the same hand");
    let over = vec![hand; 24];
    assert!(matches!(
        settle_request(TexasHoldem, &over, &[], CardSet::EMPTY()),
        Err(PokerError::Equity(EquityError::TooManyPlayers { asked: 24, room: 23 }))
    ));
    let omaha_hand = parse_hand("AhKhQhJh", 4).unwrap();
    assert!(matches!(
        settle_request(Omaha, &vec![omaha_hand; 12], &[], CardSet::EMPTY()),
        Err(PokerError::Equity(EquityError::TooManyPlayers { asked: 12, room: 11 }))
    ));
    let draw_hand = parse_hand("AhKhQhJhTh", 5).unwrap();
    assert!(matches!(
        settle_request(Draw, &vec![draw_hand; 11], &[], CardSet::EMPTY()),
        Err(PokerError::Equity(EquityError::TooManyPlayers { asked: 11, room: 10 }))
    ));
}

#[test]
fn a_wildcard_hand_that_no_card_fits_is_refused() {
    let empty = poker_equity::notation::HandSpec::from_slots(&[CardSet::EMPTY(), CardSet::FULL_DECK()]);
    let hands = vec![empty, parse_hand("KsKd", 2).unwrap()];
    let refused = settle_request(TexasHoldem, &hands, &[], CardSet::EMPTY()).unwrap_err();
    assert!(matches!(&refused, PokerError::Equity(EquityError::Infeasible(m)) if m == "a hand"), "got {:?}", refused);
}

#[test]
fn a_board_longer_than_the_game_is_refused() {
    let hands = vec![parse_hand("AhKh", 2).unwrap(), parse_hand("KsKd", 2).unwrap()];
    let board = parse_board("2c 3c 4c 5c 6c 7c", 6).unwrap();
    assert!(matches!(
        settle_request(TexasHoldem, &hands, &board, CardSet::EMPTY()),
        Err(PokerError::Equity(EquityError::InvalidCommunityCards(6)))
    ));
}

#[test]
fn a_named_card_that_is_dead_is_a_duplicate() {
    let hands = vec![parse_hand("AhKh", 2).unwrap(), parse_hand("QsQd", 2).unwrap()];
    let dead = CardSet::from_cards(&[card("Kh")]);
    let refused = settle_request(TexasHoldem, &hands, &[], dead).unwrap_err();
    assert!(names_card(&refused, "Kh"), "got {:?}", refused);
}

#[test]
fn the_first_clash_is_the_lowest_card_shared() {
    let refused = holdem(&["AhKh", "AhKh"], "", "").unwrap_err();
    // Kings come before aces in the deck's order.
    assert!(names_card(&refused, "Kh"), "got {:?}", refused);
}

#[test]
fn a_short_field_is_read_up_to_the_game_size() {
    let short = poker_equity::notation::parse_hand_up_to("AhKhQh", 5).unwrap();
    assert_eq!(short.alternatives.len(), 1);
    assert_eq!(short.alternatives[0].len(), 3);
    assert!(parse_hand("AhKhQh", 5).is_err(), "a whole hand names all five");
    assert!(poker_equity::notation::parse_hand_up_to("AhKhQhJhTh9h", 5).is_err());
}

#[test]
fn a_board_holds_at_most_its_limit() {
    assert_eq!(parse_board("Kh Qh Jh", 5).unwrap().len(), 3);
    assert!(parse_board("Kh Qh Jh Th 9h 8h", 5).is_err());
}

#[test]
fn a_request_no_deal_can_meet_is_refused() {
    // Five hearts wanted from a deck with only four left.
    let too_few = holdem(&["h h", "h h"], "h", "2h 3h 4h 5h 6h 7h 8h 9h Th");
    assert!(
        matches!(&too_few, Err(PokerError::Equity(EquityError::Infeasible(m))) if m == "the hands, board and dead cards together"),
        "got {:?}",
        too_few
    );
    // Three pairs of aces need six aces.
    let aces = holdem(&["AA", "AA", "AA"], "", "");
    assert!(matches!(aces, Err(PokerError::Equity(EquityError::Infeasible(_)))), "got {:?}", aces);
    // Two pairs of aces take all four, which is still a deal.
    assert!(holdem(&["AA", "AA"], "", "").is_ok());
    // Four hearts wanted from the four that are left.
    assert!(holdem(&["h h", "Ac Kc"], "h", "2h 3h 4h 5h 6h 7h 8h 9h Th").is_ok());
}
