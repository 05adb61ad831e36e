use poker_equity::cards::Card;
use poker_equity::error::{CardError, GameError, PokerError};
use poker_equity::game::GameState;
use poker_equity::poker::player::Player;

fn card(text: &str) -> Card {
    Card::parse_field(text).unwrap()[0]
}

#[test]
fn a_player_takes_cards_up_to_five() {
    let mut player = Player::new("Hero".to_string());
    assert_eq!(player.name(), "Hero");
    assert!(player.cards().is_empty());
    player.recieve_cards(vec![card("Ah"), card("Kh"), card("Qh")]).unwrap();
    assert_eq!(player.cards().len(), 3);
    let more = vec![card("Jh"), card("Th"), card("9h")];
    assert!(matches!(player.recieve_cards(more), Err(CardError::TooManyCards(6))));
    assert_eq!(player.cards().len(), 5, "the two that fitted stay");
    assert!(matches!(player.recieve_card(card("2c")), Err(CardError::TooManyCards(6))));
    assert_eq!(player.hand().num_cards(), 5);
}

#[test]
fn a_player_writes_the_name_then_the_hand() {
    let mut player = Player::new("Villain".to_string());
    player.recieve_cards(vec![card("Ah"), card("Kh")]).unwrap();
    assert_eq!(player.to_string(), "Villain:  Kh");
    player.discard(&vec![card("Ah")]).unwrap();
    assert_eq!(player.cards(), &[card("Kh")]);
}

#[test]
fn the_opening_deal_gives_everyone_five_distinct_cards() {
    let mut game = GameState::new(3, vec!["A", "B", "C"]);
    game.deal_initial_hands().unwrap();
    let mut seen = poker_equity::cards::CardSet::EMPTY();
    for player in game.players() {
        assert_eq!(player.cards().len(), 5);
        for c in player.cards() {
            assert!(!seen.contains(*c), "{} dealt twice", c.to_string());
            seen.insert(*c);
        }
    }
    // A second deal finds every hand full.
    assert!(matches!(
        game.deal_initial_hands(),
        Err(PokerError::Card(CardError::TooManyCards(6)))
    ));
}

#[test]
fn a_deck_runs_out_for_eleven_players() {
    let names = vec!["p"; 11];
    let mut game = GameState::new(11, names);
    assert!(matches!(
        game.deal_initial_hands(),
        Err(PokerError::Game(GameError::NotEnoughCards))
    ));
}

#[test]
fn exchanges_are_refused_for_strangers_and_cards_not_held() {
    let mut game = GameState::new(1, vec!["Hero"]);
    game.deal_initial_hands().unwrap();
    assert!(matches!(
        game.find_player("Nobody"),
        Err(GameError::PlayerNotFound(name)) if name == "Nobody"
    ));
    assert!(matches!(
        game.discard_and_draw("Nobody", vec![]),
        Err(PokerError::Game(GameError::PlayerNotFound(_)))
    ));
    let held = game.find_player("Hero").unwrap().cards().to_vec();
    let absent = (0..52u8)
        .filter_map(Card::from_index)
        .find(|c| !held.contains(c))
        .unwrap();
    assert!(matches!(
        game.discard_and_draw("Hero", vec![absent]),
        Err(PokerError::Card(CardError::CardNotFound(c))) if c == absent
    ));
    assert!(matches!(
        game.discard_and_draw("Hero", vec![held[0]; 6]),
        Err(PokerError::Card(CardError::TooManyDiscards(6)))
    ));
    assert_eq!(game.find_player("Hero").unwrap().cards(), &held[..], "nothing changed");
    // Throwing the same card away twice draws two and overfills the hand.
    assert!(matches!(
        game.discard_and_draw("Hero", vec![held[0], held[0]]),
        Err(PokerError::Card(CardError::TooManyCards(6)))
    ));
}
