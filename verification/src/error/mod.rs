//! The errors every part of the library reports.

use vstd::prelude::*;

use crate::cards::Card;
use crate::notation::{error_text, NotationError};
use crate::text::{decimal, push_char, push_decimal, push_str};

verus! {

/// Anything that can go wrong, whatever part it came from.
#[derive(Debug)]
pub enum PokerError {
    Card(CardError),
    Game(GameError),
    Equity(EquityError),
}

impl From<CardError> for PokerError {
    fn from(error: CardError) -> (r: Self) {
        PokerError::Card(error)
    }
}

impl vstd::std_specs::convert::FromSpecImpl<CardError> for PokerError {
    open spec fn obeys_from_spec() -> bool {
        true
    }

    open spec fn from_spec(v: CardError) -> PokerError {
        PokerError::Card(v)
    }
}

impl From<GameError> for PokerError {
    fn from(error: GameError) -> (r: Self) {
        PokerError::Game(error)
    }
}

impl vstd::std_specs::convert::FromSpecImpl<GameError> for PokerError {
    open spec fn obeys_from_spec() -> bool {
        true
    }

    open spec fn from_spec(v: GameError) -> PokerError {
        PokerError::Game(v)
    }
}

impl From<EquityError> for PokerError {
    fn from(error: EquityError) -> (r: Self) {
        PokerError::Equity(error)
    }
}

impl vstd::std_specs::convert::FromSpecImpl<EquityError> for PokerError {
    open spec fn obeys_from_spec() -> bool {
        true
    }

    open spec fn from_spec(v: EquityError) -> PokerError {
        PokerError::Equity(v)
    }
}

impl From<NotationError> for PokerError {
    fn from(error: NotationError) -> (r: Self) {
        PokerError::Equity(EquityError::Notation(error))
    }
}

impl vstd::std_specs::convert::FromSpecImpl<NotationError> for PokerError {
    open spec fn obeys_from_spec() -> bool {
        true
    }

    open spec fn from_spec(v: NotationError) -> PokerError {
        PokerError::Equity(EquityError::Notation(v))
    }
}

/// A move or a deal that the rules do not allow.
#[derive(Debug)]
pub enum GameError {
    PlayerNotFound(String),
    InactivePlayer(String),
    InvalidDiscard(Card),
    DuplicateCard(Card),
    /// A card that this game's deck does not contain -- a deuce in short
    /// deck, say. Naming it is a mistake about the game, not about the hand.
    NotInDeck(Card),
    NotEnoughCards,
}

/// A card, or a group of cards, that could not be read or used.
#[derive(Debug)]
pub enum CardError {
    IncompleteHand(usize),
    InvalidComparison,
    InvalidFormat(String),
    InvalidRank(char),
    InvalidSuit(char),
    TooManyCards(usize),
    TooManyDiscards(usize),
    CardNotFound(Card),
}

/// A request the engine cannot answer as asked.
#[derive(Debug)]
pub enum EquityError {
    NoPlayers,
    NotEnoughCards(usize),
    InvalidSimulationCount(usize),
    UnequalHandSizes,
    InvalidCommunityCards(usize),
    /// A board shorter than the game's floor: how many it shows before the
    /// betting, and how many were named.
    NotEnoughBoardCards { least: usize, found: usize },
    /// More seats than the deck can deal: how many were asked for, and how
    /// many the game has room for.
    TooManyPlayers { asked: usize, room: usize },
    /// No deal satisfies the request, with the field at fault named.
    Infeasible(String),
    /// A notation field could not be read.
    Notation(NotationError),
}

/// What a game error says, in a sentence.
pub open spec fn game_error_text(e: GameError) -> Seq<char> {
    match e {
        GameError::PlayerNotFound(name) => "Player '"@ + name@ + "' not found"@,
        GameError::DuplicateCard(card) => "Found duplicated card: "@ + card.name(),
        GameError::InvalidDiscard(card) => "Card not in hand "@ + card.name(),
        GameError::InactivePlayer(name) => "Player '"@ + name@ + "' is not active"@,
        GameError::NotInDeck(card) => card.name() + " is not in this game's deck"@,
        GameError::NotEnoughCards => "Not enough cards in deck"@,
    }
}

/// What a card error says, in a sentence.
pub open spec fn card_error_text(e: CardError) -> Seq<char> {
    match e {
        CardError::IncompleteHand(n) => "All hands not dealt yet: "@ + decimal(n as nat),
        CardError::InvalidComparison => "Error comparing hands"@,
        CardError::InvalidFormat(s) => s@,
        CardError::InvalidRank(c) => "Invalid rank character: "@ + seq![c],
        CardError::InvalidSuit(c) => "Invalid suit character: "@ + seq![c],
        CardError::TooManyCards(n) => "Too many cards in Vec: "@ + decimal(n as nat),
        CardError::TooManyDiscards(n) => "Cannot discard more than 5 cards: "@ + decimal(n as nat),
        CardError::CardNotFound(card) => "Card not found "@ + card.name(),
    }
}

/// What an equity error says, in a sentence.
pub open spec fn equity_error_text(e: EquityError) -> Seq<char> {
    match e {
        EquityError::NoPlayers => "Need atleast 2 players for a simulation"@,
        EquityError::NotEnoughCards(n) => "Not enough cards in hand: "@ + decimal(n as nat),
        EquityError::InvalidSimulationCount(n) => "Invalid number of simulations: "@ + decimal(
            n as nat,
        ),
        EquityError::UnequalHandSizes => "Starting hands with different sizes"@,
        EquityError::TooManyPlayers { asked, room } => decimal(asked as nat)
            + " players is more than this game can deal; the deck seats "@ + decimal(room as nat),
        EquityError::Infeasible(field) => "No deal can satisfy "@ + field@,
        EquityError::Notation(error) => error_text(error@),
        EquityError::InvalidCommunityCards(n) => "Invalid number of community cards: "@ + decimal(
            n as nat,
        ),
        EquityError::NotEnoughBoardCards { least, found } => "this game turns "@ + decimal(
            least as nat,
        ) + " board card"@ + (if least == 1 {
            ""@
        } else {
            "s"@
        }) + " face up before the betting, so a board of "@ + decimal(found as nat)
            + " is not a spot that occurs; write `*` for a card that has been dealt and not yet seen"@,
    }
}

/// What any error says, in a sentence.
pub open spec fn poker_error_text(e: PokerError) -> Seq<char> {
    match e {
        PokerError::Card(error) => card_error_text(error),
        PokerError::Game(error) => game_error_text(error),
        PokerError::Equity(error) => equity_error_text(error),
    }
}

impl GameError {
    /// What went wrong, in a sentence.
    pub fn description(&self) -> (r: String)
        ensures
            r@ == game_error_text(*self),
    {
        let mut s = String::new();
        match self {
            GameError::PlayerNotFound(name) => {
                push_str(&mut s, "Player '");
                push_str(&mut s, name.as_str());
                push_str(&mut s, "' not found");
            },
            GameError::DuplicateCard(card) => {
                push_str(&mut s, "Found duplicated card: ");
                push_str(&mut s, card.to_string().as_str());
            },
            GameError::InvalidDiscard(card) => {
                push_str(&mut s, "Card not in hand ");
                push_str(&mut s, card.to_string().as_str());
            },
            GameError::InactivePlayer(name) => {
                push_str(&mut s, "Player '");
                push_str(&mut s, name.as_str());
                push_str(&mut s, "' is not active");
            },
            GameError::NotInDeck(card) => {
                push_str(&mut s, card.to_string().as_str());
                push_str(&mut s, " is not in this game's deck");
            },
            GameError::NotEnoughCards => push_str(&mut s, "Not enough cards in deck"),
        }
        assert(s@ =~= game_error_text(*self));
        s
    }
}

impl CardError {
    /// What went wrong, in a sentence.
    pub fn description(&self) -> (r: String)
        ensures
            r@ == card_error_text(*self),
    {
        let mut s = String::new();
        match self {
            CardError::IncompleteHand(n) => {
                push_str(&mut s, "All hands not dealt yet: ");
                push_decimal(&mut s, *n);
            },
            CardError::InvalidComparison => push_str(&mut s, "Error comparing hands"),
            CardError::InvalidFormat(text) => push_str(&mut s, text.as_str()),
            CardError::InvalidRank(c) => {
                push_str(&mut s, "Invalid rank character: ");
                push_char(&mut s, *c);
            },
            CardError::InvalidSuit(c) => {
                push_str(&mut s, "Invalid suit character: ");
                push_char(&mut s, *c);
            },
            CardError::TooManyCards(n) => {
                push_str(&mut s, "Too many cards in Vec: ");
                push_decimal(&mut s, *n);
            },
            CardError::TooManyDiscards(n) => {
                push_str(&mut s, "Cannot discard more than 5 cards: ");
                push_decimal(&mut s, *n);
            },
            CardError::CardNotFound(card) => {
                push_str(&mut s, "Card not found ");
                push_str(&mut s, card.to_string().as_str());
            },
        }
        assert(s@ =~= card_error_text(*self));
        s
    }
}

impl EquityError {
    /// What went wrong, in a sentence.
    pub fn description(&self) -> (r: String)
        ensures
            r@ == equity_error_text(*self),
    {
        let mut s = String::new();
        match self {
            EquityError::NoPlayers => push_str(&mut s, "Need atleast 2 players for a simulation"),
            EquityError::NotEnoughCards(n) => {
                push_str(&mut s, "Not enough cards in hand: ");
                push_decimal(&mut s, *n);
            },
            EquityError::InvalidSimulationCount(n) => {
                push_str(&mut s, "Invalid number of simulations: ");
                push_decimal(&mut s, *n);
            },
            EquityError::UnequalHandSizes => push_str(&mut s, "Starting hands with different sizes"),
            EquityError::TooManyPlayers { asked, room } => {
                push_decimal(&mut s, *asked);
                push_str(&mut s, " players is more than this game can deal; the deck seats ");
                push_decimal(&mut s, *room);
            },
            EquityError::Infeasible(field) => {
                push_str(&mut s, "No deal can satisfy ");
                push_str(&mut s, field.as_str());
            },
            EquityError::Notation(error) => {
                push_str(&mut s, error.to_string().as_str());
            },
            EquityError::InvalidCommunityCards(n) => {
                push_str(&mut s, "Invalid number of community cards: ");
                push_decimal(&mut s, *n);
            },
            EquityError::NotEnoughBoardCards { least, found } => {
                push_str(&mut s, "this game turns ");
                push_decimal(&mut s, *least);
                push_str(&mut s, " board card");
                push_str(
                    &mut s,
                    if *least == 1 {
                        ""
                    } else {
                        "s"
                    },
                );
                push_str(&mut s, " face up before the betting, so a board of ");
                push_decimal(&mut s, *found);
                push_str(
                    &mut s,
                    " is not a spot that occurs; write `*` for a card that has been dealt and not yet seen",
                );
            },
        }
        assert(s@ =~= equity_error_text(*self));
        s
    }
}

impl PokerError {
    /// What went wrong, in a sentence, whichever part it came from.
    pub fn to_string(&self) -> (r: String)
        ensures
            r@ == poker_error_text(*self),
    {
        match self {
            PokerError::Card(error) => error.description(),
            PokerError::Game(error) => error.description(),
            PokerError::Equity(error) => error.description(),
        }
    }
}

} // verus!
