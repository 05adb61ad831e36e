//! A player in a draw game.

use vstd::prelude::*;

use super::Player;
use crate::cards::Card;
use crate::poker::variants::PokerType;

verus! {

/// A player in a draw game: a name, the cards held, and the cards they mean
/// to exchange.
pub struct DrawPlayer {
    name: String,
    cards: Vec<Card>,
    cards_to_discard: Vec<Card>,
}

impl DrawPlayer {
    /// The player's name, in spec code.
    pub closed spec fn named(&self) -> Seq<char> {
        self.name@
    }

    /// The cards the player holds, in spec code.
    pub closed spec fn held(&self) -> Seq<Card> {
        self.cards@
    }

    /// The cards the player means to exchange, in spec code.
    pub closed spec fn exchanging(&self) -> Seq<Card> {
        self.cards_to_discard@
    }

    /// The cards the player means to exchange.
    pub fn cards_to_discard(&self) -> (r: &[Card])
        ensures
            r@ == self.exchanging(),
    {
        self.cards_to_discard.as_slice()
    }
}

impl Player for DrawPlayer {
    fn name(&self) -> (r: &str)
        ensures
            r@ == self.named(),
    {
        self.name.as_str()
    }

    fn cards(&self) -> (r: &[Card])
        ensures
            r@ == self.held(),
    {
        self.cards.as_slice()
    }

    fn poker_type(&self) -> (r: PokerType)
        ensures
            r == PokerType::Draw,
    {
        PokerType::Draw
    }
}

} // verus!
