//! Texas hold'em.

use vstd::prelude::*;

use super::{PokerType, PokerVariant};
use crate::cards::{deck_indices, evaluate, five_card_rank, Card, CardSet, HandRank, HandValue};

verus! {

/// Texas hold'em: two private cards each and five on the board.
///
/// A hand is scored by the five-card evaluator over the cards it holds.
#[derive(Debug, Clone, Copy)]
pub struct TexasHoldem;

impl PokerVariant for TexasHoldem {
    open spec fn family(&self) -> PokerType {
        PokerType::Holdem
    }

    open spec fn hand_limit(&self) -> nat {
        7
    }

    open spec fn private_cards(&self) -> nat {
        2
    }

    open spec fn deck_cards(&self) -> Set<int> {
        deck_indices()
    }

    open spec fn board_size(&self) -> nat {
        5
    }

    open spec fn board_floor(&self) -> nat {
        0
    }

    open spec fn suits_count(&self) -> bool {
        true
    }

    open spec fn worth(&self, cards: Seq<Card>) -> HandValue {
        evaluate(cards)
    }

    fn poker_type(&self) -> (r: PokerType) {
        PokerType::Holdem
    }

    fn max_cards(&self) -> (r: usize) {
        7
    }

    fn hole_cards(&self) -> (r: usize) {
        2
    }

    fn deck(&self) -> (r: CardSet) {
        CardSet::FULL_DECK()
    }

    fn board_cards(&self) -> (r: usize) {
        5
    }

    fn least_board_cards(&self) -> (r: usize) {
        0
    }

    fn suits_matter(&self) -> (r: bool) {
        true
    }

    fn evaluate_hand(&self, cards: &[Card]) -> (r: HandRank) {
        five_card_rank(cards)
    }
}

} // verus!
