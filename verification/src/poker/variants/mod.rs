//! The games: what each deals and how it scores a hand.

mod draw;
mod holdem;
mod omaha;
mod stud;

use vstd::prelude::*;

use crate::cards::{Card, CardSet, HandRank, HandValue};

pub use draw::rules;
pub use draw::Draw;
pub use holdem::TexasHoldem;
pub use omaha::Omaha;
pub use stud::StudGame;

verus! {

/// The family a game belongs to, which decides how its cards are dealt.
#[derive(Debug, Clone, Copy, PartialEq, Eq, Structural)]
pub enum PokerType {
    Holdem,
    Omaha,
    Stud,
    Draw,
}

/// A game: its family, how many cards a hand holds, the deck it is played
/// with, and what a hand is worth.
pub trait PokerVariant: Copy {
    /// The game's family, in spec code.
    spec fn family(&self) -> PokerType;

    /// The most cards a hand of this game holds, shared cards included, in
    /// spec code.
    spec fn hand_limit(&self) -> nat;

    /// How many cards each player is dealt privately, in spec code.
    spec fn private_cards(&self) -> nat;

    /// The indices of the cards the game is played with, in spec code.
    spec fn deck_cards(&self) -> Set<int>;

    /// What a hand holding `cards` is worth, in spec code.
    spec fn worth(&self, cards: Seq<Card>) -> HandValue;

    /// How many cards the full board holds, in spec code.
    spec fn board_size(&self) -> nat;

    /// How many board cards are face up before the first betting, in spec
    /// code.
    spec fn board_floor(&self) -> nat;

    /// Whether suits can change what a hand is worth, in spec code.
    spec fn suits_count(&self) -> bool;

    /// The game's family.
    fn poker_type(&self) -> (r: PokerType)
        ensures
            r == self.family(),
    ;

    /// The most cards a hand of this game holds, shared cards included.
    fn max_cards(&self) -> (r: usize)
        ensures
            r == self.hand_limit(),
    ;

    /// How many cards each player is dealt privately.
    fn hole_cards(&self) -> (r: usize)
        ensures
            r == self.private_cards(),
    ;

    /// The cards the game is played with.
    fn deck(&self) -> (r: CardSet)
        ensures
            r@ == self.deck_cards(),
    ;

    /// How many cards the full board holds: five in the community games,
    /// none where there is no board.
    fn board_cards(&self) -> (r: usize)
        ensures
            r == self.board_size(),
    ;

    /// The fewest board cards a spot of this game can show: nothing before
    /// the flop in most games.
    fn least_board_cards(&self) -> (r: usize)
        ensures
            r == self.board_floor(),
    ;

    /// Whether suits can change what a hand is worth. Where they cannot, a
    /// rank written without a suit may be given any suit at all.
    fn suits_matter(&self) -> (r: bool)
        ensures
            r == self.suits_count(),
    ;

    /// What a hand holding `cards` is worth.
    fn evaluate_hand(&self, cards: &[Card]) -> (r: HandRank)
        ensures
            r@ == self.worth(cards@),
    ;
}

} // verus!
