//! What every stud game has in common.

use vstd::prelude::*;

use crate::poker::variants::{PokerType, PokerVariant};

verus! {

/// A stud game: each player is dealt some cards face up and some face down,
/// and there is no board.
pub trait StudGame: PokerVariant {
    /// How many of a player's cards are dealt face up.
    fn up_cards(&self) -> (r: u32)
        default_ensures
            r == 4,
    {
        4
    }

    /// How many of a player's cards are dealt face down.
    fn down_cards(&self) -> (r: u32)
        default_ensures
            r == 3,
    {
        3
    }

    /// The game's family, which for a stud game is the stud family.
    fn poker_type(&self) -> PokerType
        returns
            PokerType::Stud,
    {
        PokerType::Stud
    }
}

} // verus!
