//! What every draw game has in common.

use vstd::prelude::*;

use crate::poker::variants::{PokerType, PokerVariant};

verus! {

/// A draw game: each player holds a whole hand privately and may exchange
/// some of it.
pub trait Draw: PokerVariant {
    /// The game's family, which for a draw game is the draw family.
    fn poker_type(&self) -> PokerType
        returns
            PokerType::Draw,
    {
        PokerType::Draw
    }

    /// How many cards make a full hand. Five unless a game says otherwise;
    /// no draw game deals more.
    fn valid_hand_size(&self) -> (r: u32)
        default_ensures
            r == 5,
    {
        5
    }
}

} // verus!
