//! What every kind of player offers: a name, the cards held, and the family
//! of game being played.

mod draw;

use vstd::prelude::*;

use crate::cards::Card;
use crate::poker::variants::PokerType;

pub use draw::DrawPlayer;

verus! {

/// A player at a table of some game.
pub trait Player {
    /// The player's name.
    fn name(&self) -> &str;

    /// The cards the player holds.
    fn cards(&self) -> &[Card];

    /// The family of game the player is in.
    fn poker_type(&self) -> PokerType;
}

} // verus!
