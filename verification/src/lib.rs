//! An equity engine for poker: cards, card sets, hands and the notation.

pub mod cards;
pub mod error;
pub mod game;
pub mod hand;
pub mod notation;
pub mod odds;
pub mod player;
pub mod poker;
pub mod text;

pub use poker::variants;
