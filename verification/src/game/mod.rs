//! A table of players dealt from one deck.

pub mod state;

pub use state::{
    deal_fault, dealt_from, draw_outcome, exchange_outcome, grew, lemma_exchange_last_card, same_seats,
    seat_of, GameState,
};
