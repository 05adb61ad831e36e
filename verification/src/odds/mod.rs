//! What an equity question settles before any card is dealt: who is
//! playing with what, the checks every request must pass, which cards are
//! certain, and which card an open-suit rank stands for.

pub mod calculator;
pub mod matching;
pub mod request;

pub use calculator::{
    chunk_plan, chunk_sizes, first_clash, first_repeat, held_cards, lemma_chunks_cover, seated, total, EquityCalculator,
    Seat, CHUNK_SIZE,
};
pub use request::{
    certain_cards, certain_of, first_slots, last_card_is_shared, lowest, named_by,
    lemma_pinned_slots, lemma_pinning_keeps_ranks, names_only_a_rank, pin_open_suits, pin_slots, pinned_outcome,
    rank_shaped, settle_request, settle_text, settled_outcome, text_outcome, SettledRequest,
};
