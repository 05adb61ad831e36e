//! The library's own notation: what a hand, a board and a set of dead cards
//! look like as text.

pub mod canonical;
pub mod error;
pub mod hand_spec;
pub mod parser;
pub mod range;

pub use canonical::{lemma_canonical_round_trip, lemma_field_read, lemma_naming_a_card};
pub use error::{error_text, fault_text, Fault, FaultKind, NotationError, NotationErrorKind};
pub use hand_spec::HandSpec;
pub use parser::{
    lemma_board_within_limit, lemma_dead_cards_stay_dead, lemma_dead_field_keeps_every_card, lemma_field_widths, lemma_pattern_adds_its_cards, lemma_short_reads_as_whole, parse_board, parse_dead, parse_hand, parse_hand_up_to,
};
pub use range::{
    lemma_combo_counts, lemma_combo_ranks_either_way, lemma_pair_plus_climbs, lemma_plus_raises_the_low_card,
    lemma_range_keeps_the_gap, lemma_reading_a_term, lemma_plus_stays_below_the_high_card, lemma_range_ends_either_way,
};
