//! Cards, sets of cards, the deck and the five-card hand.

mod bits;
mod card;
mod card_set;
mod deck;
mod hand;
mod ranking;

pub use bits::{bit, count_low, FULL_BITS};
pub use card::{
    card_at, card_with, glyphs_of, lemma_card_with, lemma_whitespace_is_ignored, one_card_outcome,
    rank_of_char, read_field_outcome, read_glyph_pairs, read_hand_outcome, read_pairs, suit_of_char,
    Card, Rank, Suit,
};
pub use card_set::{
    deck_indices, lemma_iter_in_order, lemma_nth_agrees_with_iter, lemma_rank_meets_suit, lemma_remove_absent, lemma_suits_partition_deck, names_down,
    rank_indices, suit_indices, CardSet,
};
pub use deck::{lemma_dealing_out_the_deck, lemma_deck_size, random_hand, Deck};
pub use hand::{
    discard_outcome, first_absent, five_card_rank, flipped, lemma_categories_turned_round, lemma_comparison_flips,
    lemma_full_house_order, lemma_pair_order, lemma_rank_lists_first_difference, lemma_single_rank_order,
    lemma_two_pair_order, order_hands,
    order_of, order_ranks,
    shown_after_first, then_order, throw_away, Hand, HandRank,
};
pub use ranking::{
    lemma_flush_needs_five_of_a_suit, lemma_straight_holds_five_in_a_row, lemma_worth_matches_the_counts, of_rank, of_suit, category, count_rank, count_suit, evaluate, highest_with, is_flush, ranks_down, singles_down,
    straight_top, two_pair, HandValue,
};
