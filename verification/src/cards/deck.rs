//! The cards still available to deal.

use vstd::prelude::*;

use super::card::Card;
use super::card_set::{deck_indices, CardSet};
use crate::error::CardError;
use rand::Rng;

verus! {

broadcast use {Card::lemma_idx, Card::lemma_card_at};

/// Calls `rand::thread_rng().gen_range(0..count)`, which draws a number
/// uniformly from `0..count` and panics on an empty range. The contract keeps
/// the empty range out and claims only that the number lies in the range:
/// which number comes back is chance.
#[verifier::external_body]
fn random_below(count: u32) -> (r: u32)
    requires
        count > 0,
    ensures
        r < count,
{
    rand::thread_rng().gen_range(0..count)
}

/// The cards still available to deal.
///
/// This is a [`CardSet`] behind a dealing API, so removing known cards is a
/// bitwise operation rather than a scan. There is no shuffle: the set has no
/// order, and [`deal`](Deck::deal) draws uniformly from whatever remains.
#[derive(Clone, Copy, Debug, PartialEq, Eq, Structural)]
pub struct Deck {
    remaining: CardSet,
}

impl View for Deck {
    type V = Set<int>;

    /// The indices of the cards still in the deck.
    open spec fn view(&self) -> Set<int> {
        self.spec_remaining()@
    }
}

impl Deck {
    /// The cards still in the deck, in spec code.
    pub closed spec fn spec_remaining(self) -> CardSet {
        self.remaining
    }

    /// A full fifty-two card deck.
    pub fn new() -> (r: Self)
        ensures
            r@ == deck_indices(),
    {
        Self { remaining: CardSet::FULL_DECK() }
    }

    /// A deck holding exactly `cards`.
    pub fn from_set(cards: CardSet) -> (r: Self)
        ensures
            r.spec_remaining() == cards,
    {
        Self { remaining: cards }
    }

    /// The cards still in the deck.
    pub fn remaining(&self) -> (r: CardSet)
        ensures
            r == self.spec_remaining(),
    {
        self.remaining
    }

    /// Draws a card at random, or `None` when the deck is empty.
    ///
    /// Whichever card comes out was in the deck and is gone from it.
    pub fn deal(&mut self) -> (r: Option<Card>)
        ensures
            old(self)@.len() == 0 ==> r is None && final(self)@ == old(self)@,
            old(self)@.len() > 0 ==> r is Some,
            r matches Some(card) ==> old(self)@.contains(card.idx() as int) && final(self)@ == old(
                self,
            )@.remove(card.idx() as int),
            old(self)@.finite(),
    {
        let count = self.remaining.len();
        if count == 0 {
            return None;
        }
        let card = match self.remaining.nth(random_below(count)) {
            Some(card) => card,
            None => { return None; },
        };
        self.remaining.remove(card);
        Some(card)
    }

    /// Takes a known card out of the deck.
    ///
    /// Errors when the card has already gone, which is how a duplicate in the
    /// caller's input is caught.
    pub fn remove_card(&mut self, card: &Card) -> (r: Result<(), CardError>)
        ensures
            old(self)@.contains(card.idx() as int) ==> r is Ok && final(self)@ == old(self)@.remove(
                card.idx() as int,
            ),
            !old(self)@.contains(card.idx() as int) ==> r == Err::<(), CardError>(
                CardError::CardNotFound(*card),
            ) && final(self)@ == old(self)@,
    {
        if !self.remaining.contains(*card) {
            return Err(CardError::CardNotFound(*card));
        }
        self.remaining.remove(*card);
        Ok(())
    }

    /// Takes every card in `cards` out of the deck, without checking whether
    /// they were there. One instruction, and the path the sampler uses.
    pub fn remove_all(&mut self, cards: CardSet)
        ensures
            final(self)@ == old(self)@.difference(cards@),
    {
        self.remaining = self.remaining.without(cards);
    }

    /// How many cards are left.
    pub fn remaining_cards(&self) -> (r: usize)
        ensures
            r == self@.len(),
    {
        self.remaining.len() as usize
    }
}

impl Default for Deck {
    fn default() -> (r: Self)
        ensures
            r@ == deck_indices(),
    {
        Self::new()
    }
}

/// The whole deck has fifty-two cards.
pub proof fn lemma_deck_size()
    ensures
        deck_indices().finite(),
        deck_indices().len() == 52,
{
    vstd::set_lib::lemma_int_range(0, 52);
    assert(deck_indices() =~= vstd::set_lib::set_int_range(0, 52));
}

/// A hand of `num_cards` cards drawn at random from a fresh deck: every card
/// different, and as many as asked for up to the whole deck.
pub fn random_hand(num_cards: usize) -> (r: Vec<Card>)
    ensures
        r.len() == if num_cards <= 52 {
            num_cards
        } else {
            52
        },
        forall|i: int, j: int| 0 <= i < j < r.len() ==> r@[i] != r@[j],
{
    let mut deck = Deck::new();
    let mut hand: Vec<Card> = Vec::new();
    let mut n: usize = 0;
    proof {
        lemma_deck_size();
    }
    while n < num_cards && n < 52
        invariant
            n <= num_cards,
            hand.len() == n,
            n <= 52,
            deck@.finite(),
            deck@.len() == 52 - n,
            forall|i: int, j: int| 0 <= i < j < hand.len() ==> hand@[i] != hand@[j],
            forall|i: int| 0 <= i < hand.len() ==> !deck@.contains(#[trigger] hand@[i].idx() as int),
        decreases num_cards - n,
    {
        let ghost before = deck@;
        match deck.deal() {
            Some(card) => {
                proof {
                    assert forall|i: int| 0 <= i < hand.len() implies hand@[i] != card by {
                        if hand@[i] == card {
                            assert(!before.contains(hand@[i].idx() as int));
                        }
                    }
                }
                hand.push(card);
                n = n + 1;
            },
            None => {
                n = num_cards;
            },
        }
    }
    hand
}

/// Dealing a deck until it is empty hands out every card it held exactly
/// once.
///
/// `decks` are the deck's contents before each deal and after the last;
/// `dealt` are the cards the deals gave, each one that was in the deck and
/// is gone from it afterwards, as `Deck::deal` promises.
pub proof fn lemma_dealing_out_the_deck(decks: Seq<Set<int>>, dealt: Seq<Card>)
    requires
        decks.len() == dealt.len() + 1,
        decks[0].finite(),
        forall|i: int|
            0 <= i < dealt.len() ==> decks[i].contains((#[trigger] dealt[i]).idx() as int) && decks[i + 1]
                == decks[i].remove(dealt[i].idx() as int),
        decks.last().len() == 0,
    ensures
        dealt.no_duplicates(),
        dealt.map_values(|c: Card| c.idx() as int).to_set() == decks[0],
        dealt.len() == decks[0].len(),
    decreases dealt.len(),
{
    let ids = dealt.map_values(|c: Card| c.idx() as int);
    if dealt.len() == 0 {
        assert(decks[0] =~= Set::<int>::empty()) by {
            if decks[0] != Set::<int>::empty() {
                vstd::set_lib::lemma_set_empty_equivalency_len(decks[0]);
            }
        }
        assert(ids.to_set() =~= Set::<int>::empty());
    } else {
        let c = dealt[0];
        let rest = dealt.drop_first();
        let later = decks.drop_first();
        assert forall|i: int| 0 <= i < rest.len() implies later[i].contains((#[trigger] rest[i]).idx() as int)
            && later[i + 1] == later[i].remove(rest[i].idx() as int) by {
            assert(rest[i] == dealt[i + 1]);
        }
        lemma_dealing_out_the_deck(later, rest);
        let rest_ids = rest.map_values(|c: Card| c.idx() as int);
        assert forall|i: int, j: int| 0 <= i < j < dealt.len() implies dealt[i] != dealt[j] by {
            if i == 0 {
                assert(rest_ids.to_set().contains(rest_ids[j - 1]));
                assert(rest[j - 1] == dealt[j]);
            } else {
                assert(rest[i - 1] == dealt[i] && rest[j - 1] == dealt[j]);
            }
        }
        assert(ids =~= seq![c.idx() as int] + rest_ids);
        assert forall|x: int| ids.to_set().contains(x) == decks[0].contains(x) by {
            if ids.to_set().contains(x) {
                let k = choose|k: int| 0 <= k < ids.len() && ids[k] == x;
                if k > 0 {
                    assert(rest_ids[k - 1] == x);
                    assert(rest_ids.to_set().contains(x));
                }
            }
            if decks[0].contains(x) && x != c.idx() as int {
                assert(later[0].contains(x));
                let k = choose|k: int| 0 <= k < rest_ids.len() && rest_ids[k] == x;
                assert(ids[k + 1] == x);
            }
            if x == c.idx() as int {
                assert(ids[0] == x);
            }
        }
        assert(ids.to_set() =~= decks[0]);
    }
}

} // verus!
