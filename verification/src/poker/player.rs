//! A player at the table: a name and a five-card hand.

use vstd::prelude::*;

use crate::cards::{discard_outcome, shown_after_first, Card, Hand};
use crate::error::CardError;
use crate::hand::room_for;
use crate::text::{push_str, string_of};

verus! {

/// What a hand of `held` cards reports when the card after it will not fit.
pub open spec fn overflow_at(held: nat) -> usize {
    if held >= 5 {
        (held + 1) as usize
    } else {
        6
    }
}

/// A player: a name and the five-card hand they hold.
pub struct Player {
    name: String,
    hand: Hand,
}

impl Player {
    /// The player's name, in spec code.
    pub closed spec fn named(&self) -> Seq<char> {
        self.name@
    }

    /// The cards the player holds, in the order they came, in spec code.
    pub closed spec fn held(&self) -> Seq<Card> {
        self.hand@
    }

    /// A player called `name` holding no cards.
    pub fn new(name: String) -> (r: Self)
        ensures
            r.named() == name@,
            r.held() == Seq::<Card>::empty(),
    {
        Self { name, hand: Hand::new() }
    }

    /// Takes one card, or errors if the hand already holds five.
    pub fn recieve_card(&mut self, card: Card) -> (r: Result<(), CardError>)
        requires
            old(self).held().len() < usize::MAX,
        ensures
            final(self).named() == old(self).named(),
            old(self).held().len() < 5 ==> r is Ok && final(self).held() == old(self).held().push(card),
            old(self).held().len() >= 5 ==> r == Err::<(), CardError>(
                CardError::TooManyCards((old(self).held().len() + 1) as usize),
            ) && final(self).held() == old(self).held(),
    {
        self.hand.add_card(card)?;
        Ok(())
    }

    /// Takes several cards, stopping at the first that will not fit. The
    /// cards before it stay taken.
    pub fn recieve_cards(&mut self, cards: Vec<Card>) -> (r: Result<(), CardError>)
        requires
            old(self).held().len() + cards@.len() < usize::MAX,
        ensures
            final(self).named() == old(self).named(),
            ({
                let room = room_for(old(self).held().len(), 5);
                if cards@.len() <= room {
                    r is Ok && final(self).held() == old(self).held() + cards@
                } else {
                    r == Err::<(), CardError>(CardError::TooManyCards(overflow_at(old(self).held().len())))
                        && final(self).held() == old(self).held() + cards@.take(room as int)
                }
            }),
    {
        let ghost start = self.held();
        let ghost room = room_for(start.len(), 5);
        let mut i: usize = 0;
        while i < cards.len()
            invariant
                0 <= i <= cards@.len(),
                i <= room,
                start == old(self).held(),
                room == room_for(start.len(), 5),
                start.len() + cards@.len() < usize::MAX,
                self.named() == old(self).named(),
                self.held() == start + cards@.take(i as int),
            decreases cards@.len() - i,
        {
            let card = cards[i];
            match self.recieve_card(card) {
                Ok(()) => {},
                Err(e) => {
                    return Err(e);
                },
            }
            assert(cards@.take(i + 1) =~= cards@.take(i as int).push(card));
            i = i + 1;
        }
        assert(cards@.take(cards@.len() as int) =~= cards@);
        Ok(())
    }

    /// Throws cards away, erroring if the player does not hold one of them.
    pub fn discard(&mut self, cards_to_discard: &Vec<Card>) -> (r: Result<(), CardError>)
        ensures
            final(self).named() == old(self).named(),
            discard_outcome(old(self).held(), cards_to_discard@, r, final(self).held()),
    {
        self.hand.discard(cards_to_discard)
    }

    /// The cards held, in the order they came.
    pub fn cards(&self) -> (r: &[Card])
        ensures
            r@ == self.held(),
    {
        self.hand.cards()
    }

    /// The player's name.
    pub fn name(&self) -> (r: &String)
        ensures
            r@ == self.named(),
    {
        &self.name
    }

    /// The player's hand.
    pub fn hand(&self) -> (r: &Hand)
        ensures
            r@ == self.held(),
    {
        &self.hand
    }

    /// The player as text: the name, a colon, and the hand as a hand writes
    /// itself.
    pub fn to_string(&self) -> (r: String)
        ensures
            r@ == self.named() + seq![':', ' '] + shown_after_first(self.held()),
    {
        let mut s = string_of(self.name.as_str());
        push_str(&mut s, ": ");
        let shown = self.hand.to_string();
        push_str(&mut s, shown.as_str());
        proof {
            reveal_strlit(": ");
        }
        s
    }
}

} // verus!
