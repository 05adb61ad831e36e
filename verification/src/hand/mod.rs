//! A hand of cards together with the game it is played in.

use vstd::prelude::*;

use crate::cards::{
    discard_outcome, glyphs_of, read_glyph_pairs, read_hand_outcome, read_pairs, throw_away, Card,
    HandRank,
};
use crate::error::{CardError, PokerError};
use crate::poker::variants::PokerVariant;
use crate::text::{push_char, push_str};

verus! {

/// The cards a hand-reading result holds.
pub open spec fn held_result<V: PokerVariant>(r: Result<Hand<V>, PokerError>) -> Result<
    Seq<Card>,
    PokerError,
> {
    match r {
        Ok(hand) => Ok(hand.held()),
        Err(e) => Err(e),
    }
}

/// The cards written out, separated by single spaces.
pub open spec fn cards_text(cards: Seq<Card>) -> Seq<char>
    decreases cards.len(),
{
    if cards.len() == 0 {
        seq![]
    } else if cards.len() == 1 {
        cards[0].name()
    } else {
        cards_text(cards.drop_last()) + seq![' '] + cards.last().name()
    }
}

/// How many of `count` cards fit in a hand holding `held` of at most `limit`.
pub open spec fn room_for(held: nat, limit: nat) -> nat {
    if held >= limit {
        0
    } else {
        (limit - held) as nat
    }
}

/// The cards a player holds, together with the game they are playing.
///
/// A hand carries its variant, so it knows how to score itself and how many
/// cards it may hold. Community cards are added to a copy of each player's
/// hand at showdown rather than stored separately.
#[derive(Debug)]
pub struct Hand<V: PokerVariant> {
    cards: Vec<Card>,
    variant: V,
}

impl<V: PokerVariant> Hand<V> {
    /// The cards held, in the order they were added, in spec code.
    pub closed spec fn held(&self) -> Seq<Card> {
        self.cards@
    }

    /// The game the hand is played in, in spec code.
    pub closed spec fn game(&self) -> V {
        self.variant
    }

    /// A hand never holds more cards than its game deals.
    #[verifier::type_invariant]
    spec fn fits(self) -> bool {
        self.cards@.len() <= self.variant.hand_limit()
    }

    /// An empty hand.
    pub fn new(variant: V) -> (r: Self)
        ensures
            r.held() == Seq::<Card>::empty(),
            r.game() == variant,
    {
        Self { cards: Vec::with_capacity(variant.max_cards()), variant }
    }

    /// A hand holding `cards`, or an error if that is more than the game
    /// deals.
    pub fn new_with_cards(variant: V, cards: Vec<Card>) -> (r: Result<Self, CardError>)
        ensures
            cards@.len() > variant.hand_limit() ==> r == Err::<Self, CardError>(
                CardError::TooManyCards(cards@.len() as usize),
            ),
            cards@.len() <= variant.hand_limit() ==> (r matches Ok(hand) && hand.held() == cards@
                && hand.game() == variant),
    {
        if cards.len() > variant.max_cards() {
            return Err(CardError::TooManyCards(cards.len()));
        }
        Ok(Self { cards, variant })
    }

    /// Takes a string e.g. "AdKc" and returns a hand holding those cards.
    /// Both "AhKh" and "Ah Kh" give the same result, as whitespace is
    /// stripped; more cards than the game deals is an error.
    pub fn from_str(variant: V, cards_str: &str) -> (r: Result<Self, PokerError>)
        ensures
            read_hand_outcome(cards_str@, variant.hand_limit(), held_result(r)),
            r matches Ok(hand) ==> hand.game() == variant,
    {
        let glyphs = glyphs_of(cards_str);
        let max_cards = variant.max_cards();
        let len = glyphs.len();
        if len == 0 {
            return Ok(Self { cards: Vec::with_capacity(max_cards), variant });
        }
        if len % 2 != 0 {
            return Err(
                PokerError::Card(
                    CardError::InvalidFormat(
                        crate::text::string_of(
                            "Both suit and rank have to be provided for every card",
                        ),
                    ),
                ),
            );
        } else if len / 2 > max_cards {
            // More than max cards
            return Err(PokerError::Card(CardError::TooManyCards(len / 2)));
        }
        match read_glyph_pairs(&glyphs) {
            Ok(cards) => {
                proof {
                    lemma_read_pairs_len(glyphs@);
                }
                Ok(Self { cards, variant })
            },
            Err(e) => Err(PokerError::Card(e)),
        }
    }

    /// Replaces the cards with `hole` followed by `board`, keeping whatever
    /// room the hand has already taken.
    ///
    /// The deal loop shows the same seats down over and over, and only the
    /// cards change. Writing over a hand rather than building a new one is
    /// what keeps a long run of deals from asking the allocator every time.
    pub fn refill(&mut self, hole: &[Card], board: &[Card]) -> (r: Result<(), CardError>)
        requires
            hole@.len() + board@.len() <= usize::MAX,
        ensures
            final(self).game() == old(self).game(),
            hole@.len() + board@.len() > old(self).game().hand_limit() ==> r == Err::<(), CardError>(
                CardError::TooManyCards((hole@.len() + board@.len()) as usize),
            ) && final(self).held() == old(self).held(),
            hole@.len() + board@.len() <= old(self).game().hand_limit() ==> r is Ok
                && final(self).held() == hole@ + board@,
    {
        let total = hole.len() + board.len();
        if total > self.variant.max_cards() {
            return Err(CardError::TooManyCards(total));
        }
        let mut cards: Vec<Card> = Vec::with_capacity(total);
        let mut i: usize = 0;
        while i < hole.len()
            invariant
                0 <= i <= hole@.len(),
                cards@ == hole@.take(i as int),
            decreases hole@.len() - i,
        {
            cards.push(hole[i]);
            assert(hole@.take(i + 1) =~= hole@.take(i as int).push(hole@[i as int]));
            i = i + 1;
        }
        let mut j: usize = 0;
        while j < board.len()
            invariant
                0 <= j <= board@.len(),
                cards@ == hole@ + board@.take(j as int),
            decreases board@.len() - j,
        {
            cards.push(board[j]);
            assert(board@.take(j + 1) =~= board@.take(j as int).push(board@[j as int]));
            j = j + 1;
        }
        assert(hole@.take(hole@.len() as int) =~= hole@);
        assert(board@.take(board@.len() as int) =~= board@);
        self.cards = cards;
        Ok(())
    }

    /// Adds one card, or errors if the hand is already full.
    pub fn add_card(&mut self, card: Card) -> (r: Result<(), CardError>)
        requires
            old(self).held().len() < usize::MAX,
        ensures
            final(self).game() == old(self).game(),
            old(self).held().len() < old(self).game().hand_limit() ==> r is Ok && final(self).held()
                == old(self).held().push(card),
            old(self).held().len() >= old(self).game().hand_limit() ==> r == Err::<(), CardError>(
                CardError::TooManyCards((old(self).held().len() + 1) as usize),
            ) && final(self).held() == old(self).held(),
    {
        let n = self.num_cards() + 1;
        if n > self.variant.max_cards() {
            Err(CardError::TooManyCards(n))
        } else {
            let mut cards: Vec<Card> = Vec::new();
            std::mem::swap(&mut cards, &mut self.cards);
            cards.push(card);
            self.cards = cards;
            Ok(())
        }
    }

    /// Adds several cards, stopping at the first that will not fit. The
    /// cards before it stay added.
    pub fn add_cards(&mut self, cards: Vec<Card>) -> (r: Result<(), CardError>)
        requires
            old(self).held().len() + cards@.len() < usize::MAX,
        ensures
            final(self).game() == old(self).game(),
            ({
                let room = room_for(old(self).held().len(), old(self).game().hand_limit());
                if cards@.len() <= room {
                    r is Ok && final(self).held() == old(self).held() + cards@
                } else {
                    r == Err::<(), CardError>(
                        CardError::TooManyCards((old(self).game().hand_limit() + 1) as usize),
                    ) && final(self).held() == old(self).held() + cards@.take(room as int)
                }
            }),
    {
        proof {
            use_type_invariant(&*self);
        }
        let ghost start = self.held();
        let ghost room = room_for(start.len(), self.game().hand_limit());
        let mut i: usize = 0;
        while i < cards.len()
            invariant
                0 <= i <= cards@.len(),
                i <= room,
                self.game() == old(self).game(),
                start == old(self).held(),
                room == room_for(start.len(), self.game().hand_limit()),
                start.len() <= self.game().hand_limit(),
                start.len() + cards@.len() < usize::MAX,
                self.held() == start + cards@.take(i as int),
            decreases cards@.len() - i,
        {
            let card = cards[i];
            match self.add_card(card) {
                Ok(()) => {},
                Err(e) => {
                    return Err(e);
                },
            }
            assert(cards@.take(i + 1) =~= cards@.take(i as int).push(card));
            i = i + 1;
        }
        assert(cards@.take(cards@.len() as int) =~= cards@);
        Ok(())
    }

    /// The cards held, in the order they were added: private cards first,
    /// then any shared board.
    pub fn cards(&self) -> (r: &[Card])
        ensures
            r@ == self.held(),
    {
        self.cards.as_slice()
    }

    /// Throws cards away, erroring if the hand does not hold one of them.
    ///
    /// Nothing is thrown away unless every card asked for is held, and then
    /// every copy of each goes.
    pub fn discard(&mut self, cards_to_discard: &Vec<Card>) -> (r: Result<(), CardError>)
        ensures
            final(self).game() == old(self).game(),
            discard_outcome(old(self).held(), cards_to_discard@, r, final(self).held()),
    {
        proof {
            use_type_invariant(&*self);
            broadcast use vstd::seq_lib::group_filter_ensures;
        }
        let mut cards: Vec<Card> = Vec::new();
        std::mem::swap(&mut cards, &mut self.cards);
        let r = throw_away(&mut cards, cards_to_discard);
        self.cards = cards;
        r
    }

    /// Returns the number of cards the hand has.
    pub fn num_cards(&self) -> (r: usize)
        ensures
            r == self.held().len(),
            r <= self.game().hand_limit(),
    {
        proof {
            use_type_invariant(self);
        }
        self.cards.len()
    }

    /// The cards as text, separated by single spaces.
    pub fn to_string(&self) -> (r: String)
        ensures
            r@ == cards_text(self.held()),
    {
        let mut s = String::new();
        let mut i: usize = 0;
        while i < self.cards.len()
            invariant
                0 <= i <= self.cards@.len(),
                s@ == cards_text(self.cards@.take(i as int)),
            decreases self.cards@.len() - i,
        {
            if i > 0 {
                push_char(&mut s, ' ');
            }
            let name = self.cards[i].to_string();
            push_str(&mut s, name.as_str());
            assert(self.cards@.take(i + 1).drop_last() =~= self.cards@.take(i as int));
            i = i + 1;
        }
        assert(self.cards@.take(self.cards@.len() as int) =~= self.cards@);
        s
    }

    /// What the hand is worth in its game.
    pub fn evaluate(&self) -> (r: HandRank)
        ensures
            r@ == self.game().worth(self.held()),
    {
        self.variant.evaluate_hand(self.cards.as_slice())
    }
}

impl<V: PokerVariant> Clone for Hand<V> {
    /// The same cards in the same game.
    fn clone(&self) -> (r: Self)
        ensures
            r.held() == self.held(),
            r.game() == self.game(),
    {
        proof {
            use_type_invariant(self);
        }
        Hand { cards: vstd::slice::slice_to_vec(self.cards.as_slice()), variant: self.variant }
    }
}

/// Reading pairs gives one card per two characters.
proof fn lemma_read_pairs_len(g: Seq<char>)
    requires
        read_pairs(g) is Ok,
    ensures
        read_pairs(g)->Ok_0.len() == g.len() / 2,
    decreases g.len(),
{
    if g.len() >= 2 {
        lemma_read_pairs_len(g.skip(2));
    }
}

} // verus!
