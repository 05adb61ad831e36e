//! A set of cards, held as one bit per card.

use vstd::prelude::*;

use super::bits::{
    bit, count_low, lemma_bit_ops, lemma_bounded, lemma_count_agree, lemma_count_bound,
    lemma_count_flat, lemma_count_mask, lemma_count_mono, lemma_count_split, lemma_high_clear, lemma_mask_bit,
    lemma_bits_equal, lemma_count_zero, lemma_shr_bit, lemma_single_bit, lemma_test_bit, lemma_zero_iff,
    low_mask, FULL_BITS,
};
use super::card::{card_at, Card, Rank, Suit};
use crate::text::push_char;

verus! {

broadcast use {Card::lemma_idx, Card::lemma_card_at};

/// How many of the sixty-four bits of `x` are set.
fn count_ones(x: u64) -> (r: u32)
    ensures
        r == count_low(x, 64),
{
    let mut n: u32 = 0;
    let mut k: u64 = 0;
    while k < 64
        invariant
            k <= 64,
            n <= k,
            n == count_low(x, k as nat),
        decreases 64 - k,
    {
        if (x >> k) & 1 == 1 {
            n = n + 1;
        }
        k = k + 1;
    }
    n
}

/// A set of cards, held as one bit per card.
///
/// Bit *n* is set when the card with index *n* is in the set, so the whole
/// deck fits in a `u64` with twelve bits to spare. Removing every known card
/// from the deck is one `AND`, counting what is left is one instruction, and
/// a constraint like "any club" is a constant.
///
/// It is a set, not a sequence -- there is no order and no duplicates.
#[derive(Clone, Copy, Debug, Default, PartialEq, Eq, Structural, Hash)]
pub struct CardSet(u64);

impl View for CardSet {
    type V = Set<int>;

    /// The indices of the cards in the set.
    open spec fn view(&self) -> Set<int> {
        Set::new(|i: int| 0 <= i < 52 && bit(self.spec_bits(), i as nat))
    }
}

/// The indices of every card of `rank`.
pub open spec fn rank_indices(rank: Rank) -> Set<int> {
    Set::new(|i: int| 0 <= i < 52 && i / 4 == rank.index())
}

/// The indices of every card of `suit`.
pub open spec fn suit_indices(suit: Suit) -> Set<int> {
    Set::new(|i: int| 0 <= i < 52 && i % 4 == suit.index())
}

/// The indices of the whole deck.
pub open spec fn deck_indices() -> Set<int> {
    Set::new(|i: int| 0 <= i < 52)
}

/// A rank and a suit meet in exactly one card: the card of that rank in that
/// suit.
pub proof fn lemma_rank_meets_suit(rank: Rank, suit: Suit)
    ensures
        rank_indices(rank).intersect(suit_indices(suit)) == Set::<int>::empty().insert(
            (rank.index() * 4 + suit.index()) as int,
        ),
{
    let c = (rank.index() * 4 + suit.index()) as int;
    assert forall|x: int| rank_indices(rank).intersect(suit_indices(suit)).contains(x) == (x == c) by {
        if rank_indices(rank).intersect(suit_indices(suit)).contains(x) {
            assert(x == (x / 4) * 4 + x % 4);
        }
    }
    assert(rank_indices(rank).intersect(suit_indices(suit)) =~= Set::<int>::empty().insert(c));
}

/// The four suits divide the deck between them: together they are the whole
/// deck, and no two share a card.
pub proof fn lemma_suits_partition_deck()
    ensures
        suit_indices(Suit::Club).union(suit_indices(Suit::Diamond)).union(
            suit_indices(Suit::Heart),
        ).union(suit_indices(Suit::Spade)) == deck_indices(),
        forall|a: Suit, b: Suit|
            #![trigger suit_indices(a), suit_indices(b)]
            a != b ==> suit_indices(a).disjoint(suit_indices(b)),
{
    assert(suit_indices(Suit::Club).union(suit_indices(Suit::Diamond)).union(
        suit_indices(Suit::Heart),
    ).union(suit_indices(Suit::Spade)) =~= deck_indices());
    assert forall|a: Suit, b: Suit|
        #![trigger suit_indices(a), suit_indices(b)]
        a != b implies suit_indices(a).disjoint(suit_indices(b)) by {
        assert(a.index() != b.index()) by {
            if a.index() == b.index() {
                assert(Suit::at(a.index()) == a);
                assert(Suit::at(b.index()) == b);
            }
        }
    }
}

/// Taking out a card the set does not hold leaves it as it was.
pub proof fn lemma_remove_absent(set: Set<int>, x: int)
    requires
        !set.contains(x),
    ensures
        set.remove(x) == set,
{
    assert(set.remove(x) =~= set);
}

/// The members of `b` in `[lo, hi)` as text, highest first, separated by
/// single spaces.
pub open spec fn names_down(b: u64, lo: nat, hi: nat) -> Seq<char>
    decreases hi - lo,
{
    if lo >= hi {
        seq![]
    } else {
        let rest = names_down(b, lo + 1, hi);
        if bit(b, lo) {
            if rest.len() == 0 {
                card_at(lo).name()
            } else {
                rest + seq![' '] + card_at(lo).name()
            }
        } else {
            rest
        }
    }
}

impl CardSet {
    #[verifier::type_invariant]
    spec fn within_deck(self) -> bool {
        self.0 <= FULL_BITS
    }

    /// The raw bits.
    pub closed spec fn spec_bits(self) -> u64 {
        self.0
    }

    /// How many cards of the set have an index below `i`.
    pub open spec fn below(self, i: nat) -> nat {
        count_low(self.spec_bits(), i)
    }

    /// How many cards are in the set.
    pub open spec fn size(self) -> nat {
        self.below(64)
    }

    /// The set as text, highest card first.
    pub open spec fn text(self) -> Seq<char> {
        names_down(self.spec_bits(), 0, 52)
    }

    /// Every card in a standard deck.
    #[allow(non_snake_case)]
    pub fn FULL_DECK() -> (r: CardSet)
        ensures
            r@ == deck_indices(),
            r.spec_bits() == FULL_BITS,
    {
        let r = CardSet(0xF_FFFF_FFFF_FFFF);
        assert forall|i: int| 0 <= i < 52 implies #[trigger] bit(r.0, i as nat) by {
            let k = i as u64;
            assert((0xF_FFFF_FFFF_FFFFu64 >> k) & 1 == 1) by (bit_vector)
                requires
                    k < 52,
            ;
        }
        assert(r@ =~= deck_indices());
        r
    }

    /// No cards at all.
    #[allow(non_snake_case)]
    pub fn EMPTY() -> (r: CardSet)
        ensures
            r@ == Set::<int>::empty(),
            r.spec_bits() == 0,
    {
        proof {
            lemma_zero_iff(0);
        }
        let r = CardSet(0);
        assert(r@ =~= Set::<int>::empty());
        r
    }

    /// The thirty-six card deck short-deck games use: sixes and up.
    #[allow(non_snake_case)]
    pub fn SHORT_DECK() -> (r: CardSet)
        ensures
            r@ == Set::new(|i: int| 16 <= i < 52),
    {
        let r = CardSet(0xF_FFFF_FFFF_0000);
        assert forall|i: int| 0 <= i < 52 implies #[trigger] bit(r.0, i as nat) == (16 <= i) by {
            let k = i as u64;
            assert(((0xF_FFFF_FFFF_0000u64 >> k) & 1 == 1) == (16 <= k)) by (bit_vector)
                requires
                    k < 52,
            ;
        }
        assert(r@ =~= Set::new(|i: int| 16 <= i < 52));
        r
    }

    /// The set's bits spell out its view.
    proof fn lemma_view(self)
        requires
            self.0 <= FULL_BITS,
        ensures
            forall|j: nat| j < 64 ==> (#[trigger] bit(self.0, j)) == self@.contains(j as int),
    {
        assert forall|j: nat| j < 64 implies (#[trigger] bit(self.0, j)) == self@.contains(
            j as int,
        ) by {
            if j >= 52 {
                lemma_high_clear(self.0, j as u64);
            }
        }
    }

    /// The set's size is the number of its bits, and the view is finite.
    proof fn lemma_size(self)
        requires
            self.0 <= FULL_BITS,
        ensures
            self@.finite(),
            self@.len() == self.size(),
    {
        self.lemma_view();
        lemma_set_count(self.0, 52);
        assert(self@ =~= Set::new(|i: int| 0 <= i < 52 && bit(self.0, i as nat)));
        assert forall|j: nat| 52 <= j < 64 implies !bit(self.0, j) by {
            lemma_high_clear(self.0, j as u64);
        }
        lemma_count_flat(self.0, 52, 64);
    }

    /// With no card of the set below index `c`, every card of the set is at
    /// `c` or above.
    pub proof fn lemma_nothing_below(self, c: nat)
        requires
            self.below(c) == 0,
        ensures
            forall|y: int| self@.contains(y) ==> c <= y,
    {
        lemma_count_zero(self.spec_bits(), c);
        assert forall|y: int| self@.contains(y) implies c <= y by {
            if y < c {
                assert(bit(self.spec_bits(), y as nat));
            }
        }
    }

    /// Builds a set from the raw bits, keeping only the fifty-two card bits.
    pub fn from_bits(bits: u64) -> (r: Self)
        ensures
            r@ == Set::new(|i: int| 0 <= i < 52 && bit(bits, i as nat)),
            r.spec_bits() == bits & FULL_BITS,
    {
        proof {
            assert(bits & 0xF_FFFF_FFFF_FFFFu64 <= 0xF_FFFF_FFFF_FFFFu64) by (bit_vector);
        }
        let r = Self(bits & 0xF_FFFF_FFFF_FFFF);
        assert forall|i: int| 0 <= i < 52 implies #[trigger] bit(r.0, i as nat) == bit(bits, i as nat) by {
            lemma_bit_ops(bits, FULL_BITS, i as u64);
            assert(bit(FULL_BITS, i as nat)) by {
                let k = i as u64;
                assert((0xF_FFFF_FFFF_FFFFu64 >> k) & 1 == 1) by (bit_vector)
                    requires
                        k < 52,
                ;
            }
        }
        assert(r@ =~= Set::new(|i: int| 0 <= i < 52 && bit(bits, i as nat)));
        r
    }

    /// The raw bits, for crossing a language boundary.
    pub fn bits(self) -> (r: u64)
        ensures
            r == self.spec_bits(),
            r <= FULL_BITS,
    {
        proof {
            use_type_invariant(&self);
        }
        self.0
    }

    /// Collects `cards` into a set. Repeats collapse, as in any set.
    pub fn from_cards(cards: &[Card]) -> (r: Self)
        ensures
            r@ == cards@.map_values(|c: Card| c.idx() as int).to_set(),
    {
        let mut set = Self::EMPTY();
        proof {
            lemma_zero_iff(0);
            assert(set@ =~= Set::<int>::empty());
            assert(cards@.take(0).map_values(|c: Card| c.idx() as int).to_set() =~= Set::<
                int,
            >::empty());
        }
        let mut i: usize = 0;
        while i < cards.len()
            invariant
                0 <= i <= cards.len(),
                set@ == cards@.take(i as int).map_values(|c: Card| c.idx() as int).to_set(),
            decreases cards.len() - i,
        {
            let card = cards[i];
            let ghost before = set@;
            set.insert(card);
            proof {
                let s = cards@.take(i + 1).map_values(|c: Card| c.idx() as int);
                let t = cards@.take(i as int).map_values(|c: Card| c.idx() as int);
                assert(s =~= t.push(card.idx() as int));
                assert(s.to_set() =~= t.to_set().insert(card.idx() as int)) by {
                    assert forall|x: int| s.to_set().contains(x) implies t.to_set().insert(
                        card.idx() as int,
                    ).contains(x) by {
                        let k = choose|k: int| 0 <= k < s.len() && s[k] == x;
                        if k < t.len() {
                            assert(t[k] == x);
                        }
                    }
                    assert forall|x: int| t.to_set().insert(card.idx() as int).contains(
                        x,
                    ) implies s.to_set().contains(x) by {
                        if x == card.idx() {
                            assert(s[i as int] == x);
                        } else {
                            let k = choose|k: int| 0 <= k < t.len() && t[k] == x;
                            assert(s[k] == x);
                        }
                    }
                }
            }
            i = i + 1;
        }
        assert(cards@.take(cards.len() as int) =~= cards@);
        set
    }

    /// Every card of one rank, the mask behind a pattern like `A`.
    pub fn of_rank(rank: Rank) -> (r: Self)
        ensures
            r@ == rank_indices(rank),
    {
        let shift: u64 = (rank.to_value() as u64 - 2) * 4;
        proof {
            assert(0xFu64 << shift <= 0xF_FFFF_FFFF_FFFFu64) by (bit_vector)
                requires
                    shift <= 48,
            ;
        }
        let r = Self(0b1111u64 << shift);
        assert forall|i: int| 0 <= i < 52 implies #[trigger] bit(r.0, i as nat) == (i / 4 == rank.index()) by {
            let k = i as u64;
            assert((((0xFu64 << shift) >> k) & 1 == 1) == (shift <= k && k < shift + 4))
                by (bit_vector)
                requires
                    shift <= 48,
                    k < 64,
            ;
        }
        assert(r@ =~= rank_indices(rank));
        r
    }

    /// Every card of one suit, the mask behind a pattern like `c`.
    pub fn of_suit(suit: Suit) -> (r: Self)
        ensures
            r@ == suit_indices(suit),
    {
        // One bit every four, thirteen times, shifted to the suit.
        let shift: u64 = suit.to_index() as u64;
        proof {
            assert(0x1_1111_1111_1111u64 << shift <= 0xF_FFFF_FFFF_FFFFu64) by (bit_vector)
                requires
                    shift < 4,
            ;
        }
        let r = Self(0x1_1111_1111_1111u64 << shift);
        assert forall|i: int| 0 <= i < 52 implies #[trigger] bit(r.0, i as nat) == (i % 4 == suit.index()) by {
            let k = i as u64;
            assert((((0x1_1111_1111_1111u64 << shift) >> k) & 1 == 1) == (k % 4 == shift))
                by (bit_vector)
                requires
                    shift < 4,
                    k < 52,
            ;
        }
        assert(r@ =~= suit_indices(suit));
        r
    }

    /// Whether `card` is in the set.
    pub fn contains(self, card: Card) -> (r: bool)
        ensures
            r == self@.contains(card.idx() as int),
    {
        proof {
            lemma_test_bit(self.0, card.idx() as u64);
        }
        self.0 & (1u64 << card.index()) != 0
    }

    /// Adds `card`. Adding a card already present changes nothing.
    pub fn insert(&mut self, card: Card)
        ensures
            final(self)@ == old(self)@.insert(card.idx() as int),
    {
        proof {
            use_type_invariant(&*self);
            lemma_bounded(self.0, 0, card.idx() as u64);
        }
        let ghost b = self.0;
        self.0 = self.0 | (1u64 << card.index());
        assert forall|j: int| 0 <= j < 52 implies #[trigger] bit(self.0, j as nat) == (bit(b, j as nat) || j
            == card.idx()) by {
            lemma_bit_ops(b, 1u64 << card.idx() as u64, j as u64);
            lemma_single_bit(card.idx() as u64, j as u64);
        }
        assert(self@ =~= old(self)@.insert(card.idx() as int));
    }

    /// Removes `card`. Removing a card that is absent changes nothing.
    pub fn remove(&mut self, card: Card)
        ensures
            final(self)@ == old(self)@.remove(card.idx() as int),
    {
        proof {
            use_type_invariant(&*self);
            lemma_bounded(self.0, 1u64 << card.idx() as u64, 0);
        }
        let ghost b = self.0;
        self.0 = self.0 & !(1u64 << card.index());
        assert forall|j: int| 0 <= j < 52 implies #[trigger] bit(self.0, j as nat) == (bit(b, j as nat) && j
            != card.idx()) by {
            lemma_bit_ops(b, 1u64 << card.idx() as u64, j as u64);
            lemma_single_bit(card.idx() as u64, j as u64);
        }
        assert(self@ =~= old(self)@.remove(card.idx() as int));
    }

    /// The cards in `self` that are not in `other`. One instruction.
    pub fn without(self, other: Self) -> (r: Self)
        ensures
            r@ == self@.difference(other@),
    {
        proof {
            use_type_invariant(&self);
            use_type_invariant(&other);
            lemma_bounded(self.0, other.0, 0);
        }
        let r = Self(self.0 & !other.0);
        assert forall|j: int| 0 <= j < 52 implies #[trigger] bit(r.0, j as nat) == (bit(self.0, j as nat)
            && !bit(other.0, j as nat)) by {
            lemma_bit_ops(self.0, other.0, j as u64);
        }
        assert(r@ =~= self@.difference(other@));
        r
    }

    /// The cards in either set.
    pub fn union(self, other: Self) -> (r: Self)
        ensures
            r@ == self@.union(other@),
    {
        proof {
            use_type_invariant(&self);
            use_type_invariant(&other);
            lemma_bounded(self.0, other.0, 0);
        }
        let r = Self(self.0 | other.0);
        assert forall|j: int| 0 <= j < 52 implies #[trigger] bit(r.0, j as nat) == (bit(self.0, j as nat)
            || bit(other.0, j as nat)) by {
            lemma_bit_ops(self.0, other.0, j as u64);
        }
        assert(r@ =~= self@.union(other@));
        r
    }

    /// The cards in both sets.
    pub fn intersection(self, other: Self) -> (r: Self)
        ensures
            r@ == self@.intersect(other@),
    {
        proof {
            use_type_invariant(&self);
            use_type_invariant(&other);
            lemma_bounded(self.0, other.0, 0);
        }
        let r = Self(self.0 & other.0);
        assert forall|j: int| 0 <= j < 52 implies #[trigger] bit(r.0, j as nat) == (bit(self.0, j as nat)
            && bit(other.0, j as nat)) by {
            lemma_bit_ops(self.0, other.0, j as u64);
        }
        assert(r@ =~= self@.intersect(other@));
        r
    }

    /// Whether the two sets share no card.
    pub fn is_disjoint(self, other: Self) -> (r: bool)
        ensures
            r == self@.disjoint(other@),
    {
        proof {
            use_type_invariant(&self);
            use_type_invariant(&other);
            self.lemma_view();
            other.lemma_view();
            lemma_zero_iff(self.0 & other.0);
            assert forall|j: nat| j < 64 implies bit(self.0 & other.0, j) == (bit(self.0, j) && bit(
                other.0,
                j,
            )) by {
                lemma_bit_ops(self.0, other.0, j as u64);
            }
            if !self@.disjoint(other@) {
                let x = choose|x: int| self@.contains(x) && other@.contains(x);
                assert(bit(self.0 & other.0, x as nat));
            } else {
                assert forall|j: nat| j < 64 implies !bit(self.0 & other.0, j) by {
                    if j >= 52 {
                        lemma_high_clear(self.0, j as u64);
                    } else {
                        assert(!(self@.contains(j as int) && other@.contains(j as int)));
                    }
                }
            }
        }
        self.0 & other.0 == 0
    }

    /// How many cards are in the set.
    pub fn len(self) -> (r: u32)
        ensures
            r == self@.len(),
            r == self.size(),
            r <= 52,
            self@.finite(),
    {
        proof {
            use_type_invariant(&self);
            self.lemma_size();
            lemma_set_count(self.0, 52);
            lemma_count_bound(self.0, 52);
        }
        count_ones(self.0)
    }

    /// Whether the two sets hold the same cards.
    pub fn same(self, other: Self) -> (r: bool)
        ensures
            r == (self@ == other@),
    {
        proof {
            use_type_invariant(&self);
            use_type_invariant(&other);
            self.lemma_view();
            other.lemma_view();
            if self@ == other@ {
                assert forall|j: nat| j < 64 implies bit(self.0, j) == bit(other.0, j) by {
                    if j >= 52 {
                        lemma_high_clear(self.0, j as u64);
                        lemma_high_clear(other.0, j as u64);
                    } else {
                        assert(self@.contains(j as int) == other@.contains(j as int));
                    }
                }
                lemma_bits_equal(self.0, other.0);
            }
        }
        self.0 == other.0
    }

    /// Whether the set holds no cards.
    pub fn is_empty(self) -> (r: bool)
        ensures
            r == (self@ == Set::<int>::empty()),
    {
        proof {
            use_type_invariant(&self);
            self.lemma_view();
            lemma_zero_iff(self.0);
            if self@ =~= Set::<int>::empty() {
                assert forall|j: nat| j < 64 implies !bit(self.0, j) by {
                    if bit(self.0, j) {
                        assert(self@.contains(j as int));
                    }
                }
            }
            if self.0 == 0 {
                assert(self@ =~= Set::<int>::empty());
            }
        }
        self.0 == 0
    }

    /// The `index`th card in the set, counting from the lowest, or `None`
    /// when the set holds fewer than that.
    ///
    /// This is how a card is drawn: pick a number below [`len`](Self::len)
    /// and take that card, which is uniform over the set without needing the
    /// set to be shuffled.
    pub fn nth(self, index: u32) -> (r: Option<Card>)
        ensures
            r is None <==> index >= self@.len(),
            r matches Some(card) ==> self@.contains(card.idx() as int) && self.below(card.idx())
                == index,
    {
        proof {
            use_type_invariant(&self);
            self.lemma_size();
            self.lemma_view();
        }
        if index >= self.len() {
            return None;
        }
        // Halving rather than counting up one card at a time. Each step
        // splits what is left in two and counts the cards in the lower half:
        // either the one wanted is down there, or it is above and the whole
        // lower half can be skipped at once. Six steps settle any set.

        let ghost orig = self.0;
        let ghost target = index as nat;
        let mut bits: u64 = self.0;
        let mut index: u32 = index;
        let mut position: u64 = 0;
        let mut width: u64 = 32;
        let ghost mut span: u64 = 64;
        proof {
            assert(orig >> 0u64 == orig) by (bit_vector);
            assert(orig & (u64::MAX >> 0u64) == orig) by (bit_vector);
            assert(low_mask(64) == u64::MAX >> 0u64);
        }
        while width >= 1
            invariant
                width == 32 || width == 16 || width == 8 || width == 4 || width == 2 || width == 1
                    || width == 0,
                span == if width == 0 {
                    1
                } else {
                    2 * width
                },
                position + span <= 64,
                bits == (orig >> position) & low_mask(span),
                index < count_low(bits, 64),
                target == count_low(orig, position as nat) + index,
            decreases width,
        {
            let lower = bits & (u64::MAX >> (64 - width));
            let count = count_ones(lower);
            proof {
                lemma_count_mask(bits, width);
            }
            let ghost old_bits = bits;
            let ghost old_position = position;
            let ghost old_span = span;
            if index >= count {
                index = index - count;
                bits = bits >> width;
                position = position + width;
                proof {
                    let p = old_position;
                    let w = width;
                    let s = old_span;
                    assert(((orig >> p) & (u64::MAX >> ((64 - s) as u64))) >> w == (orig >> ((p
                        + w) as u64)) & (u64::MAX >> ((64 - w) as u64))) by (bit_vector)
                        requires
                            s == 2 * w,
                            1 <= w <= 32,
                            p + s <= 64,
                    ;
                    // The count up to the new position takes in the lower half.
                    lemma_count_split(orig, p, w as nat);
                    assert forall|i: nat| i < w implies bit(orig >> p, i) == bit(old_bits, i) by {
                        lemma_mask_bit(orig >> p, s, i as u64);
                    }
                    lemma_count_agree(orig >> p, old_bits, w as nat);
                    // What is left to find lies in the upper half.
                    lemma_count_split(old_bits, w, w as nat);
                    assert forall|i: nat| s <= i < 64 implies !bit(old_bits, i) by {
                        lemma_mask_bit(orig >> p, s, i as u64);
                    }
                    lemma_count_flat(old_bits, s as nat, 64);
                    assert forall|i: nat| w <= i < 64 implies !bit(bits, i) by {
                        lemma_mask_bit(orig >> ((p + w) as u64), w, i as u64);
                    }
                    lemma_count_flat(bits, w as nat, 64);
                    span = w;
                }
            } else {
                bits = lower;
                proof {
                    let p = old_position;
                    let w = width;
                    let s = old_span;
                    assert(((orig >> p) & (u64::MAX >> ((64 - s) as u64))) & (u64::MAX >> ((64
                        - w) as u64)) == (orig >> p) & (u64::MAX >> ((64 - w) as u64)))
                        by (bit_vector)
                        requires
                            s == 2 * w,
                            1 <= w <= 32,
                    ;
                    span = w;
                }
            }
            width = width / 2;
        }
        proof {
            // One position is left, and the card wanted is the one there.
            lemma_count_mask(orig >> position, 1);
            assert(count_low(orig >> position, 0) == 0);
            assert(count_low(orig >> position, 1) == if bit(orig >> position, 0) {
                1nat
            } else {
                0nat
            });
            lemma_shr_bit(orig, position, 0);
            assert(bit(orig, position as nat)) by {
                assert((orig >> position) >> 0u64 == orig >> position) by (bit_vector);
            }
            if position >= 52 {
                lemma_high_clear(orig, position);
            }
        }
        Card::from_index(position as u8)
    }

    /// The cards in the set, lowest index first.
    pub fn iter(self) -> (r: Vec<Card>)
        ensures
            r.len() == self@.len(),
            forall|k: int|
                0 <= k < r.len() ==> self@.contains(#[trigger] r@[k].idx() as int) && self.below(
                    r@[k].idx(),
                ) == k,
    {
        proof {
            use_type_invariant(&self);
            self.lemma_size();
            self.lemma_view();
        }
        let mut out: Vec<Card> = Vec::new();
        let mut i: u8 = 0;
        while i < 52
            invariant
                0 <= i <= 52,
                self.0 <= FULL_BITS,
                out.len() == count_low(self.0, i as nat),
                forall|k: int|
                    0 <= k < out.len() ==> self@.contains(#[trigger] out@[k].idx() as int)
                        && self.below(out@[k].idx()) == k && out@[k].idx() < i,
                forall|j: nat| j < 64 ==> (#[trigger] bit(self.0, j)) == self@.contains(j as int),
            decreases 52 - i,
        {
            if self.0 & (1u64 << i) != 0 {
                proof {
                    lemma_test_bit(self.0, i as u64);
                }
                match Card::from_index(i) {
                    Some(card) => out.push(card),
                    None => {},
                }
            } else {
                proof {
                    lemma_test_bit(self.0, i as u64);
                }
            }
            i = i + 1;
        }
        proof {
            assert forall|j: nat| 52 <= j < 64 implies !bit(self.0, j) by {
                lemma_high_clear(self.0, j as u64);
            }
            lemma_count_flat(self.0, 52, 64);
        }
        out
    }

    /// The set as text, highest card first, which is how a hand is read
    /// aloud: `Ah Kd` rather than `Kd Ah`.
    pub fn to_string(&self) -> (r: String)
        ensures
            r@ == self.text(),
    {
        proof {
            use_type_invariant(self);
        }
        let mut s = String::new();
        let mut written = false;
        let mut i: u8 = 52;
        while i > 0
            invariant
                i <= 52,
                s@ == names_down(self.0, i as nat, 52),
                written == (s@.len() > 0),
            decreases i,
        {
            i = i - 1;
            if self.0 & (1u64 << i) != 0 {
                proof {
                    lemma_test_bit(self.0, i as u64);
                }
                let card = match Card::from_index(i) {
                    Some(card) => card,
                    None => { return s; },
                };
                if written {
                    push_char(&mut s, ' ');
                }
                let name = card.to_string();
                crate::text::push_str(&mut s, name.as_str());
                written = true;
                assert(s@ =~= names_down(self.0, i as nat, 52));
            } else {
                proof {
                    lemma_test_bit(self.0, i as u64);
                }
            }
        }
        s
    }
}

/// The number of set bits below `n` is the size of the set of them.
pub proof fn lemma_set_count(b: u64, n: nat)
    ensures
        Set::new(|i: int| 0 <= i < n && bit(b, i as nat)).finite(),
        Set::new(|i: int| 0 <= i < n && bit(b, i as nat)).len() == count_low(b, n),
    decreases n,
{
    let s = Set::new(|i: int| 0 <= i < n && bit(b, i as nat));
    if n == 0 {
        assert(s =~= Set::<int>::empty());
    } else {
        let m = (n - 1) as nat;
        let t = Set::new(|i: int| 0 <= i < m && bit(b, i as nat));
        lemma_set_count(b, m);
        if bit(b, m) {
            assert(s =~= t.insert(m as int));
        } else {
            assert(s =~= t);
        }
    }
}

/// A card of the set has fewer of the set below it than any higher card.
proof fn lemma_below_orders(s: CardSet, a: nat, b: nat)
    requires
        s@.contains(a as int),
        a < b,
    ensures
        s.below(a) < s.below(b),
{
    let bits = s.spec_bits();
    assert(count_low(bits, a + 1) == count_low(bits, a) + 1);
    lemma_count_mono(bits, a + 1, b);
}

/// What iterating a set lists: every card of the set, each once, lowest
/// index first.
///
/// `cards` is what `CardSet::iter` gives: as many cards as the set holds,
/// the `k`th of them a card of the set with `k` cards of the set below it.
pub proof fn lemma_iter_in_order(s: CardSet, cards: Seq<Card>)
    requires
        cards.len() == s@.len(),
        forall|k: int|
            0 <= k < cards.len() ==> s@.contains(#[trigger] cards[k].idx() as int) && s.below(cards[k].idx())
                == k,
    ensures
        forall|i: int, j: int| 0 <= i < j < cards.len() ==> cards[i].idx() < cards[j].idx(),
        cards.no_duplicates(),
        cards.map_values(|c: Card| c.idx() as int).to_set() == s@,
{
    assert forall|i: int, j: int| 0 <= i < j < cards.len() implies cards[i].idx() < cards[j].idx() by {
        assert(s@.contains(cards[i].idx() as int) && s@.contains(cards[j].idx() as int));
        if cards[j].idx() < cards[i].idx() {
            lemma_below_orders(s, cards[j].idx(), cards[i].idx());
        }
    }
    let ids = cards.map_values(|c: Card| c.idx() as int);
    assert(ids.no_duplicates()) by {
        assert forall|i: int, j: int| 0 <= i < ids.len() && 0 <= j < ids.len() && i != j implies ids[i] != ids[j] by {
            if i < j {
                assert(cards[i].idx() < cards[j].idx());
            } else {
                assert(cards[j].idx() < cards[i].idx());
            }
        }
    }
    ids.unique_seq_to_set();
    vstd::set_lib::lemma_int_range(0, 52);
    assert(s@.subset_of(vstd::set_lib::set_int_range(0, 52)));
    vstd::set_lib::lemma_set_subset_finite(vstd::set_lib::set_int_range(0, 52), s@);
    assert(ids.to_set().subset_of(s@)) by {
        assert forall|x: int| ids.to_set().contains(x) implies s@.contains(x) by {
            let k = choose|k: int| 0 <= k < ids.len() && ids[k] == x;
            assert(s@.contains(cards[k].idx() as int));
        }
    }
    vstd::set_lib::lemma_subset_equality(ids.to_set(), s@);
}

/// The card `nth` gives for `index` is the `index`th card that iterating
/// the set lists, and `nth` gives none exactly past the last of them; so
/// `nth` over `0..len` reaches every card of the set once.
///
/// `cards` is what `CardSet::iter` gives, and `card` what `CardSet::nth`
/// gives for `index`.
pub proof fn lemma_nth_agrees_with_iter(s: CardSet, cards: Seq<Card>, index: nat, card: Option<Card>)
    requires
        cards.len() == s@.len(),
        forall|k: int|
            0 <= k < cards.len() ==> s@.contains(#[trigger] cards[k].idx() as int) && s.below(cards[k].idx())
                == k,
        card is None <==> index >= s@.len(),
        card matches Some(c) ==> s@.contains(c.idx() as int) && s.below(c.idx()) == index,
    ensures
        card == if index < cards.len() {
            Some(cards[index as int])
        } else {
            None::<Card>
        },
{
    if index < cards.len() {
        let c = card->0;
        let d = cards[index as int];
        assert(s@.contains(d.idx() as int) && s.below(d.idx()) == index);
        if c.idx() < d.idx() {
            lemma_below_orders(s, c.idx(), d.idx());
        } else if d.idx() < c.idx() {
            lemma_below_orders(s, d.idx(), c.idx());
        }
        Card::lemma_idx_injective(c, d);
    }
}

} // verus!
