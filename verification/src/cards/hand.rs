//! A five-card hand, and what it is worth.

use std::cmp::Ordering;

use vstd::prelude::*;

use super::card::{glyphs_of, read_glyph_pairs, read_hand_outcome, read_pairs, Card, Rank, Suit};
use super::ranking::{
    category, copies, count_rank, count_suit, evaluate, highest_below, highest_with, is_flush,
    ranks_down, ranks_down_from, ranks_with_below, runs_down, singles_down, singles_down_from,
    straight_from, straight_top, tail_from, two_pair, fewer_cards, HandValue,
};
use crate::error::{CardError, PokerError};
use crate::text::{chars_of, is_whitespace, push_char, without_white_space};

verus! {

/// How strong a hand is: its category, then what breaks a tie within it.
#[derive(Debug)]
pub enum HandRank {
    StraightFlush(Rank),  // Rank of highest card
    FourOfAKind(Rank),  // Rank of quads
    FullHouse(Rank, Rank),  // Rank of trips then pair
    Flush(Vec<Rank>),  // Vec of rank in descending order
    Straight(Rank),  // Highest card
    ThreeOfAKind(Rank),  // Rank of trips
    TwoPair(Rank, Rank, Rank),  // High pair, low pair, kicker
    Pair(Rank, Vec<Rank>),  // Rank of pair, vec of kickers in descending order
    HighCard(Vec<Rank>),  // High to low
}

impl View for HandRank {
    type V = HandValue;

    open spec fn view(&self) -> HandValue {
        match self {
            HandRank::StraightFlush(r) => HandValue::StraightFlush(*r),
            HandRank::FourOfAKind(r) => HandValue::FourOfAKind(*r),
            HandRank::FullHouse(t, p) => HandValue::FullHouse(*t, *p),
            HandRank::Flush(rs) => HandValue::Flush(rs@),
            HandRank::Straight(r) => HandValue::Straight(*r),
            HandRank::ThreeOfAKind(r) => HandValue::ThreeOfAKind(*r),
            HandRank::TwoPair(h, l, k) => HandValue::TwoPair(*h, *l, *k),
            HandRank::Pair(r, ks) => HandValue::Pair(*r, ks@),
            HandRank::HighCard(rs) => HandValue::HighCard(rs@),
        }
    }
}

/// How two whole numbers compare.
pub open spec fn order_of(a: nat, b: nat) -> Ordering {
    if a < b {
        Ordering::Less
    } else if a == b {
        Ordering::Equal
    } else {
        Ordering::Greater
    }
}

/// Two rank lists compared card by card, as far as the shorter one goes.
pub open spec fn order_ranks(a: Seq<Rank>, b: Seq<Rank>) -> Ordering
    decreases a.len(),
{
    if a.len() == 0 || b.len() == 0 {
        Ordering::Equal
    } else if a[0].index() != b[0].index() {
        order_of(a[0].index(), b[0].index())
    } else {
        order_ranks(a.drop_first(), b.drop_first())
    }
}

/// The first of two orderings that is not a tie.
pub open spec fn then_order(first: Ordering, second: Ordering) -> Ordering {
    if first == Ordering::Equal {
        second
    } else {
        first
    }
}

/// How two hand values compare.
///
/// Within a category the higher ranks win. Between categories the order is
/// turned round, as a deuce-to-seven low game reads it: the lower category
/// compares greater.
pub open spec fn order_hands(a: HandValue, b: HandValue) -> Ordering {
    if category(a) != category(b) {
        order_of(category(b), category(a))
    } else {
        match (a, b) {
            (HandValue::StraightFlush(r1), HandValue::StraightFlush(r2)) => order_of(
                r1.index(),
                r2.index(),
            ),
            (HandValue::FourOfAKind(r1), HandValue::FourOfAKind(r2)) => order_of(
                r1.index(),
                r2.index(),
            ),
            (HandValue::FullHouse(t1, p1), HandValue::FullHouse(t2, p2)) => then_order(
                order_of(t1.index(), t2.index()),
                order_of(p1.index(), p2.index()),
            ),
            (HandValue::Flush(r1), HandValue::Flush(r2)) => order_ranks(r1, r2),
            (HandValue::Straight(r1), HandValue::Straight(r2)) => order_of(r1.index(), r2.index()),
            (HandValue::ThreeOfAKind(r1), HandValue::ThreeOfAKind(r2)) => order_of(
                r1.index(),
                r2.index(),
            ),
            (HandValue::TwoPair(h1, l1, k1), HandValue::TwoPair(h2, l2, k2)) => then_order(
                order_of(h1.index(), h2.index()),
                then_order(order_of(l1.index(), l2.index()), order_of(k1.index(), k2.index())),
            ),
            (HandValue::Pair(r1, k1), HandValue::Pair(r2, k2)) => then_order(
                order_of(r1.index(), r2.index()),
                order_ranks(k1, k2),
            ),
            (HandValue::HighCard(r1), HandValue::HighCard(r2)) => order_ranks(r1, r2),
            _ => Ordering::Equal,
        }
    }
}

/// The answer a comparison gives when asked the other way round.
pub open spec fn flipped(o: Ordering) -> Ordering {
    match o {
        Ordering::Less => Ordering::Greater,
        Ordering::Equal => Ordering::Equal,
        Ordering::Greater => Ordering::Less,
    }
}

/// Rank lists compared the other way round give the opposite answer, and a
/// list ties with itself.
proof fn lemma_order_ranks_flips(a: Seq<Rank>, b: Seq<Rank>)
    ensures
        order_ranks(a, b) == flipped(order_ranks(b, a)),
        order_ranks(a, a) == Ordering::Equal,
    decreases a.len(),
{
    if a.len() > 0 {
        if b.len() > 0 {
            lemma_order_ranks_flips(a.drop_first(), b.drop_first());
        } else {
            lemma_order_ranks_flips(a.drop_first(), a.drop_first());
        }
    }
}

/// Two hands compared the other way round give the opposite answer, and a
/// hand ties with itself: the comparison is consistent whichever side asks.
pub proof fn lemma_comparison_flips(a: HandValue, b: HandValue)
    ensures
        order_hands(a, b) == flipped(order_hands(b, a)),
        order_hands(a, a) == Ordering::Equal,
{
    match (a, b) {
        (HandValue::Flush(r1), HandValue::Flush(r2)) => {
            lemma_order_ranks_flips(r1, r2);
        },
        (HandValue::Pair(_, k1), HandValue::Pair(_, k2)) => {
            lemma_order_ranks_flips(k1, k2);
        },
        (HandValue::HighCard(r1), HandValue::HighCard(r2)) => {
            lemma_order_ranks_flips(r1, r2);
        },
        _ => {},
    }
    match a {
        HandValue::Flush(r) => lemma_order_ranks_flips(r, r),
        HandValue::Pair(_, k) => lemma_order_ranks_flips(k, k),
        HandValue::HighCard(r) => lemma_order_ranks_flips(r, r),
        _ => {},
    }
}

/// The answer for two numbers, the first against the second.
pub open spec fn versus(a: nat, b: nat) -> Ordering {
    if a < b {
        Ordering::Less
    } else if a > b {
        Ordering::Greater
    } else {
        Ordering::Equal
    }
}

/// Rank lists are compared card by card: the first place where they differ
/// decides, the higher rank there winning, and lists that agree as far as
/// the shorter goes tie.
pub proof fn lemma_rank_lists_first_difference(a: Seq<Rank>, b: Seq<Rank>)
    ensures
        forall|i: int|
            0 <= i < a.len() && i < b.len() && (forall|j: int| 0 <= j < i ==> a[j].index() == b[j].index())
                && #[trigger] a[i].index() != b[i].index() ==> order_ranks(a, b) == if a[i].index() < b[i].index() {
                Ordering::Less
            } else {
                Ordering::Greater
            },
        (forall|j: int| 0 <= j < a.len() && j < b.len() ==> a[j].index() == b[j].index()) ==> order_ranks(a, b)
            == Ordering::Equal,
    decreases a.len(),
{
    if a.len() > 0 && b.len() > 0 {
        lemma_rank_lists_first_difference(a.drop_first(), b.drop_first());
        assert forall|i: int|
            0 <= i < a.len() && i < b.len() && (forall|j: int| 0 <= j < i ==> a[j].index() == b[j].index())
                && #[trigger] a[i].index() != b[i].index() implies order_ranks(a, b) == if a[i].index()
                < b[i].index() {
                Ordering::Less
            } else {
                Ordering::Greater
            } by {
            if i > 0 {
                assert(a[0].index() == b[0].index());
                assert(a.drop_first()[i - 1] == a[i] && b.drop_first()[i - 1] == b[i]);
                assert forall|j: int| 0 <= j < i - 1 implies a.drop_first()[j].index() == b.drop_first()[j].index() by {
                    assert(a[j + 1].index() == b[j + 1].index());
                }
            }
        }
        if forall|j: int| 0 <= j < a.len() && j < b.len() ==> a[j].index() == b[j].index() {
            assert forall|j: int| 0 <= j < a.drop_first().len() && j < b.drop_first().len() implies a.drop_first()[j].index()
                == b.drop_first()[j].index() by {
                assert(a[j + 1].index() == b[j + 1].index());
            }
            assert(a[0].index() == b[0].index());
        }
    }
}

/// Hands of different categories compare the other way round from their
/// categories, as a deuce-to-seven low game reads them: the lower category
/// compares greater.
pub proof fn lemma_categories_turned_round(a: HandValue, b: HandValue)
    requires
        category(a) != category(b),
    ensures
        order_hands(a, b) == if category(a) < category(b) {
            Ordering::Greater
        } else {
            Ordering::Less
        },
{
}

/// Two two-pair hands go by the higher pair; where that ties, by the lower
/// pair whatever the kickers; and only where both pairs tie, by the kicker.
pub proof fn lemma_two_pair_order(h1: Rank, l1: Rank, k1: Rank, h2: Rank, l2: Rank, k2: Rank)
    ensures
        ({
            let o = order_hands(HandValue::TwoPair(h1, l1, k1), HandValue::TwoPair(h2, l2, k2));
            &&& h1.index() != h2.index() ==> o == versus(h1.index(), h2.index())
            &&& h1.index() == h2.index() && l1.index() != l2.index() ==> o == versus(l1.index(), l2.index())
            &&& h1.index() == h2.index() && l1.index() == l2.index() ==> o == versus(k1.index(), k2.index())
        }),
{
}

/// Two full houses go by the three of a kind, then by the pair.
pub proof fn lemma_full_house_order(t1: Rank, p1: Rank, t2: Rank, p2: Rank)
    ensures
        ({
            let o = order_hands(HandValue::FullHouse(t1, p1), HandValue::FullHouse(t2, p2));
            &&& t1.index() != t2.index() ==> o == versus(t1.index(), t2.index())
            &&& t1.index() == t2.index() ==> o == versus(p1.index(), p2.index())
        }),
{
}

/// Hands of one category that a single rank settles go by that rank.
pub proof fn lemma_single_rank_order(r1: Rank, r2: Rank)
    ensures
        order_hands(HandValue::StraightFlush(r1), HandValue::StraightFlush(r2)) == versus(r1.index(), r2.index()),
        order_hands(HandValue::FourOfAKind(r1), HandValue::FourOfAKind(r2)) == versus(r1.index(), r2.index()),
        order_hands(HandValue::Straight(r1), HandValue::Straight(r2)) == versus(r1.index(), r2.index()),
        order_hands(HandValue::ThreeOfAKind(r1), HandValue::ThreeOfAKind(r2)) == versus(r1.index(), r2.index()),
{
}

/// Two one-pair hands go by the pair, and where that ties by the kickers,
/// highest first.
pub proof fn lemma_pair_order(r1: Rank, k1: Seq<Rank>, r2: Rank, k2: Seq<Rank>)
    ensures
        r1.index() != r2.index() ==> order_hands(HandValue::Pair(r1, k1), HandValue::Pair(r2, k2)) == versus(
            r1.index(),
            r2.index(),
        ),
        r1.index() == r2.index() ==> order_hands(HandValue::Pair(r1, k1), HandValue::Pair(r2, k2)) == order_ranks(
            k1,
            k2,
        ),
{
}

/// How two ranks compare.
fn order_two(a: Rank, b: Rank) -> (r: Ordering)
    ensures
        r == order_of(a.index(), b.index()),
{
    let x = a.to_value();
    let y = b.to_value();
    if x < y {
        Ordering::Less
    } else if x == y {
        Ordering::Equal
    } else {
        Ordering::Greater
    }
}

/// Two rank lists compared card by card.
fn order_lists(a: &Vec<Rank>, b: &Vec<Rank>) -> (r: Ordering)
    ensures
        r == order_ranks(a@, b@),
{
    let mut i: usize = 0;
    assert(tail_from(a@, i) =~= a@);
    assert(tail_from(b@, i) =~= b@);
    while i < a.len() && i < b.len()
        invariant
            0 <= i <= a.len(),
            i <= b.len(),
            order_ranks(a@, b@) == order_ranks(tail_from(a@, i), tail_from(b@, i)),
        decreases a.len() - i,
    {
        let x = a[i];
        let y = b[i];
        assert(tail_from(a@, i).len() > 0 && tail_from(a@, i)[0] == x);
        assert(tail_from(b@, i).len() > 0 && tail_from(b@, i)[0] == y);
        match order_two(x, y) {
            Ordering::Equal => {},
            o => {
                return o;
            },
        }
        let ghost before = i;
        i = i + 1;
        assert(tail_from(a@, before).drop_first() =~= tail_from(a@, i));
        assert(tail_from(b@, before).drop_first() =~= tail_from(b@, i));
    }
    Ordering::Equal
}

/// Whether two rank lists are the same list.
fn same_list(a: &Vec<Rank>, b: &Vec<Rank>) -> (r: bool)
    ensures
        r == (a@ == b@),
{
    if a.len() != b.len() {
        return false;
    }
    let mut i: usize = 0;
    while i < a.len()
        invariant
            0 <= i <= a.len(),
            a.len() == b.len(),
            forall|j: int| 0 <= j < i ==> a@[j] == b@[j],
        decreases a.len() - i,
    {
        if a[i] != b[i] {
            return false;
        }
        i = i + 1;
    }
    assert(a@ =~= b@);
    true
}

impl HandRank {
    /// The category's place, straight flush highest at nine.
    pub fn hand_type_value(&self) -> (r: u8)
        ensures
            r == category(self@),
    {
        match self {
            HandRank::StraightFlush(_) => 9,
            HandRank::FourOfAKind(_) => 8,
            HandRank::FullHouse(_, _) => 7,
            HandRank::Flush(_) => 6,
            HandRank::Straight(_) => 5,
            HandRank::ThreeOfAKind(_) => 4,
            HandRank::TwoPair(_, _, _) => 3,
            HandRank::Pair(_, _) => 2,
            HandRank::HighCard(_) => 1,
        }
    }

    /// Whether two hand ranks are the same category with the same ranks.
    pub fn same_as(&self, other: &Self) -> (r: bool)
        ensures
            r == (self@ == other@),
    {
        match (self, other) {
            (HandRank::StraightFlush(r1), HandRank::StraightFlush(r2)) => *r1 == *r2,
            (HandRank::FourOfAKind(r1), HandRank::FourOfAKind(r2)) => *r1 == *r2,
            (HandRank::FullHouse(t1, p1), HandRank::FullHouse(t2, p2)) => *t1 == *t2 && *p1 == *p2,
            (HandRank::Flush(ranks1), HandRank::Flush(ranks2)) => same_list(ranks1, ranks2),
            (HandRank::Straight(r1), HandRank::Straight(r2)) => *r1 == *r2,
            (HandRank::ThreeOfAKind(r1), HandRank::ThreeOfAKind(r2)) => *r1 == *r2,
            (HandRank::TwoPair(h1, l1, k1), HandRank::TwoPair(h2, l2, k2)) => {
                *h1 == *h2 && *l1 == *l2 && *k1 == *k2
            },
            (HandRank::Pair(r1, k1), HandRank::Pair(r2, k2)) => *r1 == *r2 && same_list(k1, k2),
            (HandRank::HighCard(r1), HandRank::HighCard(r2)) => same_list(r1, r2),
            _ => false,  // Not the same HandRank type.
        }
    }

    /// How two hand ranks compare; see [`order_hands`].
    pub fn order(&self, other: &Self) -> (r: Ordering)
        ensures
            r == order_hands(self@, other@),
    {
        let mine = self.hand_type_value();
        let theirs = other.hand_type_value();
        if mine != theirs {
            // Reverse order of hands in 2-7
            return if theirs < mine {
                Ordering::Less
            } else {
                Ordering::Greater
            };
        }
        match (self, other) {
            (HandRank::StraightFlush(r1), HandRank::StraightFlush(r2)) => order_two(*r1, *r2),
            (HandRank::FourOfAKind(r1), HandRank::FourOfAKind(r2)) => order_two(*r1, *r2),
            (HandRank::FullHouse(t1, p1), HandRank::FullHouse(t2, p2)) => {
                match order_two(*t1, *t2) {
                    Ordering::Equal => order_two(*p1, *p2),
                    ord => ord,
                }
            },
            (HandRank::Flush(ranks1), HandRank::Flush(ranks2)) => order_lists(ranks1, ranks2),
            (HandRank::Straight(r1), HandRank::Straight(r2)) => order_two(*r1, *r2),
            (HandRank::ThreeOfAKind(r1), HandRank::ThreeOfAKind(r2)) => order_two(*r1, *r2),
            (HandRank::TwoPair(h1, l1, k1), HandRank::TwoPair(h2, l2, k2)) => {
                // h = higher pair, l = lower pair, k = kicker
                match order_two(*h1, *h2) {
                    Ordering::Equal => match order_two(*l1, *l2) {
                        Ordering::Equal => order_two(*k1, *k2),
                        ord => ord,
                    },
                    ord => ord,
                }
            },
            (HandRank::Pair(r1, k1), HandRank::Pair(r2, k2)) => match order_two(*r1, *r2) {
                Ordering::Equal => order_lists(k1, k2),
                ord => ord,
            },
            (HandRank::HighCard(ranks1), HandRank::HighCard(ranks2)) => order_lists(
                ranks1,
                ranks2,
            ),
            _ => Ordering::Equal,
        }
    }
}

impl PartialEq for HandRank {
    fn eq(&self, other: &Self) -> (r: bool) {
        self.same_as(other)
    }
}

impl vstd::std_specs::cmp::PartialEqSpecImpl for HandRank {
    open spec fn obeys_eq_spec() -> bool {
        true
    }

    open spec fn eq_spec(&self, other: &HandRank) -> bool {
        self@ == other@
    }
}

impl PartialOrd for HandRank {
    fn partial_cmp(&self, other: &Self) -> (r: Option<Ordering>) {
        Some(self.order(other))
    }
}

impl vstd::std_specs::cmp::PartialOrdSpecImpl for HandRank {
    open spec fn obeys_partial_cmp_spec() -> bool {
        true
    }

    open spec fn partial_cmp_spec(&self, other: &HandRank) -> Option<Ordering> {
        Some(order_hands(self@, other@))
    }
}


/// The first card of `ds` that `hand` does not hold.
pub open spec fn first_absent(hand: Seq<Card>, ds: Seq<Card>) -> Option<Card>
    decreases ds.len(),
{
    if ds.len() == 0 {
        None
    } else if !hand.contains(ds[0]) {
        Some(ds[0])
    } else {
        first_absent(hand, ds.drop_first())
    }
}

/// What throwing `ds` away from `held` does: too many is refused, a card not
/// held is refused, and otherwise every copy of each card goes. Nothing
/// changes when it is refused.
pub open spec fn discard_outcome(
    held: Seq<Card>,
    ds: Seq<Card>,
    r: Result<(), CardError>,
    after: Seq<Card>,
) -> bool {
    if ds.len() > 5 {
        r == Err::<(), CardError>(CardError::TooManyDiscards(ds.len() as usize)) && after == held
    } else if let Some(card) = first_absent(held, ds) {
        r == Err::<(), CardError>(CardError::CardNotFound(card)) && after == held
    } else {
        r is Ok && after == held.filter(|c: Card| !ds.contains(c))
    }
}

/// The hand's result, read through its view.
pub open spec fn hand_result(r: Result<Hand, PokerError>) -> Result<Seq<Card>, PokerError> {
    match r {
        Ok(hand) => Ok(hand@),
        Err(e) => Err(e),
    }
}

/// The rank counts of `cards`, one per rank index.
pub open spec fn counts_of(cards: Seq<Card>, counts: Seq<usize>) -> bool {
    &&& counts.len() == 13
    &&& forall|k: int| 0 <= k < 13 ==> #[trigger] counts[k] == count_rank(cards, Rank::at(k as nat))
}

/// The rank's index, as a position in a count table.
fn rank_slot(rank: Rank) -> (r: usize)
    ensures
        r == rank.index(),
        r < 13,
{
    (rank.to_value() - 2) as usize
}

/// A five-card hand.
#[derive(Clone, Debug)]
pub struct Hand {
    cards: Vec<Card>,
}

impl View for Hand {
    type V = Seq<Card>;

    /// The cards held, in the order they came.
    closed spec fn view(&self) -> Seq<Card> {
        self.cards@
    }
}

impl Hand {
    /// An empty hand.
    pub fn new() -> (r: Self)
        ensures
            r@ == Seq::<Card>::empty(),
    {
        Self { cards: Vec::with_capacity(5) }
    }

    /// A hand holding `cards`, however many there are.
    pub fn new_with_cards(cards: Vec<Card>) -> (r: Self)
        ensures
            r@ == cards@,
    {
        Self { cards }
    }

    /// Takes a string e.g. "AdKc" and returns a Hand holding those cards.
    /// Both "AhKh" and "Ah Kh" give the same result as whitespace is
    /// stripped; more than five cards is an error.
    pub fn from_str(cards_str: &str) -> (r: Result<Self, PokerError>)
        ensures
            read_hand_outcome(cards_str@, 5, hand_result(r)),
    {
        let glyphs = glyphs_of(cards_str);
        let len = glyphs.len();
        if len % 2 != 0 {
            return Err(
                PokerError::Card(
                    CardError::InvalidFormat(
                        crate::text::string_of(
                            "Both suit and rank have to be provided for every card",
                        ),
                    ),
                ),
            );
        } else if len > 10 {
            // More than 5 cards
            return Err(PokerError::Card(CardError::TooManyCards(len / 2)));
        }
        match read_glyph_pairs(&glyphs) {
            Ok(cards) => Ok(Self { cards }),
            Err(e) => Err(PokerError::Card(e)),
        }
    }

    /// Compares two complete hands, or reports the smaller card count when
    /// either is not yet five cards.
    pub fn compare(hand1: &Hand, hand2: &Hand) -> (r: Result<Ordering, PokerError>)
        ensures
            hand1@.len() != 5 || hand2@.len() != 5 ==> r == Err::<Ordering, PokerError>(
                PokerError::Card(
                    CardError::IncompleteHand(fewer_cards(hand1@, hand2@)),
                ),
            ),
            hand1@.len() == 5 && hand2@.len() == 5 ==> r == Ok::<Ordering, PokerError>(
                order_hands(evaluate(hand1@), evaluate(hand2@)),
            ),
    {
        // Check for incomplete hands
        let n1 = hand1.num_cards();
        let n2 = hand2.num_cards();
        if n1 != 5 || n2 != 5 {
            let fewest = if n1 <= n2 {
                n1
            } else {
                n2
            };
            return Err(PokerError::Card(CardError::IncompleteHand(fewest)));
        }
        Ok(hand1.evaluate().order(&hand2.evaluate()))
    }

    /// Adds one card, or errors if the hand already holds five.
    pub fn add_card(&mut self, card: Card) -> (r: Result<(), CardError>)
        requires
            old(self)@.len() < usize::MAX,
        ensures
            old(self)@.len() < 5 ==> r is Ok && final(self)@ == old(self)@.push(card),
            old(self)@.len() >= 5 ==> r == Err::<(), CardError>(
                CardError::TooManyCards((old(self)@.len() + 1) as usize),
            ) && final(self)@ == old(self)@,
    {
        if self.cards.len() >= 5 {
            return Err(CardError::TooManyCards(self.cards.len() + 1));
        }
        self.cards.push(card);
        Ok(())
    }

    /// The cards held, in the order they were added.
    pub fn cards(&self) -> (r: &[Card])
        ensures
            r@ == self@,
    {
        self.cards.as_slice()
    }

    /// Throws cards away, erroring if the hand does not hold one of them.
    ///
    /// Nothing is thrown away unless every card asked for is held, and then
    /// every copy of each goes.
    pub fn discard(&mut self, cards_to_discard: &Vec<Card>) -> (r: Result<(), CardError>)
        ensures
            discard_outcome(old(self)@, cards_to_discard@, r, final(self)@),
    {
        throw_away(&mut self.cards, cards_to_discard)
    }

    /// Returns the number of cards the hand has
    pub fn num_cards(&self) -> (r: usize)
        ensures
            r == self@.len(),
    {
        self.cards.len()
    }

    /// What the hand is worth.
    pub fn evaluate(&self) -> (r: HandRank)
        ensures
            r@ == evaluate(self@),
    {
        let rank_counts = self.rank_counts();
        let is_flush = self.is_flush();

        // Check strongest to weakest according to normal hold em rules
        if is_flush {
            if let Some(rank) = self.is_straight() {
                return HandRank::StraightFlush(rank);
            }
        }
        if let Some(rank) = self.is_four_of_kind(&rank_counts) {
            return HandRank::FourOfAKind(rank);
        }
        if let Some((trips, pair)) = self.is_full_house(&rank_counts) {
            return HandRank::FullHouse(trips, pair);
        }
        if is_flush {
            return HandRank::Flush(self.sorted_ranks());
        }
        if let Some(rank) = self.is_straight() {
            return HandRank::Straight(rank);
        }
        if let Some(rank) = self.is_three_of_kind(&rank_counts) {
            return HandRank::ThreeOfAKind(rank);
        }
        if let Some((high_pair, low_pair, kicker)) = self.is_two_pair(&rank_counts) {
            return HandRank::TwoPair(high_pair, low_pair, kicker);
        }
        if let Some((pair_rank, kickers)) = self.is_pair(&rank_counts) {
            return HandRank::Pair(pair_rank, kickers);
        }
        HandRank::HighCard(self.sorted_ranks())
    }

    /// The highest rank below index `below` held exactly `n` times.
    fn highest_count(&self, rank_counts: &Vec<usize>, n: usize, below: usize) -> (r: Option<Rank>)
        requires
            counts_of(self@, rank_counts@),
            below <= 13,
        ensures
            r == highest_below(self@, n as nat, below as nat),
    {
        let mut k: usize = below;
        while k > 0
            invariant
                k <= below <= 13,
                counts_of(self@, rank_counts@),
                highest_below(self@, n as nat, below as nat) == highest_below(
                    self@,
                    n as nat,
                    k as nat,
                ),
            decreases k,
        {
            if rank_counts[k - 1] == n {
                return Some(Rank::from_index((k - 1) as u8));
            }
            k = k - 1;
        }
        None
    }

    fn is_four_of_kind(&self, rank_counts: &Vec<usize>) -> (r: Option<Rank>)
        requires
            counts_of(self@, rank_counts@),
        ensures
            r == highest_with(self@, 4),
    {
        self.highest_count(rank_counts, 4, 13)
    }

    fn is_full_house(&self, rank_counts: &Vec<usize>) -> (r: Option<(Rank, Rank)>)
        requires
            counts_of(self@, rank_counts@),
        ensures
            r == match (highest_with(self@, 3), highest_with(self@, 2)) {
                (Some(t), Some(p)) => Some((t, p)),
                _ => None,
            },
    {
        if let Some(trips_rank) = self.highest_count(rank_counts, 3, 13) {
            if let Some(pair_rank) = self.highest_count(rank_counts, 2, 13) {
                return Some((trips_rank, pair_rank));
            }
        }
        None
    }

    /// The top of the first straight among the ranks, read highest first.
    /// An ace is high only: `A2345` is no straight here.
    fn is_straight(&self) -> (r: Option<Rank>)
        ensures
            r == straight_top(self@),
    {
        let ranks = self.sorted_ranks();
        if ranks.len() < 5 {
            return None;
        }
        // Ranks are sorted from the top, so a straight is four steps of one.
        let mut consecutive: usize = 0;
        let mut i: usize = 0;
        while i < ranks.len() - 1
            invariant
                ranks@ == ranks_down(self@),
                ranks.len() >= 5,
                0 <= i <= ranks.len() - 1,
                consecutive <= i,
                consecutive <= 3,
                forall|t: int| i - consecutive <= t < i ==> step_down(ranks@, t),
                consecutive < i ==> !step_down(ranks@, i - 1 - consecutive),
                forall|j: int| 0 <= j && j + 3 < i ==> !runs_down(ranks@, j),
            decreases ranks.len() - 1 - i,
        {
            if ranks[i].to_value() == ranks[i + 1].to_value() + 1 {
                consecutive = consecutive + 1;
            } else {
                consecutive = 0;
            }
            if consecutive >= 4 {
                proof {
                    let j = i - 3;
                    assert(runs_down(ranks@, j)) by {
                        assert forall|t: int| j <= t < j + 4 implies (#[trigger] ranks@[t]).index()
                            == ranks@[t + 1].index() + 1 by {
                            assert(step_down(ranks@, t));
                        }
                    }
                    lemma_straight_skip(ranks@, j as nat);
                }
                return Some(ranks[i - 3]);
            }
            proof {
                assert forall|j: int| 0 <= j && j + 3 < i + 1 implies !runs_down(ranks@, j) by {
                    if j + 3 == i {
                        if consecutive == 0 {
                            assert(!step_down(ranks@, i as int));
                        } else {
                            assert(!step_down(ranks@, i - consecutive));
                        }
                    }
                }
            }
            i = i + 1;
        }
        proof {
            lemma_straight_skip(ranks@, (ranks.len() - 4) as nat);
        }
        None
    }

    fn is_three_of_kind(&self, rank_counts: &Vec<usize>) -> (r: Option<Rank>)
        requires
            counts_of(self@, rank_counts@),
        ensures
            r == highest_with(self@, 3),
    {
        self.highest_count(rank_counts, 3, 13)
    }

    /// Checks for two pair. Returns (high_pair, low_pair, kicker) if it finds
    /// exactly two pairs and a single card to kick.
    fn is_two_pair(&self, rank_counts: &Vec<usize>) -> (r: Option<(Rank, Rank, Rank)>)
        requires
            counts_of(self@, rank_counts@),
        ensures
            r == two_pair(self@),
    {
        let mut pairs: usize = 0;
        let mut k: usize = 0;
        while k < 13
            invariant
                k <= 13,
                counts_of(self@, rank_counts@),
                pairs == ranks_with_below(self@, 2, k as nat),
                pairs <= k,
            decreases 13 - k,
        {
            if rank_counts[k] == 2 {
                pairs = pairs + 1;
            }
            k = k + 1;
        }
        if pairs != 2 {
            return None;
        }
        let high_pair = match self.highest_count(rank_counts, 2, 13) {
            Some(rank) => rank,
            None => return None,
        };
        let kicker = match self.highest_count(rank_counts, 1, 13) {
            Some(rank) => rank,
            None => return None,
        };
        match self.highest_count(rank_counts, 2, rank_slot(high_pair)) {
            Some(low_pair) => Some((high_pair, low_pair, kicker)),
            None => None,
        }
    }

    fn is_pair(&self, rank_counts: &Vec<usize>) -> (r: Option<(Rank, Vec<Rank>)>)
        requires
            counts_of(self@, rank_counts@),
        ensures
            match (r, highest_with(self@, 2)) {
                (Some((p, kickers)), Some(q)) => p == q && kickers@ == singles_down(self@),
                (None, None) => true,
                _ => false,
            },
    {
        if let Some(pair_rank) = self.highest_count(rank_counts, 2, 13) {
            let mut kickers: Vec<Rank> = Vec::new();
            let mut k: usize = 13;
            while k > 0
                invariant
                    k <= 13,
                    counts_of(self@, rank_counts@),
                    kickers@ == singles_down_from(self@, k as nat),
                decreases k,
            {
                k = k - 1;
                if rank_counts[k] == 1 {
                    kickers.push(Rank::from_index(k as u8));
                }
            }
            return Some((pair_rank, kickers));
        }
        None
    }

    /// How many cards of each rank, by rank index.
    fn rank_counts(&self) -> (r: Vec<usize>)
        ensures
            counts_of(self@, r@),
    {
        let mut counts: Vec<usize> = vec![0usize; 13];
        let mut i: usize = 0;
        while i < self.cards.len()
            invariant
                0 <= i <= self.cards.len(),
                counts.len() == 13,
                forall|k: int|
                    0 <= k < 13 ==> #[trigger] counts@[k] == count_rank(
                        self.cards@.take(i as int),
                        Rank::at(k as nat),
                    ) && counts@[k] <= i,
            decreases self.cards.len() - i,
        {
            let slot = rank_slot(self.cards[i].rank());
            proof {
                assert forall|k: int| 0 <= k < 13 implies #[trigger] count_rank(
                    self.cards@.take(i + 1),
                    Rank::at(k as nat),
                ) == count_rank(self.cards@.take(i as int), Rank::at(k as nat)) + if k == slot {
                    1nat
                } else {
                    0nat
                } by {
                    assert(self.cards@.take(i + 1).drop_last() =~= self.cards@.take(i as int));
                }
            }
            counts.set(slot, counts[slot] + 1);
            i = i + 1;
        }
        assert(self.cards@.take(self.cards.len() as int) =~= self.cards@);
        counts
    }

    /// Whether five or more cards share a suit.
    fn is_flush(&self) -> (r: bool)
        ensures
            r == is_flush(self@),
    {
        let counts = self.suit_counts();
        let flush = counts[0] >= 5 || counts[1] >= 5 || counts[2] >= 5 || counts[3] >= 5;
        proof {
            if flush {
                if counts[0] >= 5 {
                    assert(count_suit(self@, Suit::at(0)) >= 5);
                } else if counts[1] >= 5 {
                    assert(count_suit(self@, Suit::at(1)) >= 5);
                } else if counts[2] >= 5 {
                    assert(count_suit(self@, Suit::at(2)) >= 5);
                } else {
                    assert(count_suit(self@, Suit::at(3)) >= 5);
                }
            }
        }
        flush
    }

    /// How many cards of each suit, by suit index.
    fn suit_counts(&self) -> (r: Vec<usize>)
        ensures
            r.len() == 4,
            forall|k: int| 0 <= k < 4 ==> #[trigger] r@[k] == count_suit(self@, Suit::at(k as nat)),
    {
        let mut counts: Vec<usize> = vec![0usize; 4];
        let mut i: usize = 0;
        while i < self.cards.len()
            invariant
                0 <= i <= self.cards.len(),
                counts.len() == 4,
                forall|k: int|
                    0 <= k < 4 ==> #[trigger] counts@[k] == count_suit(
                        self.cards@.take(i as int),
                        Suit::at(k as nat),
                    ) && counts@[k] <= i,
            decreases self.cards.len() - i,
        {
            let slot = self.cards[i].suit().to_index() as usize;
            proof {
                assert forall|k: int| 0 <= k < 4 implies #[trigger] count_suit(
                    self.cards@.take(i + 1),
                    Suit::at(k as nat),
                ) == count_suit(self.cards@.take(i as int), Suit::at(k as nat)) + if k == slot {
                    1nat
                } else {
                    0nat
                } by {
                    assert(self.cards@.take(i + 1).drop_last() =~= self.cards@.take(i as int));
                }
            }
            counts.set(slot, counts[slot] + 1);
            i = i + 1;
        }
        assert(self.cards@.take(self.cards.len() as int) =~= self.cards@);
        counts
    }

    /// The ranks held, highest first.
    fn sorted_ranks(&self) -> (r: Vec<Rank>)
        ensures
            r@ == ranks_down(self@),
    {
        let counts = self.rank_counts();
        let mut ranks: Vec<Rank> = Vec::new();
        let mut k: usize = 13;
        while k > 0
            invariant
                k <= 13,
                counts_of(self@, counts@),
                ranks@ == ranks_down_from(self@, k as nat),
            decreases k,
        {
            k = k - 1;
            let rank = Rank::from_index(k as u8);
            let mut n: usize = 0;
            while n < counts[k]
                invariant
                    k < 13,
                    counts_of(self@, counts@),
                    n <= counts@[k as int],
                    ranks@ == ranks_down_from(self@, (k + 1) as nat) + copies(rank, n as nat),
                    rank == Rank::at(k as nat),
                decreases counts@[k as int] - n,
            {
                assert(copies(rank, (n + 1) as nat) =~= copies(rank, n as nat).push(rank));
                ranks.push(rank);
                n = n + 1;
            }
        }
        ranks
    }

    /// The hand as text: each card after the
    /// first, each preceded by a space. The first card is not printed.
    pub fn to_string(&self) -> (r: String)
        ensures
            r@ == shown_after_first(self@),
    {
        let mut s = String::new();
        let mut i: usize = 0;
        while i < self.cards.len()
            invariant
                0 <= i <= self.cards.len(),
                s@ == shown_after_first(self.cards@.take(i as int)),
            decreases self.cards.len() - i,
        {
            if i > 0 {
                push_char(&mut s, ' ');
                let name = self.cards[i].to_string();
                crate::text::push_str(&mut s, name.as_str());
            }
            proof {
                assert(self.cards@.take(i + 1).drop_last() =~= self.cards@.take(i as int));
            }
            i = i + 1;
        }
        assert(self.cards@.take(self.cards.len() as int) =~= self.cards@);
        s
    }
}

/// The text a hand prints: every card but the first, each after a space.
pub open spec fn shown_after_first(cards: Seq<Card>) -> Seq<char>
    decreases cards.len(),
{
    if cards.len() <= 1 {
        seq![]
    } else {
        shown_after_first(cards.drop_last()) + seq![' '] + cards.last().name()
    }
}

/// Whether step `t` of a descending run goes down by exactly one.
pub open spec fn step_down(rs: Seq<Rank>, t: int) -> bool {
    rs[t].index() == rs[t + 1].index() + 1
}

/// Where no five-card run starts before `j`, the first straight is the first
/// one from `j`.
proof fn lemma_straight_skip(rs: Seq<Rank>, j: nat)
    requires
        forall|i: int| 0 <= i < j ==> !runs_down(rs, i),
    ensures
        straight_from(rs, 0) == straight_from(rs, j),
    decreases j,
{
    if j > 0 {
        lemma_straight_skip(rs, (j - 1) as nat);
        assert(!runs_down(rs, j - 1));
    }
}

/// What the cards in `cards` are worth as one hand.
pub fn five_card_rank(cards: &[Card]) -> (r: HandRank)
    ensures
        r@ == evaluate(cards@),
{
    Hand::new_with_cards(vstd::slice::slice_to_vec(cards)).evaluate()
}

/// Throws cards away from `held`, erroring if it does not hold one of them.
///
/// Nothing is thrown away unless every card asked for is held, and then
/// every copy of each goes.
pub fn throw_away(held: &mut Vec<Card>, cards_to_discard: &Vec<Card>) -> (r: Result<(), CardError>)
    ensures
        discard_outcome(old(held)@, cards_to_discard@, r, final(held)@),
{
    // Check we don't discard too many cards
    let discard_len = cards_to_discard.len();
    if discard_len > 5 {
        return Err(CardError::TooManyDiscards(discard_len));
    }
    // Make sure all cards we want to discard in the hand exist.
    let mut i: usize = 0;
    assert(cards_to_discard@.skip(0) =~= cards_to_discard@);
    while i < discard_len
        invariant
            discard_len == cards_to_discard.len(),
            discard_len <= 5,
            0 <= i <= discard_len,
            first_absent(held@, cards_to_discard@) == first_absent(
                held@,
                cards_to_discard@.skip(i as int),
            ),
        decreases discard_len - i,
    {
        let card = cards_to_discard[i];
        assert(cards_to_discard@.skip(i as int)[0] == card);
        assert(cards_to_discard@.skip(i as int).drop_first() =~= cards_to_discard@.skip(i + 1));
        if !holds(held, card) {
            return Err(CardError::CardNotFound(card));
        }
        i = i + 1;
    }
    // Once we know the cards exist remove them
    let mut kept: Vec<Card> = Vec::new();
    let mut j: usize = 0;
    while j < held.len()
        invariant
            0 <= j <= held.len(),
            kept@ == held@.take(j as int).filter(
                |c: Card| !cards_to_discard@.contains(c),
            ),
        decreases held.len() - j,
    {
        let card = held[j];
        proof {
            reveal_with_fuel(Seq::<_>::filter, 1);
            assert(held@.take(j + 1).drop_last() =~= held@.take(j as int));
        }
        if !holds(cards_to_discard, card) {
            kept.push(card);
        }
        j = j + 1;
    }
    assert(held@.take(held.len() as int) =~= held@);
    *held = kept;
    Ok(())
}

/// Whether `cards` holds `card`.
fn holds(cards: &Vec<Card>, card: Card) -> (r: bool)
    ensures
        r == cards@.contains(card),
{
    let mut i: usize = 0;
    while i < cards.len()
        invariant
            0 <= i <= cards.len(),
            forall|j: int| 0 <= j < i ==> cards@[j] != card,
        decreases cards.len() - i,
    {
        if cards[i].matches(&card) {
            return true;
        }
        i = i + 1;
    }
    false
}

impl PartialEq for Hand {
    fn eq(&self, other: &Self) -> (r: bool) {
        self.evaluate().same_as(&other.evaluate())
    }
}

impl vstd::std_specs::cmp::PartialEqSpecImpl for Hand {
    open spec fn obeys_eq_spec() -> bool {
        true
    }

    open spec fn eq_spec(&self, other: &Hand) -> bool {
        evaluate(self@) == evaluate(other@)
    }
}

impl PartialOrd for Hand {
    fn partial_cmp(&self, other: &Self) -> (r: Option<Ordering>) {
        Some(self.evaluate().order(&other.evaluate()))
    }
}

impl vstd::std_specs::cmp::PartialOrdSpecImpl for Hand {
    open spec fn obeys_partial_cmp_spec() -> bool {
        true
    }

    open spec fn partial_cmp_spec(&self, other: &Hand) -> Option<Ordering> {
        Some(order_hands(evaluate(self@), evaluate(other@)))
    }
}

} // verus!
