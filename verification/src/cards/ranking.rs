//! What a five-card hand is worth, as mathematics.
//!
//! Ranks are counted per rank and suits per suit, and every category is read
//! off those counts. Where several ranks would do -- two sets of trips in an
//! eight-card hand -- the highest is the one taken.

use vstd::prelude::*;

use super::card::{Card, Rank, Suit};

verus! {

/// What a hand is worth, as the evaluator reports it.
pub enum HandValue {
    StraightFlush(Rank),
    FourOfAKind(Rank),
    FullHouse(Rank, Rank),
    Flush(Seq<Rank>),
    Straight(Rank),
    ThreeOfAKind(Rank),
    TwoPair(Rank, Rank, Rank),
    Pair(Rank, Seq<Rank>),
    HighCard(Seq<Rank>),
}

/// How many of `cards` have rank `r`.
pub open spec fn count_rank(cards: Seq<Card>, r: Rank) -> nat
    decreases cards.len(),
{
    if cards.len() == 0 {
        0
    } else {
        count_rank(cards.drop_last(), r) + if cards.last().rank_of() == r {
            1nat
        } else {
            0nat
        }
    }
}

/// How many of `cards` have suit `s`.
pub open spec fn count_suit(cards: Seq<Card>, s: Suit) -> nat
    decreases cards.len(),
{
    if cards.len() == 0 {
        0
    } else {
        count_suit(cards.drop_last(), s) + if cards.last().suit_of() == s {
            1nat
        } else {
            0nat
        }
    }
}

/// `n` copies of `r`.
pub open spec fn copies(r: Rank, n: nat) -> Seq<Rank> {
    Seq::new(n, |_i: int| r)
}

/// The ranks of `cards` at index `k` and above, highest first.
pub open spec fn ranks_down_from(cards: Seq<Card>, k: nat) -> Seq<Rank>
    decreases 13 - k,
{
    if k >= 13 {
        seq![]
    } else {
        ranks_down_from(cards, k + 1) + copies(Rank::at(k), count_rank(cards, Rank::at(k)))
    }
}

/// The ranks of `cards`, highest first.
pub open spec fn ranks_down(cards: Seq<Card>) -> Seq<Rank> {
    ranks_down_from(cards, 0)
}

/// The ranks held exactly once, at index `k` and above, highest first.
pub open spec fn singles_down_from(cards: Seq<Card>, k: nat) -> Seq<Rank>
    decreases 13 - k,
{
    if k >= 13 {
        seq![]
    } else {
        singles_down_from(cards, k + 1) + if count_rank(cards, Rank::at(k)) == 1 {
            seq![Rank::at(k)]
        } else {
            seq![]
        }
    }
}

/// The ranks held exactly once, highest first.
pub open spec fn singles_down(cards: Seq<Card>) -> Seq<Rank> {
    singles_down_from(cards, 0)
}

/// The highest rank below index `k` held exactly `n` times.
pub open spec fn highest_below(cards: Seq<Card>, n: nat, k: nat) -> Option<Rank>
    decreases k,
{
    if k == 0 {
        None
    } else if count_rank(cards, Rank::at((k - 1) as nat)) == n {
        Some(Rank::at((k - 1) as nat))
    } else {
        highest_below(cards, n, (k - 1) as nat)
    }
}

/// The highest rank held exactly `n` times.
pub open spec fn highest_with(cards: Seq<Card>, n: nat) -> Option<Rank> {
    highest_below(cards, n, 13)
}

/// How many ranks below index `k` are held exactly `n` times.
pub open spec fn ranks_with_below(cards: Seq<Card>, n: nat, k: nat) -> nat
    decreases k,
{
    if k == 0 {
        0
    } else {
        ranks_with_below(cards, n, (k - 1) as nat) + if count_rank(
            cards,
            Rank::at((k - 1) as nat),
        ) == n {
            1nat
        } else {
            0nat
        }
    }
}

/// Whether five or more cards share a suit.
pub open spec fn is_flush(cards: Seq<Card>) -> bool {
    exists|i: nat| i < 4 && count_suit(cards, #[trigger] Suit::at(i)) >= 5
}

/// Whether the five ranks from `j` each step down by one.
pub open spec fn runs_down(rs: Seq<Rank>, j: int) -> bool {
    forall|t: int| j <= t < j + 4 ==> (#[trigger] rs[t]).index() == rs[t + 1].index() + 1
}

/// The top of the first five-card run down `rs` from position `j`.
pub open spec fn straight_from(rs: Seq<Rank>, j: nat) -> Option<Rank>
    decreases rs.len() - j,
{
    if j + 5 > rs.len() {
        None
    } else if runs_down(rs, j as int) {
        Some(rs[j as int])
    } else {
        straight_from(rs, j + 1)
    }
}

/// The top card of the first straight in the hand's ranks, read highest
/// first. An ace is high only: `A2345` is no straight.
pub open spec fn straight_top(cards: Seq<Card>) -> Option<Rank> {
    straight_from(ranks_down(cards), 0)
}

/// Two pair: exactly two ranks paired, with the highest single as kicker.
pub open spec fn two_pair(cards: Seq<Card>) -> Option<(Rank, Rank, Rank)> {
    if ranks_with_below(cards, 2, 13) != 2 {
        None
    } else {
        match (highest_with(cards, 2), highest_with(cards, 1)) {
            (Some(high), Some(kicker)) => match highest_below(cards, 2, high.index()) {
                Some(low) => Some((high, low, kicker)),
                None => None,
            },
            _ => None,
        }
    }
}

/// The ranks of `s` from position `i` on.
pub open spec fn tail_from(s: Seq<Rank>, i: usize) -> Seq<Rank> {
    s.skip(i as int)
}

/// The smaller of two hands' card counts.
pub open spec fn fewer_cards(a: Seq<Card>, b: Seq<Card>) -> usize {
    if a.len() <= b.len() {
        a.len() as usize
    } else {
        b.len() as usize
    }
}

/// What `cards` are worth.
pub open spec fn evaluate(cards: Seq<Card>) -> HandValue {
    if is_flush(cards) && straight_top(cards) is Some {
        HandValue::StraightFlush(straight_top(cards)->0)
    } else if highest_with(cards, 4) is Some {
        HandValue::FourOfAKind(highest_with(cards, 4)->0)
    } else if highest_with(cards, 3) is Some && highest_with(cards, 2) is Some {
        HandValue::FullHouse(highest_with(cards, 3)->0, highest_with(cards, 2)->0)
    } else if is_flush(cards) {
        HandValue::Flush(ranks_down(cards))
    } else if straight_top(cards) is Some {
        HandValue::Straight(straight_top(cards)->0)
    } else if highest_with(cards, 3) is Some {
        HandValue::ThreeOfAKind(highest_with(cards, 3)->0)
    } else if two_pair(cards) is Some {
        let (h, l, k) = two_pair(cards)->0;
        HandValue::TwoPair(h, l, k)
    } else if highest_with(cards, 2) is Some {
        HandValue::Pair(highest_with(cards, 2)->0, singles_down(cards))
    } else {
        HandValue::HighCard(ranks_down(cards))
    }
}

/// The category's place, straight flush highest.
pub open spec fn category(v: HandValue) -> nat {
    match v {
        HandValue::StraightFlush(_) => 9,
        HandValue::FourOfAKind(_) => 8,
        HandValue::FullHouse(_, _) => 7,
        HandValue::Flush(_) => 6,
        HandValue::Straight(_) => 5,
        HandValue::ThreeOfAKind(_) => 4,
        HandValue::TwoPair(_, _, _) => 3,
        HandValue::Pair(_, _) => 2,
        HandValue::HighCard(_) => 1,
    }
}

/// The cards of `cards` that are of suit `s`, in order.
pub open spec fn of_suit(cards: Seq<Card>, s: Suit) -> Seq<Card> {
    cards.filter(|c: Card| c.suit_of() == s)
}

/// Counting the cards of a suit one by one is picking them out.
proof fn lemma_count_suit_picks(cards: Seq<Card>, s: Suit)
    ensures
        count_suit(cards, s) == of_suit(cards, s).len(),
    decreases cards.len(),
{
    reveal(Seq::filter);
    if cards.len() > 0 {
        lemma_count_suit_picks(cards.drop_last(), s);
    }
}

/// A hand is worth a flush or a straight flush only when at least five of
/// its cards share one suit; and when five do, it is worth one of the two
/// unless it holds four of a kind or a full house.
pub proof fn lemma_flush_needs_five_of_a_suit(cards: Seq<Card>)
    ensures
        (evaluate(cards) is Flush || evaluate(cards) is StraightFlush) ==> exists|s: Suit|
            #[trigger] of_suit(cards, s).len() >= 5,
        (exists|s: Suit| #[trigger] of_suit(cards, s).len() >= 5) && !(evaluate(
            cards,
        ) is FourOfAKind) && !(evaluate(cards) is FullHouse) ==> (evaluate(cards) is Flush || evaluate(
            cards,
        ) is StraightFlush),
{
    if is_flush(cards) {
        let i = choose|i: nat| i < 4 && count_suit(cards, #[trigger] Suit::at(i)) >= 5;
        lemma_count_suit_picks(cards, Suit::at(i));
    }
    if exists|s: Suit| #[trigger] of_suit(cards, s).len() >= 5 {
        let s = choose|s: Suit| #[trigger] of_suit(cards, s).len() >= 5;
        lemma_count_suit_picks(cards, s);
        assert(Suit::at(s.index()) == s);
        assert(count_suit(cards, Suit::at(s.index())) >= 5);
    }
}

/// The cards of `cards` that are of rank `r`, in order.
pub open spec fn of_rank(cards: Seq<Card>, r: Rank) -> Seq<Card> {
    cards.filter(|c: Card| c.rank_of() == r)
}

/// Counting the cards of a rank one by one is picking them out.
proof fn lemma_count_rank_picks(cards: Seq<Card>, r: Rank)
    ensures
        count_rank(cards, r) == of_rank(cards, r).len(),
    decreases cards.len(),
{
    reveal(Seq::filter);
    if cards.len() > 0 {
        lemma_count_rank_picks(cards.drop_last(), r);
    }
}

/// What the search for the highest rank held `n` times below `k` finds.
proof fn lemma_highest_below_finds(cards: Seq<Card>, n: nat, k: nat)
    requires
        k <= 13,
    ensures
        highest_below(cards, n, k) matches Some(r) ==> count_rank(cards, r) == n && r.index() < k && forall|i: nat|
            r.index() < i < k ==> count_rank(cards, #[trigger] Rank::at(i)) != n,
        highest_below(cards, n, k) is None ==> forall|i: nat| i < k ==> count_rank(cards, #[trigger] Rank::at(i)) != n,
    decreases k,
{
    if k > 0 {
        lemma_highest_below_finds(cards, n, (k - 1) as nat);
        Rank::lemma_index_at((k - 1) as nat);
    }
}

/// Whatever the rank counts of a hand say of its worth is so: four of a
/// kind is four cards of its rank; a full house three of one rank and two
/// of another; three of a kind three cards of its rank, with no rank paired;
/// two pair two ranks held twice, the higher first, and a kicker held once;
/// one pair the highest rank held twice; and a high card hand holds no rank
/// two, three or four times.
pub proof fn lemma_worth_matches_the_counts(cards: Seq<Card>)
    ensures
        evaluate(cards) matches HandValue::FourOfAKind(r) ==> of_rank(cards, r).len() == 4,
        evaluate(cards) matches HandValue::FullHouse(t, p) ==> of_rank(cards, t).len() == 3 && of_rank(cards, p).len()
            == 2,
        evaluate(cards) matches HandValue::ThreeOfAKind(r) ==> of_rank(cards, r).len() == 3 && forall|q: Rank|
            #[trigger] of_rank(cards, q).len() != 2,
        evaluate(cards) matches HandValue::TwoPair(h, l, k) ==> h.index() > l.index() && of_rank(cards, h).len() == 2
            && of_rank(cards, l).len() == 2 && of_rank(cards, k).len() == 1,
        evaluate(cards) matches HandValue::Pair(r, _) ==> of_rank(cards, r).len() == 2 && forall|q: Rank|
            q.index() > r.index() ==> #[trigger] of_rank(cards, q).len() != 2,
        evaluate(cards) is HighCard ==> forall|q: Rank|
            #[trigger] of_rank(cards, q).len() < 2 || of_rank(cards, q).len() > 4,
{
    lemma_highest_below_finds(cards, 4, 13);
    lemma_highest_below_finds(cards, 3, 13);
    lemma_highest_below_finds(cards, 2, 13);
    lemma_highest_below_finds(cards, 1, 13);
    if let Some(high) = highest_with(cards, 2) {
        lemma_highest_below_finds(cards, 2, high.index());
    }
    assert forall|q: Rank| #[trigger] of_rank(cards, q).len() == count_rank(cards, q) by {
        lemma_count_rank_picks(cards, q);
    }
    assert forall|q: Rank| Rank::at(q.index()) == q && q.index() < 13 by {
        Rank::lemma_at_index(q);
    }
    if evaluate(cards) is ThreeOfAKind {
        assert forall|q: Rank| #[trigger] of_rank(cards, q).len() != 2 by {
            Rank::lemma_at_index(q);
            assert(count_rank(cards, Rank::at(q.index())) != 2);
        }
    }
    if evaluate(cards) is HighCard {
        assert forall|q: Rank| #[trigger] of_rank(cards, q).len() < 2 || of_rank(cards, q).len() > 4 by {
            Rank::lemma_at_index(q);
            assert(count_rank(cards, Rank::at(q.index())) != 2);
            assert(count_rank(cards, Rank::at(q.index())) != 3);
            assert(count_rank(cards, Rank::at(q.index())) != 4);
        }
    }
}

/// Every rank listed from index `k` up is at least `k` and is held.
proof fn lemma_listed_ranks_are_held(cards: Seq<Card>, k: nat)
    ensures
        forall|i: int|
            0 <= i < ranks_down_from(cards, k).len() ==> (#[trigger] ranks_down_from(cards, k)[i]).index() >= k
                && count_rank(cards, ranks_down_from(cards, k)[i]) >= 1,
    decreases 13 - k,
{
    if k < 13 {
        lemma_listed_ranks_are_held(cards, k + 1);
        let front = ranks_down_from(cards, k + 1);
        let more = copies(Rank::at(k), count_rank(cards, Rank::at(k)));
        Rank::lemma_index_at(k);
        assert forall|i: int| 0 <= i < ranks_down_from(cards, k).len() implies (#[trigger] ranks_down_from(
            cards,
            k,
        )[i]).index() >= k && count_rank(cards, ranks_down_from(cards, k)[i]) >= 1 by {
            if i < front.len() {
                assert(ranks_down_from(cards, k)[i] == front[i]);
            } else {
                assert(ranks_down_from(cards, k)[i] == more[i - front.len()]);
            }
        }
    }
}

/// Where the search for a run finds one, it is five ranks stepping down by
/// one from its top.
proof fn lemma_run_found(rs: Seq<Rank>, j: nat)
    ensures
        straight_from(rs, j) matches Some(top) ==> exists|m: int|
            j <= m && m + 5 <= rs.len() && rs[m] == top && #[trigger] runs_down(rs, m),
    decreases rs.len() - j,
{
    if j + 5 <= rs.len() && !runs_down(rs, j as int) {
        lemma_run_found(rs, j + 1);
    }
}

/// A hand is worth a straight, or a straight flush, topped by a rank only
/// when it holds that rank and each of the four below it.
pub proof fn lemma_straight_holds_five_in_a_row(cards: Seq<Card>)
    ensures
        (evaluate(cards) matches HandValue::Straight(top) || evaluate(cards) matches HandValue::StraightFlush(top))
            ==> ({
            let top = match evaluate(cards) {
                HandValue::Straight(t) => t,
                HandValue::StraightFlush(t) => t,
                _ => Rank::at(0),
            };
            top.index() >= 4 && forall|t: nat|
                t < 5 ==> #[trigger] of_rank(cards, Rank::at((top.index() - t) as nat)).len() >= 1
        }),
{
    let rs = ranks_down(cards);
    lemma_run_found(rs, 0);
    lemma_listed_ranks_are_held(cards, 0);
    if let Some(top) = straight_top(cards) {
        let m = choose|m: int| 0 <= m && m + 5 <= rs.len() && rs[m] == top && #[trigger] runs_down(rs, m);
        assert(rs[m].index() == rs[m + 1].index() + 1);
        assert(rs[m + 1].index() == rs[m + 2].index() + 1);
        assert(rs[m + 2].index() == rs[m + 3].index() + 1);
        assert(rs[m + 3].index() == rs[m + 4].index() + 1);
        assert(rs[m + 4].index() == top.index() - 4);
        assert forall|t: nat| t < 5 implies #[trigger] of_rank(cards, Rank::at((top.index() - t) as nat)).len() >= 1 by {
            assert(rs[m + t].index() == top.index() - t);
            Rank::lemma_at_index(rs[m + t]);
            lemma_count_rank_picks(cards, rs[m + t]);
        }
    }
}

} // verus!
