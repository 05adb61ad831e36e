//! The canonical form of a hand field reads back as the field it came from.
//!
//! A field the parser accepts is made of slots of four shapes only -- a named
//! card, a whole rank, a whole suit and the whole deck -- with no card named
//! twice in one alternative. Each of those shapes is written as one or two
//! characters, slots are separated by a space and alternatives by a comma, so
//! the text says nothing the parser could read differently.

use vstd::prelude::*;
use vstd::set_lib::{lemma_int_range, lemma_set_subset_finite, set_int_range};

use super::hand_spec::{
    alternative_text, combo_alternatives, lemma_singleton, single, slot_text, slots_view, spec_text,
    HandSpec,
};
use super::error::Fault;
use super::parser::{
    alternative_of, alternatives_of_terms, field_of, index_of, lemma_skip_white, lemma_trim_back,
    skip_white, slots_from, term_ranges, terms_scan, trim_back, trimmed_range,
};
use super::range::{
    combo_hands, combo_hands_upto, combo_of, hands_of, range_of, walked_between, walked_up, wanted,
    Combo,
};
use crate::cards::{
    card_at, deck_indices, rank_indices, rank_of_char, suit_indices, suit_of_char, Card, CardSet, Rank,
    Suit,
};
use crate::text::{first_of, is_white_space, lemma_first_from};

verus! {

broadcast use {
    Rank::lemma_at_index,
    Rank::lemma_index_at,
    Suit::lemma_at_index,
    Suit::lemma_index_at,
    Card::lemma_idx,
    Card::lemma_card_at,
};

/// A slot holding exactly one card of the deck.
pub open spec fn names_one_card(s: Set<int>) -> bool {
    exists|c: nat| c < 52 && s == #[trigger] single(c)
}

/// A slot the notation can write: a named card, a whole rank, a whole suit or
/// the whole deck.
pub open spec fn written_slot(s: Set<int>) -> bool {
    ||| s == deck_indices()
    ||| names_one_card(s)
    ||| exists|r: Rank| s == rank_indices(r)
    ||| exists|u: Suit| s == suit_indices(u)
}

/// No card is named twice among the slots.
pub open spec fn named_once(p: Seq<Set<int>>) -> bool {
    forall|j: int, k: int|
        #![trigger p[j], p[k]]
        0 <= j < k < p.len() && p[j] == p[k] ==> !names_one_card(p[j])
}

/// One alternative as a hand field reads it: `slots` written slots, no card
/// named twice.
pub open spec fn read_alternative(p: Seq<Set<int>>, slots: nat) -> bool {
    &&& p.len() == slots
    &&& slots >= 1
    &&& forall|k: int| 0 <= k < p.len() ==> written_slot(#[trigger] p[k])
    &&& named_once(p)
}

/// A term lies inside the text and, unless empty, starts on something other
/// than whitespace.
pub open spec fn term_fits(t: Seq<char>, r: (int, int)) -> bool {
    &&& 0 <= r.0 <= r.1 <= t.len()
    &&& r.0 < r.1 ==> !is_white_space(t[r.0])
}

/// A hand of two different cards of the deck, as card indices.
pub open spec fn two_cards(h: (nat, nat)) -> bool {
    h.0 < 52 && h.1 < 52 && h.0 != h.1
}

/// A named card is no rank, suit or deck.
proof fn lemma_one_card_shapes()
    ensures
        !names_one_card(deck_indices()),
        forall|r: Rank| !names_one_card(#[trigger] rank_indices(r)),
        forall|u: Suit| !names_one_card(#[trigger] suit_indices(u)),
{
    if names_one_card(deck_indices()) {
        let c = choose|c: nat| c < 52 && deck_indices() == single(c);
        assert(deck_indices().contains(0) && deck_indices().contains(1));
    }
    assert forall|r: Rank| !names_one_card(#[trigger] rank_indices(r)) by {
        if names_one_card(rank_indices(r)) {
            let c = choose|c: nat| c < 52 && rank_indices(r) == single(c);
            assert(rank_indices(r).contains((r.index() * 4) as int));
            assert(rank_indices(r).contains((r.index() * 4 + 1) as int));
        }
    }
    assert forall|u: Suit| !names_one_card(#[trigger] suit_indices(u)) by {
        if names_one_card(suit_indices(u)) {
            let c = choose|c: nat| c < 52 && suit_indices(u) == single(c);
            assert(suit_indices(u).contains(u.index() as int));
            assert(suit_indices(u).contains((u.index() + 4) as int));
        }
    }
}

/// A named card holds only itself.
proof fn lemma_one_card_member(s: Set<int>, x: int)
    requires
        names_one_card(s),
        s.contains(x),
    ensures
        s == single(x as nat),
        0 <= x < 52,
{
}

/// What the slot reader makes of `t[i..hi]` is written slots, naming no card
/// twice and none of `named`.
proof fn lemma_slots_written(t: Seq<char>, i: int, hi: int, named: Set<int>)
    requires
        slots_from(t, i, hi, named) is Ok,
    ensures
        ({
            let p = slots_from(t, i, hi, named)->Ok_0;
            &&& forall|k: int| 0 <= k < p.len() ==> written_slot(#[trigger] p[k])
            &&& named_once(p)
            &&& forall|k: int, x: int|
                0 <= k < p.len() && names_one_card(p[k]) && #[trigger] p[k].contains(x)
                    ==> !named.contains(x)
        }),
    decreases hi - i,
{
    lemma_one_card_shapes();
    if i < 0 || i >= hi {
    } else {
        let g = t[i];
        if is_white_space(g) {
            lemma_slots_written(t, i + 1, hi, named);
        } else if g == '*' {
            lemma_slots_written(t, i + 1, hi, named);
            let q = slots_from(t, i + 1, hi, named)->Ok_0;
            lemma_prepend_written(deck_indices(), q, named);
        } else if rank_of_char(g) is Some {
            let rank = rank_of_char(g)->0;
            if i + 1 < hi && suit_of_char(t[i + 1]) is Some {
                let suit = suit_of_char(t[i + 1])->0;
                let c = index_of(rank, suit);
                if !named.contains(c) {
                    lemma_slots_written(t, i + 2, hi, named.insert(c));
                    let q = slots_from(t, i + 2, hi, named.insert(c))->Ok_0;
                    let p = seq![single(c as nat)] + q;
                    assert(names_one_card(single(c as nat)));
                    assert forall|k: int| 0 <= k < p.len() implies written_slot(#[trigger] p[k]) by {
                        if k > 0 {
                            assert(p[k] == q[k - 1]);
                        }
                    }
                    assert forall|j: int, k: int|
                        #![trigger p[j], p[k]]
                        0 <= j < k < p.len() && p[j] == p[k] implies !names_one_card(p[j]) by {
                        assert(p[k] == q[k - 1]);
                        if j == 0 {
                            if names_one_card(p[j]) {
                                assert(q[k - 1].contains(c));
                            }
                        } else {
                            assert(p[j] == q[j - 1]);
                        }
                    }
                    assert forall|k: int, x: int|
                        0 <= k < p.len() && names_one_card(p[k]) && #[trigger] p[k].contains(x)
                            implies !named.contains(x) by {
                        if k > 0 {
                            assert(p[k] == q[k - 1]);
                            assert(q[k - 1].contains(x));
                        }
                    }
                }
            } else {
                lemma_slots_written(t, i + 1, hi, named);
                let q = slots_from(t, i + 1, hi, named)->Ok_0;
                lemma_prepend_written(rank_indices(rank), q, named);
            }
        } else if suit_of_char(g) is Some {
            lemma_slots_written(t, i + 1, hi, named);
            let q = slots_from(t, i + 1, hi, named)->Ok_0;
            lemma_prepend_written(suit_indices(suit_of_char(g)->0), q, named);
        }
    }
}

/// A written slot that names no card can go in front of slots that are all
/// written, naming no card twice and none of `named`.
proof fn lemma_prepend_written(x: Set<int>, q: Seq<Set<int>>, named: Set<int>)
    requires
        written_slot(x),
        !names_one_card(x),
        forall|k: int| 0 <= k < q.len() ==> written_slot(#[trigger] q[k]),
        named_once(q),
        forall|k: int, y: int|
            0 <= k < q.len() && names_one_card(q[k]) && #[trigger] q[k].contains(y) ==> !named.contains(y),
    ensures
        ({
            let p = seq![x] + q;
            &&& forall|k: int| 0 <= k < p.len() ==> written_slot(#[trigger] p[k])
            &&& named_once(p)
            &&& forall|k: int, y: int|
                0 <= k < p.len() && names_one_card(p[k]) && #[trigger] p[k].contains(y)
                    ==> !named.contains(y)
        }),
{
    let p = seq![x] + q;
    assert forall|k: int| 0 <= k < p.len() implies written_slot(#[trigger] p[k]) by {
        if k > 0 {
            assert(p[k] == q[k - 1]);
        }
    }
    assert forall|j: int, k: int|
        #![trigger p[j], p[k]]
        0 <= j < k < p.len() && p[j] == p[k] implies !names_one_card(p[j]) by {
        assert(p[k] == q[k - 1]);
        if j > 0 {
            assert(p[j] == q[j - 1]);
        }
    }
    assert forall|k: int, y: int|
        0 <= k < p.len() && names_one_card(p[k]) && #[trigger] p[k].contains(y) implies !named.contains(y) by {
        if k > 0 {
            assert(p[k] == q[k - 1]);
            assert(q[k - 1].contains(y));
        }
    }
}

/// Every hand a combo admits among its first `k` suit choices is two
/// different cards, and there is one among the first two choices already.
proof fn lemma_combo_hands_upto(c: Combo, k: nat)
    requires
        k <= 16,
    ensures
        forall|i: int|
            0 <= i < combo_hands_upto(c, k).len() ==> two_cards(#[trigger] combo_hands_upto(c, k)[i]),
        k >= 2 ==> combo_hands_upto(c, k).len() >= 1,
    decreases k,
{
    if k > 0 {
        let j = (k - 1) as nat;
        lemma_combo_hands_upto(c, j);
        let before = combo_hands_upto(c, j);
        let h = (c.high.index() * 4 + j / 4, c.low.index() * 4 + j % 4);
        if wanted(c, j / 4, j % 4) {
            assert(combo_hands_upto(c, k) == before + seq![h]);
            assert(c.high.index() < 13 && c.low.index() < 13);
            if c.high != c.low {
                assert(c.high.index() != c.low.index()) by {
                    if c.high.index() == c.low.index() {
                        assert(Rank::at(c.high.index()) == c.high);
                        assert(Rank::at(c.low.index()) == c.low);
                    }
                }
            }
            assert(two_cards(h));
            assert forall|i: int| 0 <= i < combo_hands_upto(c, k).len() implies two_cards(
                #[trigger] combo_hands_upto(c, k)[i],
            ) by {
                if i < before.len() {
                    assert(combo_hands_upto(c, k)[i] == before[i]);
                }
            }
        } else {
            assert(combo_hands_upto(c, k) =~= before);
        }
        if k == 2 {
            let first = combo_hands_upto(c, 1);
            assert(combo_hands_upto(c, 0).len() == 0);
            assert(wanted(c, 0, 0) || wanted(c, 0, 1));
            if !wanted(c, 0, 0) {
                assert(wanted(c, 1nat / 4, 1nat % 4));
            } else {
                assert(first.len() == 1);
            }
        }
    }
}

/// Every hand a list of combos admits is two different cards, and a
/// non-empty list admits some hand.
proof fn lemma_hands_of(cs: Seq<Combo>)
    ensures
        forall|i: int| 0 <= i < hands_of(cs).len() ==> two_cards(#[trigger] hands_of(cs)[i]),
        cs.len() >= 1 ==> hands_of(cs).len() >= 1,
    decreases cs.len(),
{
    if cs.len() > 0 {
        lemma_hands_of(cs.drop_last());
        lemma_combo_hands_upto(cs.last(), 16);
        let before = hands_of(cs.drop_last());
        let more = combo_hands(cs.last());
        assert(hands_of(cs) == before + more);
        assert forall|i: int| 0 <= i < hands_of(cs).len() implies two_cards(#[trigger] hands_of(cs)[i]) by {
            if i < before.len() {
                assert(hands_of(cs)[i] == before[i]);
            } else {
                assert(hands_of(cs)[i] == more[i - before.len()]);
            }
        }
    }
}

/// A term's alternatives, when it reads, are written slots.
proof fn lemma_alternative_read(t: Seq<char>, a: int, b: int, slots: nat)
    requires
        term_fits(t, (a, b)),
        alternative_of(t, a, b, slots, true) is Ok,
    ensures
        ({
            let w = alternative_of(t, a, b, slots, true)->Ok_0;
            &&& w.len() >= 1
            &&& forall|m: int| 0 <= m < w.len() ==> read_alternative(#[trigger] w[m], slots)
        }),
{
    let term = t.subrange(a, b);
    let w = alternative_of(t, a, b, slots, true)->Ok_0;
    if slots == 2 && range_of(term) is Some {
        let hands = range_of(term)->0->Ok_0;
        assert(exists|cs: Seq<Combo>| cs.len() >= 1 && hands == hands_of(cs)) by {
            if term.contains('%') {
            } else if first_of(term, '-') is Some {
                let m = first_of(term, '-')->0;
                let left = combo_of(term.take(m))->0->Ok_0;
                let right = combo_of(term.skip(m + 1))->0->Ok_0;
                let cs = walked_between(left, right)->Ok_0;
                assert(cs.len() >= 1 && hands == hands_of(cs));
            } else if term.len() > 0 && term.last() == '+' {
                let c = combo_of(term.drop_last())->0->Ok_0;
                let cs = walked_up(c);
                assert(cs.len() >= 1 && hands == hands_of(cs));
            } else {
                let c = combo_of(term)->0->Ok_0;
                assert(seq![c].len() >= 1 && hands == hands_of(seq![c]));
            }
        }
        let cs = choose|cs: Seq<Combo>| cs.len() >= 1 && hands == hands_of(cs);
        lemma_hands_of(cs);
        assert(w == combo_alternatives(hands));
        assert forall|m: int| 0 <= m < w.len() implies read_alternative(#[trigger] w[m], slots) by {
            let h = hands[m];
            assert(two_cards(h));
            assert(w[m] == seq![single(h.0), single(h.1)]);
            assert(names_one_card(single(h.0)) && names_one_card(single(h.1)));
            assert(single(h.0).contains(h.0 as int));
            assert(!single(h.1).contains(h.0 as int));
        }
    } else {
        let p = slots_from(t, a, b, Set::empty())->Ok_0;
        assert(w == seq![p]);
        lemma_slots_written(t, a, b, Set::empty());
        assert(a < b);
        assert(p.len() >= 1);
    }
}

/// The terms' alternatives, when they all read, are written slots, and there
/// is at least one when there is a term.
proof fn lemma_terms_read(t: Seq<char>, terms: Seq<(int, int)>, slots: nat)
    requires
        forall|k: int| 0 <= k < terms.len() ==> term_fits(t, #[trigger] terms[k]),
        alternatives_of_terms(t, terms, slots, true) is Ok,
    ensures
        ({
            let v = alternatives_of_terms(t, terms, slots, true)->Ok_0;
            &&& terms.len() >= 1 ==> v.len() >= 1
            &&& forall|m: int| 0 <= m < v.len() ==> read_alternative(#[trigger] v[m], slots)
        }),
    decreases terms.len(),
{
    if terms.len() > 0 {
        let front = terms.drop_last();
        assert forall|k: int| 0 <= k < front.len() implies term_fits(t, #[trigger] front[k]) by {
            assert(front[k] == terms[k]);
        }
        lemma_terms_read(t, front, slots);
        let last = terms.last();
        assert(term_fits(t, terms[terms.len() - 1]));
        lemma_alternative_read(t, last.0, last.1, slots);
        let v0 = alternatives_of_terms(t, front, slots, true)->Ok_0;
        let w = alternative_of(t, last.0, last.1, slots, true)->Ok_0;
        let v = alternatives_of_terms(t, terms, slots, true)->Ok_0;
        assert(v == v0 + w);
        assert forall|m: int| 0 <= m < v.len() implies read_alternative(#[trigger] v[m], slots) by {
            if m < v0.len() {
                assert(v[m] == v0[m]);
            } else {
                assert(v[m] == w[m - v0.len()]);
            }
        }
    }
}

/// A trimmed stretch of text fits as a term.
proof fn lemma_trimmed_fits(t: Seq<char>, lo: int, hi: int)
    requires
        0 <= lo <= hi <= t.len(),
    ensures
        term_fits(t, trimmed_range(t, lo, hi)),
{
    lemma_skip_white(t, lo, hi);
    let a = skip_white(t, lo, hi);
    lemma_trim_back(t, a, hi);
}

/// Every term the field splits into fits, and there is at least one.
proof fn lemma_terms_fit(t: Seq<char>, start: int, i: int)
    requires
        0 <= start <= i <= t.len(),
    ensures
        terms_scan(t, start, i).len() >= 1,
        forall|k: int|
            0 <= k < terms_scan(t, start, i).len() ==> term_fits(t, #[trigger] terms_scan(t, start, i)[k]),
    decreases t.len() - i,
{
    let s = terms_scan(t, start, i);
    if i >= t.len() {
        lemma_trimmed_fits(t, start, t.len() as int);
    } else if t[i] == ',' {
        lemma_trimmed_fits(t, start, i);
        lemma_terms_fit(t, i + 1, i + 1);
        let rest = terms_scan(t, i + 1, i + 1);
        assert(s == seq![trimmed_range(t, start, i)] + rest);
        assert forall|k: int| 0 <= k < s.len() implies term_fits(t, #[trigger] s[k]) by {
            if k > 0 {
                assert(s[k] == rest[k - 1]);
            }
        }
    } else {
        lemma_terms_fit(t, start, i + 1);
    }
}

/// What a hand field reads as, when it reads, is at least one alternative,
/// each of `slots` written slots naming no card twice.
pub proof fn lemma_field_read(t: Seq<char>, slots: nat)
    requires
        field_of(t, slots, true) is Ok,
    ensures
        field_of(t, slots, true)->Ok_0.len() >= 1,
        forall|m: int|
            0 <= m < field_of(t, slots, true)->Ok_0.len() ==> read_alternative(
                #[trigger] field_of(t, slots, true)->Ok_0[m],
                slots,
            ),
{
    lemma_terms_fit(t, 0, 0);
    lemma_terms_read(t, term_ranges(t), slots);
}

/// A character the canonical form writes: a space, a star, a rank or a suit.
pub open spec fn plain(c: char) -> bool {
    c == ' ' || c == '*' || rank_of_char(c) is Some || suit_of_char(c) is Some
}

/// Non-empty text of plain characters that neither starts nor ends with
/// whitespace.
pub open spec fn tidy(x: Seq<char>) -> bool {
    &&& x.len() >= 1
    &&& forall|i: int| 0 <= i < x.len() ==> plain(#[trigger] x[i])
    &&& !is_white_space(x[0])
    &&& !is_white_space(x.last())
}

/// A rank's and a suit's letter read back as themselves and as nothing else.
proof fn lemma_letters()
    ensures
        forall|r: Rank|
            #![trigger r.letter()]
            rank_of_char(r.letter()) == Some(r) && suit_of_char(r.letter()) is None
                && !is_white_space(r.letter()) && r.letter() != '*' && plain(r.letter()),
        forall|u: Suit|
            #![trigger u.letter()]
            suit_of_char(u.letter()) == Some(u) && rank_of_char(u.letter()) is None
                && !is_white_space(u.letter()) && u.letter() != '*' && plain(u.letter()),
{
    assert forall|r: Rank|
        #![trigger r.letter()]
        rank_of_char(r.letter()) == Some(r) && suit_of_char(r.letter()) is None && !is_white_space(
            r.letter(),
        ) && r.letter() != '*' && plain(r.letter()) by {
        match r {
            Rank::Two => {},
            Rank::Three => {},
            Rank::Four => {},
            Rank::Five => {},
            Rank::Six => {},
            Rank::Seven => {},
            Rank::Eight => {},
            Rank::Nine => {},
            Rank::Ten => {},
            Rank::Jack => {},
            Rank::Queen => {},
            Rank::King => {},
            Rank::Ace => {},
        }
    }
    assert forall|u: Suit|
        #![trigger u.letter()]
        suit_of_char(u.letter()) == Some(u) && rank_of_char(u.letter()) is None && !is_white_space(
            u.letter(),
        ) && u.letter() != '*' && plain(u.letter()) by {
        match u {
            Suit::Club => {},
            Suit::Diamond => {},
            Suit::Heart => {},
            Suit::Spade => {},
        }
    }
}

/// The deck, a rank and a suit are finite; a rank and a suit hold more than
/// one card, are not the deck, and are not each other.
proof fn lemma_shapes_apart()
    ensures
        deck_indices().finite(),
        forall|r: Rank|
            #![trigger rank_indices(r)]
            rank_indices(r).finite() && rank_indices(r).len() != 1 && rank_indices(r) != deck_indices(),
        forall|u: Suit|
            #![trigger suit_indices(u)]
            suit_indices(u).finite() && suit_indices(u).len() != 1 && suit_indices(u) != deck_indices(),
        forall|r: Rank, u: Suit| #![trigger rank_indices(r), suit_indices(u)] rank_indices(r) != suit_indices(u),
{
    lemma_int_range(0, 52);
    assert(deck_indices() =~= set_int_range(0, 52));
    assert forall|r: Rank|
        #![trigger rank_indices(r)]
        rank_indices(r).finite() && rank_indices(r).len() != 1 && rank_indices(r) != deck_indices() by {
        assert(rank_indices(r).subset_of(deck_indices()));
        lemma_set_subset_finite(deck_indices(), rank_indices(r));
        let x = (r.index() * 4) as int;
        assert(rank_indices(r).contains(x));
        assert(rank_indices(r).contains(x + 1));
        if rank_indices(r).len() == 1 {
            lemma_singleton(rank_indices(r), x);
            assert(!Set::<int>::empty().insert(x).contains(x + 1));
        }
        let y: int = if r.index() == 0 {
            4
        } else {
            0
        };
        assert(deck_indices().contains(y) && !rank_indices(r).contains(y));
    }
    assert forall|u: Suit|
        #![trigger suit_indices(u)]
        suit_indices(u).finite() && suit_indices(u).len() != 1 && suit_indices(u) != deck_indices() by {
        assert(suit_indices(u).subset_of(deck_indices()));
        lemma_set_subset_finite(deck_indices(), suit_indices(u));
        let x = u.index() as int;
        assert(suit_indices(u).contains(x));
        assert(suit_indices(u).contains(x + 4));
        if suit_indices(u).len() == 1 {
            lemma_singleton(suit_indices(u), x);
            assert(!Set::<int>::empty().insert(x).contains(x + 4));
        }
        let y: int = if u.index() == 0 {
            1
        } else {
            0
        };
        assert(deck_indices().contains(y) && !suit_indices(u).contains(y));
    }
    assert forall|r: Rank, u: Suit| #![trigger rank_indices(r), suit_indices(u)] rank_indices(r) != suit_indices(u) by {
        let k: int = if u.index() == 0 {
            1
        } else {
            0
        };
        let x = r.index() * 4 + k;
        assert(rank_indices(r).contains(x));
        assert(!suit_indices(u).contains(x));
    }
}

/// How a written slot is written.
proof fn lemma_slot_text(s: CardSet)
    requires
        written_slot(s@),
    ensures
        tidy(slot_text(s)),
        slot_text(s).len() <= 2,
        s@ == deck_indices() ==> slot_text(s) == seq!['*'],
        forall|c: nat|
            c < 52 && s@ == #[trigger] single(c) ==> slot_text(s) == seq![
                Rank::at(c / 4).letter(),
                Suit::at(c % 4).letter(),
            ],
        forall|r: Rank| s@ == #[trigger] rank_indices(r) ==> slot_text(s) == seq![r.letter()],
        forall|u: Suit| s@ == #[trigger] suit_indices(u) ==> slot_text(s) == seq![u.letter()],
{
    lemma_letters();
    lemma_shapes_apart();
    lemma_one_card_shapes();
    if s@ == deck_indices() {
        assert(plain('*'));
    } else if names_one_card(s@) {
        let c = choose|c: nat| c < 52 && s@ == single(c);
        assert(s@.contains(c as int));
        let i = choose|i: int| s@.contains(i);
        assert(i == c);
        let card = card_at(c);
        Card::lemma_card_at(c);
        assert(s@ != deck_indices());
        assert(s@.len() == 1);
        assert(Rank::at(card.rank_of().index()) == card.rank_of());
        assert(Suit::at(card.suit_of().index()) == card.suit_of());
        assert(slot_text(s) == seq![Rank::at(c / 4).letter(), Suit::at(c % 4).letter()]);
        assert forall|d: nat|
            d < 52 && s@ == #[trigger] single(d) implies slot_text(s) == seq![
                Rank::at(d / 4).letter(),
                Suit::at(d % 4).letter(),
            ] by {
            assert(single(d).contains(d as int));
        }
        let x = slot_text(s);
        assert(plain(x[0]) && plain(x[1]));
    } else if exists|r: Rank| s@ == rank_indices(r) {
        let r = choose|r: Rank| s@ == rank_indices(r);
        assert(slot_text(s) == seq![r.letter()]);
        assert forall|q: Rank| s@ == #[trigger] rank_indices(q) implies slot_text(s) == seq![q.letter()] by {
            assert(rank_indices(q).contains((q.index() * 4) as int));
            assert(Rank::at(q.index()) == q);
            assert(Rank::at(r.index()) == r);
        }
    } else {
        let u = choose|u: Suit| s@ == suit_indices(u);
        assert(slot_text(s) == seq![u.letter()]);
        assert forall|q: Suit| s@ == #[trigger] suit_indices(q) implies slot_text(s) == seq![q.letter()] by {
            assert(suit_indices(q).contains(q.index() as int));
            assert(Suit::at(q.index()) == q);
            assert(Suit::at(u.index()) == u);
        }
    }
}

/// An alternative of written slots is written tidily.
proof fn lemma_alt_tidy(a: Seq<CardSet>)
    requires
        a.len() >= 1,
        forall|k: int| 0 <= k < a.len() ==> written_slot((#[trigger] a[k])@),
    ensures
        tidy(alternative_text(a)),
    decreases a.len(),
{
    if a.len() == 1 {
        lemma_slot_text(a[0]);
    } else {
        let front = a.drop_last();
        assert forall|k: int| 0 <= k < front.len() implies written_slot((#[trigger] front[k])@) by {
            assert(front[k] == a[k]);
        }
        lemma_alt_tidy(front);
        lemma_slot_text(a.last());
        let x = alternative_text(front);
        let y = slot_text(a.last());
        let t = x + seq![' '] + y;
        assert(alternative_text(a) == t);
        assert forall|i: int| 0 <= i < t.len() implies plain(#[trigger] t[i]) by {
            if i < x.len() {
                assert(t[i] == x[i]);
            } else if i > x.len() {
                assert(t[i] == y[i - x.len() - 1]);
            }
        }
        assert(t[0] == x[0]);
        assert(t.last() == y.last());
    }
}

/// An alternative's text, read from the front.
proof fn lemma_alt_front(a: Seq<CardSet>)
    requires
        a.len() >= 2,
    ensures
        alternative_text(a) == slot_text(a[0]) + seq![' '] + alternative_text(a.drop_first()),
    decreases a.len(),
{
    if a.len() == 2 {
        assert(alternative_text(a.drop_last()) == slot_text(a[0]));
        assert(alternative_text(a.drop_first()) == slot_text(a[1]));
    } else {
        lemma_alt_front(a.drop_last());
        assert(a.drop_last().drop_first() =~= a.drop_first().drop_last());
        assert(alternative_text(a) =~= slot_text(a[0]) + seq![' '] + alternative_text(a.drop_first()));
    }
}

/// A field's text, read from the front.
proof fn lemma_spec_front(v: Seq<Seq<CardSet>>)
    requires
        v.len() >= 2,
    ensures
        spec_text(v) == alternative_text(v[0]) + seq![',', ' '] + spec_text(v.drop_first()),
    decreases v.len(),
{
    if v.len() == 2 {
        assert(spec_text(v.drop_last()) == alternative_text(v[0]));
        assert(spec_text(v.drop_first()) == alternative_text(v[1]));
    } else {
        lemma_spec_front(v.drop_last());
        assert(v.drop_last().drop_first() =~= v.drop_first().drop_last());
        assert(spec_text(v) =~= alternative_text(v[0]) + seq![',', ' '] + spec_text(v.drop_first()));
    }
}

/// The slot reader gives back the slots of an alternative's text.
proof fn lemma_read_rendered(t: Seq<char>, lo: int, hi: int, a: Seq<CardSet>, named: Set<int>)
    requires
        0 <= lo <= hi <= t.len(),
        t.subrange(lo, hi) == alternative_text(a),
        a.len() >= 1,
        forall|k: int| 0 <= k < a.len() ==> written_slot((#[trigger] a[k])@),
        named_once(slots_view(a)),
        forall|k: int, x: int|
            0 <= k < a.len() && names_one_card(a[k]@) && #[trigger] a[k]@.contains(x) ==> !named.contains(x),
    ensures
        slots_from(t, lo, hi, named) == Ok::<Seq<Set<int>>, Fault>(slots_view(a)),
    decreases a.len(),
{
    lemma_letters();
    lemma_shapes_apart();
    lemma_one_card_shapes();
    lemma_slot_text(a[0]);
    let x = slot_text(a[0]);
    let w = x.len() as int;
    let rest = a.drop_first();
    let whole = alternative_text(a);
    if a.len() == 1 {
        assert(whole == x);
    } else {
        lemma_alt_front(a);
        assert(whole == x + seq![' '] + alternative_text(rest));
    }
    assert forall|m: int| 0 <= m < w implies t[lo + m] == #[trigger] x[m] by {
        assert(t.subrange(lo, hi)[m] == t[lo + m]);
        assert(whole[m] == x[m]);
    }
    assert(lo + w <= hi);
    let v = slots_view(a);
    assert(v.len() == a.len());
    assert(v[0] == a[0]@);
    // What follows the first slot: nothing, or a space and then the rest.
    let ghost next_named: Set<int> = if names_one_card(a[0]@) {
        let c = choose|c: nat| c < 52 && a[0]@ == single(c);
        named.insert(c as int)
    } else {
        named
    };
    if a.len() == 1 {
        assert(lo + w == hi);
        assert(slots_from(t, lo + w, hi, next_named) == Ok::<Seq<Set<int>>, Fault>(seq![]));
        assert(v =~= seq![a[0]@]);
    } else {
        assert(t[lo + w] == ' ') by {
            assert(t.subrange(lo, hi)[w] == t[lo + w]);
        }
        assert(t.subrange(lo + w + 1, hi) =~= alternative_text(rest)) by {
            assert forall|m: int| 0 <= m < hi - (lo + w + 1) implies t.subrange(lo + w + 1, hi)[m]
                == alternative_text(rest)[m] by {
                assert(t.subrange(lo, hi)[w + 1 + m] == t[lo + w + 1 + m]);
            }
        }
        assert forall|k: int| 0 <= k < rest.len() implies written_slot((#[trigger] rest[k])@) by {
            assert(rest[k] == a[k + 1]);
        }
        let rv = slots_view(rest);
        assert(rv =~= v.drop_first());
        assert forall|j: int, k: int|
            #![trigger rv[j], rv[k]]
            0 <= j < k < rv.len() && rv[j] == rv[k] implies !names_one_card(rv[j]) by {
            assert(rv[j] == v[j + 1] && rv[k] == v[k + 1]);
        }
        assert forall|k: int, y: int|
            0 <= k < rest.len() && names_one_card(rest[k]@) && #[trigger] rest[k]@.contains(y)
                implies !next_named.contains(y) by {
            assert(rest[k] == a[k + 1]);
            assert(a[k + 1]@.contains(y));
            if names_one_card(a[0]@) {
                let c = choose|c: nat| c < 52 && a[0]@ == single(c);
                if y == c {
                    lemma_one_card_member(a[k + 1]@, y);
                    assert(v[0] == v[k + 1]);
                }
            }
        }
        lemma_read_rendered(t, lo + w + 1, hi, rest, next_named);
        assert(slots_from(t, lo + w, hi, next_named) == slots_from(t, lo + w + 1, hi, next_named));
        assert(v =~= seq![a[0]@] + rv);
    }
    if a[0]@ == deck_indices() {
        assert(t[lo] == '*');
    } else if names_one_card(a[0]@) {
        let c = choose|c: nat| c < 52 && a[0]@ == single(c);
        let rank = Rank::at(c / 4);
        let suit = Suit::at(c % 4);
        assert(t[lo] == rank.letter() && t[lo + 1] == suit.letter());
        assert(index_of(rank, suit) == c);
        assert(a[0]@.contains(c as int));
        assert(!named.contains(c as int));
    } else if exists|r: Rank| a[0]@ == rank_indices(r) {
        let r = choose|r: Rank| a[0]@ == rank_indices(r);
        assert(t[lo] == r.letter());
        if lo + 1 < hi {
            assert(t[lo + 1] == ' ');
        }
    } else {
        let u = choose|u: Suit| a[0]@ == suit_indices(u);
        assert(t[lo] == u.letter());
    }
}

/// A term holding an alternative's text reads as that alternative.
proof fn lemma_alt_render(t: Seq<char>, a: int, b: int, row: Seq<CardSet>, slots: nat)
    requires
        0 <= a <= b <= t.len(),
        t.subrange(a, b) == alternative_text(row),
        row.len() == slots,
        slots >= 1,
        forall|k: int| 0 <= k < row.len() ==> written_slot((#[trigger] row[k])@),
        named_once(slots_view(row)),
    ensures
        alternative_of(t, a, b, slots, true) == Ok::<Seq<Seq<Set<int>>>, Fault>(seq![slots_view(row)]),
{
    lemma_alt_tidy(row);
    let term = t.subrange(a, b);
    assert(!plain('%') && !plain('+') && !plain('-'));
    assert(!term.contains('%') && !term.contains('+') && !term.contains('-')) by {
        if term.contains('%') {
            let i = choose|i: int| 0 <= i < term.len() && term[i] == '%';
            assert(plain(term[i]));
        }
        if term.contains('+') {
            let i = choose|i: int| 0 <= i < term.len() && term[i] == '+';
            assert(plain(term[i]));
        }
        if term.contains('-') {
            let i = choose|i: int| 0 <= i < term.len() && term[i] == '-';
            assert(plain(term[i]));
        }
    }
    if slots == 2 {
        lemma_first_from(term, '-', 0);
        if let Some(m) = first_of(term, '-') {
            assert(term[m] == '-');
        }
        assert(term.last() != '+') by {
            assert(plain(term[term.len() - 1]));
        }
        lemma_alt_front(row);
        lemma_slot_text(row[0]);
        lemma_slot_text(row[1]);
        assert(alternative_text(row.drop_first()) == slot_text(row[1]));
        let x = slot_text(row[0]);
        if term.len() <= 3 {
            assert(x.len() == 1);
            assert(term[1] == ' ');
        }
        assert(combo_of(term) is None);
        assert(range_of(term) is None);
    }
    assert forall|k: int, x: int|
        0 <= k < row.len() && names_one_card(row[k]@) && #[trigger] row[k]@.contains(x) implies !Set::<
        int,
    >::empty().contains(x) by {}
    lemma_read_rendered(t, a, b, row, Set::empty());
}

/// The terms of `t` from `s` are where the alternatives of `rows` were
/// written, when `t` from `s` is a space (if `lead`) and then their text.
proof fn lemma_terms_render(t: Seq<char>, s: int, lead: bool, rows: Seq<Seq<CardSet>>)
    requires
        0 <= s <= t.len(),
        t.subrange(s, t.len() as int) == (if lead {
            seq![' ']
        } else {
            Seq::<char>::empty()
        }) + spec_text(rows),
        rows.len() >= 1,
        forall|k: int| 0 <= k < rows.len() ==> tidy(#[trigger] alternative_text(rows[k])),
    ensures
        terms_scan(t, s, s).len() == rows.len(),
        forall|k: int|
            0 <= k < rows.len() ==> {
                let r = #[trigger] terms_scan(t, s, s)[k];
                &&& 0 <= r.0 <= r.1 <= t.len()
                &&& t.subrange(r.0, r.1) == alternative_text(rows[k])
            },
    decreases rows.len(),
{
    let pre = if lead {
        seq![' ']
    } else {
        Seq::<char>::empty()
    };
    let x = alternative_text(rows[0]);
    assert(tidy(x));
    let p = s + pre.len();
    let q = p + x.len();
    let whole = pre + spec_text(rows);
    if rows.len() == 1 {
        assert(spec_text(rows) == x);
    } else {
        lemma_spec_front(rows);
    }
    assert(whole.len() == t.len() - s);
    assert forall|m: int| 0 <= m < whole.len() implies t[s + m] == #[trigger] whole[m] by {
        assert(t.subrange(s, t.len() as int)[m] == t[s + m]);
    }
    assert forall|m: int| 0 <= m < x.len() implies t[p + m] == #[trigger] x[m] by {
        assert(whole[pre.len() + m] == x[m]);
        assert(t[s + pre.len() + m] == whole[pre.len() + m]);
    }
    assert(t.subrange(p, q) =~= x);
    // Nothing up to the end of the first alternative is a comma.
    assert forall|m: int| s <= m < q implies t[m] != ',' by {
        if m < p {
            assert(t[m] == whole[0]);
        } else {
            assert(t[p + (m - p)] == x[m - p]);
            assert(plain(x[m - p]));
        }
    }
    lemma_scan_skip(t, s, s, q);
    // Trimming finds the alternative exactly.
    assert(!is_white_space(t[p])) by {
        assert(t[p + 0] == x[0]);
    }
    assert(!is_white_space(t[q - 1])) by {
        assert(t[p + (x.len() - 1)] == x[x.len() - 1]);
    }
    if lead {
        assert(t[s] == whole[0]);
        assert(skip_white(t, s + 1, q) == p);
    }
    if rows.len() == 1 {
        assert(q == t.len());
        assert(skip_white(t, s, q) == p);
        assert(trim_back(t, p, q) == q);
        assert(terms_scan(t, s, q) == seq![trimmed_range(t, s, q)]);
    } else {
        let rest = rows.drop_first();
        assert(t[q] == ',') by {
            assert(whole[(pre.len() + x.len()) as int] == ',');
        }
        assert(t.subrange(q + 1, t.len() as int) =~= seq![' '] + spec_text(rest)) by {
            assert forall|m: int| 0 <= m < t.len() - (q + 1) implies t.subrange(q + 1, t.len() as int)[m]
                == (seq![' '] + spec_text(rest))[m] by {
                assert(t[s + (pre.len() + x.len() + 1 + m)] == whole[pre.len() + x.len() + 1 + m]);
            }
        }
        assert forall|k: int| 0 <= k < rest.len() implies tidy(#[trigger] alternative_text(rest[k])) by {
            assert(rest[k] == rows[k + 1]);
        }
        lemma_terms_render(t, q + 1, true, rest);
        assert(skip_white(t, s, q) == p);
        assert(trim_back(t, p, q) == q);
        let more = terms_scan(t, q + 1, q + 1);
        assert(terms_scan(t, s, q) == seq![trimmed_range(t, s, q)] + more);
        assert forall|k: int|
            0 <= k < rows.len() implies {
                let r = #[trigger] terms_scan(t, s, s)[k];
                &&& 0 <= r.0 <= r.1 <= t.len()
                &&& t.subrange(r.0, r.1) == alternative_text(rows[k])
            } by {
            if k > 0 {
                assert(terms_scan(t, s, s)[k] == more[k - 1]);
                assert(rest[k - 1] == rows[k]);
            }
        }
    }
}

/// Scanning past characters that are not commas changes nothing.
proof fn lemma_scan_skip(t: Seq<char>, start: int, i: int, j: int)
    requires
        0 <= start <= i <= j <= t.len(),
        forall|m: int| i <= m < j ==> t[m] != ',',
    ensures
        terms_scan(t, start, i) == terms_scan(t, start, j),
    decreases j - i,
{
    if i < j {
        lemma_scan_skip(t, start, i + 1, j);
    }
}

/// Terms that each read as one alternative read as all of them, in order.
proof fn lemma_all_terms(t: Seq<char>, terms: Seq<(int, int)>, rows: Seq<Seq<CardSet>>, slots: nat)
    requires
        terms.len() == rows.len(),
        forall|k: int|
            0 <= k < terms.len() ==> alternative_of(t, (#[trigger] terms[k]).0, terms[k].1, slots, true)
                == Ok::<Seq<Seq<Set<int>>>, Fault>(seq![slots_view(rows[k])]),
    ensures
        alternatives_of_terms(t, terms, slots, true) == Ok::<Seq<Seq<Set<int>>>, Fault>(
            rows.map_values(|a: Seq<CardSet>| slots_view(a)),
        ),
    decreases terms.len(),
{
    if terms.len() == 0 {
        assert(rows.map_values(|a: Seq<CardSet>| slots_view(a)) =~= Seq::<Seq<Set<int>>>::empty());
    } else {
        let front = terms.drop_last();
        let rfront = rows.drop_last();
        assert forall|k: int|
            0 <= k < front.len() implies alternative_of(t, (#[trigger] front[k]).0, front[k].1, slots, true)
                == Ok::<Seq<Seq<Set<int>>>, Fault>(seq![slots_view(rfront[k])]) by {
            assert(front[k] == terms[k]);
            assert(rfront[k] == rows[k]);
        }
        lemma_all_terms(t, front, rfront, slots);
        let last = terms.last();
        assert(last == terms[terms.len() - 1]);
        assert(rows.map_values(|a: Seq<CardSet>| slots_view(a)) =~= rfront.map_values(
            |a: Seq<CardSet>| slots_view(a),
        ) + seq![slots_view(rows.last())]);
    }
}

/// The canonical form of any hand field the parser accepts reads back, for
/// the same game, as exactly what it was read from.
pub proof fn lemma_canonical_round_trip(text: Seq<char>, slots: nat, spec: HandSpec)
    requires
        field_of(text, slots, true) == Ok::<Seq<Seq<Set<int>>>, Fault>(spec@),
    ensures
        field_of(spec_text(spec.rows()), slots, true) == Ok::<Seq<Seq<Set<int>>>, Fault>(spec@),
{
    lemma_field_read(text, slots);
    let v = spec@;
    let rows = spec.rows();
    assert(rows.len() == v.len());
    assert forall|k: int| 0 <= k < rows.len() implies #[trigger] slots_view(rows[k]) == v[k] by {}
    assert forall|k: int| 0 <= k < rows.len() implies tidy(#[trigger] alternative_text(rows[k])) by {
        assert(read_alternative(v[k], slots));
        assert forall|m: int| 0 <= m < rows[k].len() implies written_slot((#[trigger] rows[k][m])@) by {
            assert(slots_view(rows[k])[m] == rows[k][m]@);
        }
        lemma_alt_tidy(rows[k]);
    }
    let t = spec_text(rows);
    assert(t.subrange(0, t.len() as int) =~= Seq::<char>::empty() + t);
    lemma_terms_render(t, 0, false, rows);
    let terms = term_ranges(t);
    assert forall|k: int|
        0 <= k < terms.len() implies alternative_of(t, (#[trigger] terms[k]).0, terms[k].1, slots, true)
            == Ok::<Seq<Seq<Set<int>>>, Fault>(seq![slots_view(rows[k])]) by {
        assert(read_alternative(v[k], slots));
        assert(slots_view(rows[k]) == v[k]);
        assert forall|m: int| 0 <= m < rows[k].len() implies written_slot((#[trigger] rows[k][m])@) by {
            assert(slots_view(rows[k])[m] == rows[k][m]@);
        }
        lemma_alt_render(t, terms[k].0, terms[k].1, rows[k], slots);
    }
    lemma_all_terms(t, terms, rows, slots);
    assert(rows.map_values(|a: Seq<CardSet>| slots_view(a)) =~= v);
}

/// A card named outright reads as the slot that narrowing its rank to its
/// suit gives: the one card of that rank in that suit.
pub proof fn lemma_naming_a_card(rank: Rank, suit: Suit)
    ensures
        rank_indices(rank).intersect(suit_indices(suit)) == single(index_of(rank, suit) as nat),
        field_of(seq![rank.letter(), suit.letter()], 1, true) == Ok::<Seq<Seq<Set<int>>>, Fault>(
            seq![seq![rank_indices(rank).intersect(suit_indices(suit))]],
        ),
{
    crate::cards::lemma_rank_meets_suit(rank, suit);
    lemma_letters();
    let t = seq![rank.letter(), suit.letter()];
    let c = index_of(rank, suit);
    assert(terms_scan(t, 0, 2) == seq![trimmed_range(t, 0, 2)]);
    assert(t[0] != ',' && t[1] != ',') by {
        assert(plain(t[0]) && plain(t[1]));
    }
    lemma_scan_skip(t, 0, 0, 2);
    assert(skip_white(t, 0, 2) == 0);
    assert(trim_back(t, 0, 2) == 2);
    assert(term_ranges(t) == seq![(0int, 2int)]);
    assert(t.subrange(0, 2) =~= t);
    assert(!t.contains('+') && !t.contains('-') && !t.contains('%')) by {
        assert(plain(t[0]) && plain(t[1]));
    }
    assert(slots_from(t, 2, 2, Set::empty().insert(c)) == Ok::<Seq<Set<int>>, Fault>(seq![]));
    assert(slots_from(t, 0, 2, Set::empty()) == Ok::<Seq<Set<int>>, Fault>(seq![single(c as nat)]));
    assert(alternative_of(t, 0, 2, 1, true) == Ok::<Seq<Seq<Set<int>>>, Fault>(seq![seq![single(c as nat)]]));
    assert(seq![(0int, 2int)].drop_last() =~= Seq::<(int, int)>::empty());
    assert(seq![(0int, 2int)].last() == (0int, 2int));
    assert(Seq::<Seq<Set<int>>>::empty() + seq![seq![single(c as nat)]] =~= seq![seq![single(c as nat)]]);
    let one = seq![(0int, 2int)];
    assert(alternatives_of_terms(t, one.drop_last(), 1, true) == Ok::<Seq<Seq<Set<int>>>, Fault>(seq![]));
    assert(alternatives_of_terms(t, one, 1, true) == Ok::<Seq<Seq<Set<int>>>, Fault>(
        seq![seq![single(c as nat)]],
    ));
    assert(field_of(t, 1, true) == alternatives_of_terms(t, one, 1, true));
    assert(single(c as nat) == rank_indices(rank).intersect(suit_indices(suit)));
}

} // verus!
