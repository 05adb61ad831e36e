//! Reading hand, board and dead-card fields.

use vstd::prelude::*;

use super::error::{Fault, FaultKind, NotationError, NotationErrorKind};
use super::hand_spec::{combo_alternatives, single, slots_view, HandSpec};
use super::range::{parse_range, range_of};
use crate::cards::{
    deck_indices, rank_indices, rank_of_char, suit_indices, suit_of_char, Card, CardSet, Rank,
    Suit,
};
use crate::text::{
    byte_len, byte_offset, char_byte_len, char_width, chars_of, first_of, has_char, is_white_space,
    is_whitespace, lemma_byte_offset_mono, lemma_byte_offset_step, lemma_first_from,
};

verus! {

broadcast use {Card::lemma_idx, Card::lemma_card_at};

/// `offs` holds the byte position of every character of `t`, and of its end.
pub open spec fn offsets_of(t: Seq<char>, offs: Seq<usize>) -> bool {
    &&& offs.len() == t.len() + 1
    &&& forall|i: int| 0 <= i <= t.len() ==> #[trigger] offs[i] == byte_offset(t, i)
}

/// The bytes `t[a..b]` takes.
pub open spec fn span(t: Seq<char>, a: int, b: int) -> nat {
    (byte_offset(t, b) - byte_offset(t, a)) as nat
}

/// A fault of `kind` at the characters `t[a..b]`.
pub open spec fn fault_at(t: Seq<char>, kind: FaultKind, a: int, b: int) -> Fault {
    Fault { kind, offset: byte_offset(t, a), len: span(t, a, b) }
}

/// A result with `x` put in front of what it holds.
pub open spec fn prepend(x: Set<int>, r: Result<Seq<Set<int>>, Fault>) -> Result<Seq<Set<int>>, Fault> {
    match r {
        Ok(v) => Ok(seq![x] + v),
        Err(e) => Err(e),
    }
}

/// A result with `acc` put in front of what it holds.
pub open spec fn glue(acc: Seq<Set<int>>, r: Result<Seq<Set<int>>, Fault>) -> Result<Seq<Set<int>>, Fault> {
    match r {
        Ok(v) => Ok(acc + v),
        Err(e) => Err(e),
    }
}

/// The card index of `rank` in `suit`.
pub open spec fn index_of(rank: Rank, suit: Suit) -> int {
    (rank.index() * 4 + suit.index()) as int
}

/// Reads `t[i..hi]` into one mask per slot, with `named` the cards already
/// named in this alternative.
///
/// A rank takes the suit that *immediately* follows it and nothing else
/// binds, so `2c` is one slot and `2 c` is two. `*` never binds, which is
/// what makes `AA**` four slots.
pub open spec fn slots_from(t: Seq<char>, i: int, hi: int, named: Set<int>) -> Result<
    Seq<Set<int>>,
    Fault,
>
    decreases hi - i,
{
    if i < 0 || i >= hi {
        Ok(seq![])
    } else {
        let g = t[i];
        if is_white_space(g) {
            slots_from(t, i + 1, hi, named)
        } else if g == '*' {
            prepend(deck_indices(), slots_from(t, i + 1, hi, named))
        } else if rank_of_char(g) is Some {
            let rank = rank_of_char(g)->0;
            if i + 1 < hi && suit_of_char(t[i + 1]) is Some {
                let suit = suit_of_char(t[i + 1])->0;
                let c = index_of(rank, suit);
                if named.contains(c) {
                    Err(
                        Fault {
                            kind: FaultKind::DuplicateCard(seq![rank.letter(), suit.letter()]),
                            offset: byte_offset(t, i),
                            len: char_byte_len(g) + char_byte_len(t[i + 1]),
                        },
                    )
                } else {
                    prepend(single(c as nat), slots_from(t, i + 2, hi, named.insert(c)))
                }
            } else {
                prepend(rank_indices(rank), slots_from(t, i + 1, hi, named))
            }
        } else if suit_of_char(g) is Some {
            prepend(suit_indices(suit_of_char(g)->0), slots_from(t, i + 1, hi, named))
        } else {
            Err(Fault { kind: FaultKind::UnknownGlyph(g), offset: byte_offset(t, i), len: char_byte_len(g) })
        }
    }
}

/// The slots a result holds, read through their views.
pub open spec fn slots_outcome(r: Result<Vec<CardSet>, NotationError>) -> Result<Seq<Set<int>>, Fault> {
    match r {
        Ok(v) => Ok(slots_view(v@)),
        Err(e) => Err(e@),
    }
}

/// The byte position of every character of `t`, and of its end.
fn byte_offsets(t: &Vec<char>) -> (r: Vec<usize>)
    requires
        byte_len(t@) <= usize::MAX,
    ensures
        offsets_of(t@, r@),
{
    let mut offs: Vec<usize> = Vec::new();
    offs.push(0);
    assert(t@.take(0) =~= Seq::<char>::empty());
    assert(byte_offset(t@, 0) == 0) by {
        assert(vstd::utf8::encode_utf8(Seq::<char>::empty()) =~= Seq::<u8>::empty());
    }
    let mut i: usize = 0;
    while i < t.len()
        invariant
            0 <= i <= t.len(),
            byte_len(t@) <= usize::MAX,
            offs.len() == i + 1,
            forall|j: int| 0 <= j <= i ==> #[trigger] offs@[j] == byte_offset(t@, j),
        decreases t.len() - i,
    {
        proof {
            lemma_byte_offset_step(t@, i as int);
            lemma_byte_offset_mono(t@, i + 1, t.len() as int);
        }
        let next = offs[i] + char_width(t[i]);
        offs.push(next);
        i = i + 1;
    }
    offs
}

/// Reads `t[lo..hi]` into one mask per slot.
#[verifier::rlimit(60)]
fn parse_slots(t: &Vec<char>, offs: &Vec<usize>, lo: usize, hi: usize) -> (r: Result<
    Vec<CardSet>,
    NotationError,
>)
    requires
        lo <= hi <= t.len(),
        offsets_of(t@, offs@),
    ensures
        slots_outcome(r) == slots_from(t@, lo as int, hi as int, Set::empty()),
{
    let mut slots: Vec<CardSet> = Vec::new();
    let mut named = CardSet::EMPTY();
    let mut i: usize = lo;
    assert(slots_from(t@, lo as int, hi as int, Set::empty()) == glue(
        slots_view(slots@),
        slots_from(t@, i as int, hi as int, named@),
    )) by {
        assert(slots_view(slots@) =~= Seq::<Set<int>>::empty());
        match slots_from(t@, lo as int, hi as int, Set::empty()) {
            Ok(v) => assert(Seq::<Set<int>>::empty() + v =~= v),
            Err(_) => {},
        }
    }
    while i < hi
        invariant
            lo <= i <= hi <= t.len(),
            offsets_of(t@, offs@),
            slots_from(t@, lo as int, hi as int, Set::empty()) == glue(
                slots_view(slots@),
                slots_from(t@, i as int, hi as int, named@),
            ),
        decreases hi - i,
    {
        let glyph = t[i];
        if is_whitespace(glyph) {
            i = i + 1;
            continue;
        }
        if glyph == '*' {
            let ghost before = slots@;
            slots.push(CardSet::FULL_DECK());
            proof {
                assert(slots_view(slots@) =~= slots_view(before).push(deck_indices()));
                match slots_from(t@, i + 1, hi as int, named@) {
                    Ok(v) => assert(slots_view(before) + (seq![deck_indices()] + v) =~= slots_view(
                        slots@,
                    ) + v),
                    Err(_) => {},
                }
            }
            i = i + 1;
            continue;
        }
        if let Ok(rank) = Rank::from_char(glyph) {
            // A suit binds only when it is the very next character.
            if i + 1 < hi {
                if let Ok(suit) = Suit::from_char(t[i + 1]) {
                    let card = Card::new(suit, rank);
                    assert(card.idx() == index_of(rank, suit));
                    if named.contains(card) {
                        let name = card.to_string();
                        assert(name@ =~= seq![rank.letter(), suit.letter()]);
                        proof {
                            lemma_byte_offset_step(t@, i as int);
                            lemma_byte_offset_mono(t@, i + 1, t.len() as int);
                        }
                        return Err(
                            NotationError::new(
                                NotationErrorKind::DuplicateCard(name),
                                offs[i],
                                char_width(glyph) + char_width(t[i + 1]),
                            ),
                        );
                    }
                    let ghost before = slots@;
                    let one = [card];
                    assert(one@ =~= seq![card]);
                    let slot = CardSet::from_cards(&one);
                    proof {
                        assert(seq![card].map_values(|c: Card| c.idx() as int) =~= seq![card.idx() as int]);
                        assert(seq![card.idx() as int][0] == card.idx() as int);
                        assert(seq![card.idx() as int].to_set() =~= single(card.idx()));
                    }
                    named.insert(card);
                    slots.push(slot);
                    proof {
                        assert(slots_view(slots@) =~= slots_view(before).push(single(card.idx())));
                        match slots_from(t@, i + 2, hi as int, named@) {
                            Ok(v) => assert(slots_view(before) + (seq![single(card.idx())] + v)
                                =~= slots_view(slots@) + v),
                            Err(_) => {},
                        }
                    }
                    i = i + 2;
                    continue;
                }
            }
            let ghost before = slots@;
            slots.push(CardSet::of_rank(rank));
            proof {
                assert(slots_view(slots@) =~= slots_view(before).push(rank_indices(rank)));
                match slots_from(t@, i + 1, hi as int, named@) {
                    Ok(v) => assert(slots_view(before) + (seq![rank_indices(rank)] + v)
                        =~= slots_view(slots@) + v),
                    Err(_) => {},
                }
            }
            i = i + 1;
            continue;
        }
        if let Ok(suit) = Suit::from_char(glyph) {
            let ghost before = slots@;
            slots.push(CardSet::of_suit(suit));
            proof {
                assert(slots_view(slots@) =~= slots_view(before).push(suit_indices(suit)));
                match slots_from(t@, i + 1, hi as int, named@) {
                    Ok(v) => assert(slots_view(before) + (seq![suit_indices(suit)] + v)
                        =~= slots_view(slots@) + v),
                    Err(_) => {},
                }
            }
            i = i + 1;
            continue;
        }
        proof {
            lemma_byte_offset_step(t@, i as int);
        }
        return Err(NotationError::new(NotationErrorKind::UnknownGlyph(glyph), offs[i], char_width(glyph)));
    }
    proof {
        assert(slots_view(slots@) + Seq::<Set<int>>::empty() =~= slots_view(slots@));
    }
    Ok(slots)
}

/// The first character at or after `i` that is not whitespace, or `hi`.
pub open spec fn skip_white(t: Seq<char>, i: int, hi: int) -> int
    decreases hi - i,
{
    if i >= hi {
        hi
    } else if is_white_space(t[i]) {
        skip_white(t, i + 1, hi)
    } else {
        i
    }
}

/// One past the last character before `j` that is not whitespace, or `lo`.
pub open spec fn trim_back(t: Seq<char>, lo: int, j: int) -> int
    decreases j - lo,
{
    if j <= lo {
        lo
    } else if is_white_space(t[j - 1]) {
        trim_back(t, lo, j - 1)
    } else {
        j
    }
}

/// `t[lo..hi]` with the whitespace at either end left off.
pub open spec fn trimmed_range(t: Seq<char>, lo: int, hi: int) -> (int, int) {
    let a = skip_white(t, lo, hi);
    (a, trim_back(t, a, hi))
}

/// The comma-separated terms of `t` from `start`, the current one having
/// reached `i`, each trimmed.
pub open spec fn terms_scan(t: Seq<char>, start: int, i: int) -> Seq<(int, int)>
    decreases t.len() - i,
{
    if i >= t.len() {
        seq![trimmed_range(t, start, t.len() as int)]
    } else if t[i] == ',' {
        seq![trimmed_range(t, start, i)] + terms_scan(t, i + 1, i + 1)
    } else {
        terms_scan(t, start, i + 1)
    }
}

/// The comma-separated terms of a field, each trimmed.
pub open spec fn term_ranges(t: Seq<char>) -> Seq<(int, int)> {
    terms_scan(t, 0, 0)
}

pub(crate) proof fn lemma_skip_white(t: Seq<char>, i: int, hi: int)
    requires
        0 <= i <= hi <= t.len(),
    ensures
        i <= skip_white(t, i, hi) <= hi,
        skip_white(t, i, hi) < hi ==> !is_white_space(t[skip_white(t, i, hi)]),
    decreases hi - i,
{
    if i < hi && is_white_space(t[i]) {
        lemma_skip_white(t, i + 1, hi);
    }
}

pub(crate) proof fn lemma_trim_back(t: Seq<char>, lo: int, j: int)
    requires
        0 <= lo <= j <= t.len(),
    ensures
        lo <= trim_back(t, lo, j) <= j,
        trim_back(t, lo, j) > lo ==> !is_white_space(t[trim_back(t, lo, j) - 1]),
    decreases j - lo,
{
    if j > lo && is_white_space(t[j - 1]) {
        lemma_trim_back(t, lo, j - 1);
    }
}

/// Trims a term, moving its start along with it.
fn trimmed(t: &Vec<char>, lo: usize, hi: usize) -> (r: (usize, usize))
    requires
        lo <= hi <= t.len(),
    ensures
        r.0 == trimmed_range(t@, lo as int, hi as int).0,
        r.1 == trimmed_range(t@, lo as int, hi as int).1,
        lo <= r.0 <= r.1 <= hi,
{
    let mut a = lo;
    while a < hi && is_whitespace(t[a])
        invariant
            lo <= a <= hi <= t.len(),
            skip_white(t@, lo as int, hi as int) == skip_white(t@, a as int, hi as int),
        decreases hi - a,
    {
        a = a + 1;
    }
    let mut b = hi;
    while b > a && is_whitespace(t[b - 1])
        invariant
            a <= b <= hi <= t.len(),
            trim_back(t@, a as int, hi as int) == trim_back(t@, a as int, b as int),
        decreases b - a,
    {
        b = b - 1;
    }
    (a, b)
}

/// Splits a field into its comma-separated terms, each trimmed, as ranges of
/// character positions.
fn split_terms(t: &Vec<char>) -> (r: Vec<(usize, usize)>)
    ensures
        r@.len() == term_ranges(t@).len(),
        forall|k: int|
            0 <= k < r@.len() ==> (#[trigger] r@[k]).0 == term_ranges(t@)[k].0 && r@[k].1
                == term_ranges(t@)[k].1 && r@[k].0 <= r@[k].1 <= t.len(),
{
    let ghost whole = term_ranges(t@);
    let mut terms: Vec<(usize, usize)> = Vec::new();
    let mut start: usize = 0;
    let mut i: usize = 0;
    while i < t.len()
        invariant
            0 <= start <= i <= t.len(),
            whole == term_ranges(t@),
            whole.len() == terms@.len() + terms_scan(t@, start as int, i as int).len(),
            forall|k: int|
                0 <= k < terms@.len() ==> (#[trigger] terms@[k]).0 == whole[k].0 && terms@[k].1
                    == whole[k].1 && terms@[k].0 <= terms@[k].1 <= t.len(),
            forall|k: int|
                0 <= k < terms_scan(t@, start as int, i as int).len() ==> whole[terms@.len() + k]
                    == #[trigger] terms_scan(t@, start as int, i as int)[k],
        decreases t.len() - i,
    {
        if t[i] == ',' {
            let piece = trimmed(t, start, i);
            let ghost rest = terms_scan(t@, (i + 1) as int, (i + 1) as int);
            assert(terms_scan(t@, start as int, i as int) == seq![trimmed_range(t@, start as int, i as int)] + rest);
            assert(terms_scan(t@, start as int, i as int)[0] == trimmed_range(t@, start as int, i as int));
            assert(whole[terms@.len() as int + 0] == terms_scan(t@, start as int, i as int)[0]);
            assert(whole[terms@.len() as int] == trimmed_range(t@, start as int, i as int));
            terms.push(piece);
            assert forall|k: int| 0 <= k < rest.len() implies whole[terms@.len() + k] == #[trigger] rest[k] by {
                assert(terms_scan(t@, start as int, i as int)[k + 1] == rest[k]);
            }
            start = i + 1;
        }
        i = i + 1;
    }
    let piece = trimmed(t, start, t.len());
    assert(terms_scan(t@, start as int, t.len() as int) == seq![trimmed_range(t@, start as int, t.len() as int)]);
    assert(terms_scan(t@, start as int, t.len() as int)[0] == trimmed_range(t@, start as int, t.len() as int));
    assert(whole[terms@.len() as int + 0] == terms_scan(t@, start as int, t.len() as int)[0]);
    assert(whole[terms@.len() as int] == trimmed_range(t@, start as int, t.len() as int));
    terms.push(piece);
    terms
}

/// What one alternative means: a range where the game deals two cards and
/// the term reads as one, and a list of slots otherwise.
pub open spec fn alternative_of(t: Seq<char>, a: int, b: int, slots: nat, exact: bool) -> Result<
    Seq<Seq<Set<int>>>,
    Fault,
> {
    let term = t.subrange(a, b);
    if a == b {
        Err(Fault { kind: FaultKind::Empty, offset: byte_offset(t, a), len: 0 })
    } else if slots == 2 && range_of(term) is Some {
        match range_of(term)->0 {
            Err(k) => Err(fault_at(t, k@, a, b)),
            Ok(hands) => Ok(combo_alternatives(hands)),
        }
    } else if slots != 2 && (term.contains('+') || term.contains('-') || term.contains('%')) {
        Err(fault_at(t, FaultKind::RangesNotAllowed, a, b))
    } else {
        match slots_from(t, a, b, Set::empty()) {
            Err(f) => Err(f),
            Ok(p) => if (exact && p.len() != slots) || (!exact && (p.len() == 0 || p.len()
                > slots)) {
                if term.contains('*') {
                    Err(
                        fault_at(
                            t,
                            FaultKind::WildcardSlotCount { expected: slots, found: p.len() },
                            a,
                            b,
                        ),
                    )
                } else {
                    Err(
                        fault_at(
                            t,
                            FaultKind::WrongSlotCount { expected: slots, found: p.len() },
                            a,
                            b,
                        ),
                    )
                }
            } else {
                Ok(seq![p])
            },
        }
    }
}

/// The alternatives a result holds, read through their views.
pub open spec fn alternatives_outcome(r: Result<Vec<Vec<CardSet>>, NotationError>) -> Result<
    Seq<Seq<Set<int>>>,
    Fault,
> {
    match r {
        Ok(v) => Ok(v@.map_values(|a: Vec<CardSet>| slots_view(a@))),
        Err(e) => Err(e@),
    }
}

/// Reads one alternative, as a range where the game has ranges and as a list
/// of slots otherwise.
fn parse_alternative(
    t: &Vec<char>,
    offs: &Vec<usize>,
    a: usize,
    b: usize,
    slots: usize,
    exact: bool,
) -> (r: Result<Vec<Vec<CardSet>>, NotationError>)
    requires
        a <= b <= t.len(),
        offsets_of(t@, offs@),
    ensures
        alternatives_outcome(r) == alternative_of(t@, a as int, b as int, slots as nat, exact),
{
    proof {
        lemma_byte_offset_mono(t@, a as int, b as int);
        lemma_byte_offset_mono(t@, b as int, t.len() as int);
    }
    let offset = offs[a];
    if a == b {
        return Err(NotationError::new(NotationErrorKind::Empty, offset, 0));
    }
    let span = offs[b] - offs[a];
    if slots == 2 {
        if let Some(range) = parse_range(t, a, b) {
            return match range {
                Ok(hands) => {
                    let spec = HandSpec::from_combos(hands.as_slice());
                    assert(spec@ == spec.alternatives@.map_values(|a: Vec<CardSet>| slots_view(a@)));
                    Ok(spec.alternatives)
                },
                Err(kind) => Err(NotationError::new(kind, offset, span)),
            };
        }
    } else if has_char(t, a, b, '+') || has_char(t, a, b, '-') || has_char(t, a, b, '%') {
        // Those glyphs only ever mean a range, and ranges are written only
        // where a hand holds two cards.
        return Err(NotationError::new(NotationErrorKind::RangesNotAllowed, offset, span));
    }
    let parsed = match parse_slots(t, offs, a, b) {
        Ok(parsed) => parsed,
        Err(e) => return Err(e),
    };
    let miscounted = if exact {
        parsed.len() != slots
    } else {
        parsed.len() == 0 || parsed.len() > slots
    };
    if miscounted {
        // A miscount around a `*` almost always means the writer expected it
        // to bind, so say so rather than only reporting the number.
        let kind = if has_char(t, a, b, '*') {
            NotationErrorKind::WildcardSlotCount { expected: slots, found: parsed.len() }
        } else {
            NotationErrorKind::WrongSlotCount { expected: slots, found: parsed.len() }
        };
        return Err(NotationError::new(kind, offset, span));
    }
    let out = vec![parsed];
    assert(out@.map_values(|a: Vec<CardSet>| slots_view(a@)) =~= seq![slots_view(out@[0]@)]);
    Ok(out)
}

/// The alternatives of the terms `terms`, in order, or the first error.
pub open spec fn alternatives_of_terms(
    t: Seq<char>,
    terms: Seq<(int, int)>,
    slots: nat,
    exact: bool,
) -> Result<Seq<Seq<Set<int>>>, Fault>
    decreases terms.len(),
{
    if terms.len() == 0 {
        Ok(seq![])
    } else {
        match alternatives_of_terms(t, terms.drop_last(), slots, exact) {
            Err(e) => Err(e),
            Ok(v) => match alternative_of(t, terms.last().0, terms.last().1, slots, exact) {
                Err(e) => Err(e),
                Ok(w) => Ok(v + w),
            },
        }
    }
}

/// An error in the first `m` terms is the error of them all.
proof fn lemma_terms_error(t: Seq<char>, terms: Seq<(int, int)>, m: nat, slots: nat, exact: bool)
    requires
        m <= terms.len(),
        alternatives_of_terms(t, terms.take(m as int), slots, exact) is Err,
    ensures
        alternatives_of_terms(t, terms, slots, exact) == alternatives_of_terms(
            t,
            terms.take(m as int),
            slots,
            exact,
        ),
    decreases terms.len() - m,
{
    if m < terms.len() {
        assert(terms.take(m as int + 1).drop_last() =~= terms.take(m as int));
        lemma_terms_error(t, terms, m + 1, slots, exact);
    } else {
        assert(terms.take(m as int) =~= terms);
    }
}

/// What a hand field means: every term's alternatives, in order.
pub open spec fn field_of(t: Seq<char>, slots: nat, exact: bool) -> Result<Seq<Seq<Set<int>>>, Fault> {
    alternatives_of_terms(t, term_ranges(t), slots, exact)
}

/// A spec's outcome, read through its view.
pub open spec fn spec_outcome(r: Result<HandSpec, NotationError>) -> Result<Seq<Seq<Set<int>>>, Fault> {
    match r {
        Ok(spec) => Ok(spec@),
        Err(e) => Err(e@),
    }
}

/// Reads a hand field for a game that deals `slots` cards to a player.
///
/// Ranges such as `AKs` or `22+` are recognised only when `slots` is two,
/// which is what makes the collision between `AKs` the range and `A` `Ks` the
/// two slots impossible in Omaha and stud rather than merely unlikely.
pub fn parse_hand(text: &str, slots: usize) -> (r: Result<HandSpec, NotationError>)
    requires
        byte_len(text@) <= usize::MAX,
    ensures
        spec_outcome(r) == field_of(text@, slots as nat, true),
{
    parse_field(text, slots, true)
}

/// Reads a hand field that may name fewer cards than the game deals.
///
/// Where a player's cards arrive over time -- stud dealt street by street, a
/// draw game where cards are exchanged -- the field says what is held now and
/// the rest are still to come.
pub fn parse_hand_up_to(text: &str, slots: usize) -> (r: Result<HandSpec, NotationError>)
    requires
        byte_len(text@) <= usize::MAX,
    ensures
        spec_outcome(r) == field_of(text@, slots as nat, false),
{
    parse_field(text, slots, false)
}

fn parse_field(text: &str, slots: usize, exact: bool) -> (r: Result<HandSpec, NotationError>)
    requires
        byte_len(text@) <= usize::MAX,
    ensures
        spec_outcome(r) == field_of(text@, slots as nat, exact),
{
    let t = chars_of(text);
    let offs = byte_offsets(&t);
    let terms = split_terms(&t);
    let ghost ranges = term_ranges(t@);
    let mut alternatives: Vec<Vec<CardSet>> = Vec::new();
    let mut k: usize = 0;
    assert(ranges.take(0) =~= Seq::<(int, int)>::empty());
    assert(alternatives@.map_values(|a: Vec<CardSet>| slots_view(a@)) =~= Seq::<Seq<Set<int>>>::empty());
    while k < terms.len()
        invariant
            0 <= k <= terms.len(),
            t@ == text@,
            offsets_of(t@, offs@),
            ranges == term_ranges(t@),
            terms@.len() == ranges.len(),
            forall|j: int|
                0 <= j < terms@.len() ==> (#[trigger] terms@[j]).0 == ranges[j].0 && terms@[j].1
                    == ranges[j].1 && terms@[j].0 <= terms@[j].1 <= t.len(),
            alternatives_of_terms(t@, ranges.take(k as int), slots as nat, exact) == Ok::<
                Seq<Seq<Set<int>>>,
                Fault,
            >(alternatives@.map_values(|a: Vec<CardSet>| slots_view(a@))),
        decreases terms.len() - k,
    {
        let (a, b) = terms[k];
        assert(ranges.take(k + 1).drop_last() =~= ranges.take(k as int));
        assert(ranges.take(k + 1).last() == ranges[k as int]);
        match parse_alternative(&t, &offs, a, b, slots, exact) {
            Ok(more) => {
                let mut more = more;
                let ghost before = alternatives@;
                let ghost added = more@;
                alternatives.append(&mut more);
                assert(alternatives@.map_values(|a: Vec<CardSet>| slots_view(a@)) =~= before.map_values(
                    |a: Vec<CardSet>| slots_view(a@),
                ) + added.map_values(|a: Vec<CardSet>| slots_view(a@)));
            },
            Err(e) => {
                proof {
                    lemma_terms_error(t@, ranges, (k + 1) as nat, slots as nat, exact);
                }
                return Err(e);
            },
        }
        k = k + 1;
    }
    assert(ranges.take(terms.len() as int) =~= ranges);
    let r = HandSpec::from_alternatives(alternatives);
    Ok(r)
}

/// What a board field means: one hand, possibly short, with no commas, and
/// at most `limit` slots.
pub open spec fn board_of(t: Seq<char>, limit: nat) -> Result<Seq<Set<int>>, Fault> {
    if first_of(t, ',') is Some {
        Err(Fault { kind: FaultKind::UnknownGlyph(','), offset: byte_offset(t, first_of(t, ',')->0), len: 1 })
    } else {
        let (a, b) = trimmed_range(t, 0, t.len() as int);
        if a == b {
            Ok(seq![])
        } else {
            match slots_from(t, a, b, Set::empty()) {
                Err(f) => Err(f),
                Ok(p) => if p.len() > limit {
                    Err(fault_at(t, FaultKind::TooManySlots { limit, found: p.len() }, a, b))
                } else {
                    Ok(p)
                },
            }
        }
    }
}

/// Reads a board, which may be short and may hold wildcards.
///
/// A board is one hand, not a list of alternatives, so commas are not
/// accepted here.
pub fn parse_board(text: &str, limit: usize) -> (r: Result<Vec<CardSet>, NotationError>)
    requires
        byte_len(text@) <= usize::MAX,
    ensures
        slots_outcome(r) == board_of(text@, limit as nat),
{
    let t = chars_of(text);
    let offs = byte_offsets(&t);
    if let Some(at) = crate::text::find_char(&t, 0, t.len(), ',') {
        assert(t@.subrange(0, t.len() as int) =~= t@);
        proof {
            lemma_first_from(t@, ',', 0);
        }
        return Err(NotationError::new(NotationErrorKind::UnknownGlyph(','), offs[at], 1));
    }
    assert(t@.subrange(0, t.len() as int) =~= t@);
    let (a, b) = trimmed(&t, 0, t.len());
    if a == b {
        let none: Vec<CardSet> = Vec::new();
        assert(slots_view(none@) =~= Seq::<Set<int>>::empty());
        return Ok(none);
    }
    let slots = match parse_slots(&t, &offs, a, b) {
        Ok(slots) => slots,
        Err(e) => return Err(e),
    };
    if slots.len() > limit {
        proof {
            lemma_byte_offset_mono(t@, a as int, b as int);
            lemma_byte_offset_mono(t@, b as int, t.len() as int);
        }
        return Err(
            NotationError::new(
                NotationErrorKind::TooManySlots { limit, found: slots.len() },
                offs[a],
                offs[b] - offs[a],
            ),
        );
    }
    Ok(slots)
}

/// Every card the slots name, together.
pub open spec fn union_all(ss: Seq<Set<int>>) -> Set<int>
    decreases ss.len(),
{
    if ss.len() == 0 {
        Set::empty()
    } else {
        union_all(ss.drop_last()).union(ss.last())
    }
}

/// What one whitespace-separated pattern adds to the dead cards: every card
/// it names, when it names only whole cards.
pub open spec fn dead_run(t: Seq<char>, p: int, q: int, acc: Set<int>) -> Result<Set<int>, Fault> {
    match slots_from(t, p, q, Set::empty()) {
        Err(f) => Err(f),
        Ok(ss) => if exists|k: int| 0 <= k < ss.len() && (#[trigger] ss[k]).len() != 1 {
            Err(fault_at(t, FaultKind::DeadCardNotExact, p, q))
        } else {
            Ok(acc.union(union_all(ss)))
        },
    }
}

/// The dead cards of `t[i..hi]`, `start` being where the current pattern
/// began, or below zero between patterns.
pub open spec fn dead_scan(t: Seq<char>, hi: int, start: int, i: int, acc: Set<int>) -> Result<
    Set<int>,
    Fault,
>
    decreases hi - i,
{
    if i >= hi {
        if start >= 0 {
            dead_run(t, start, hi, acc)
        } else {
            Ok(acc)
        }
    } else if is_white_space(t[i]) {
        if start >= 0 {
            match dead_run(t, start, i, acc) {
                Err(f) => Err(f),
                Ok(more) => dead_scan(t, hi, -1, i + 1, more),
            }
        } else {
            dead_scan(t, hi, -1, i + 1, acc)
        }
    } else {
        dead_scan(
            t,
            hi,
            if start >= 0 {
                start
            } else {
                i
            },
            i + 1,
            acc,
        )
    }
}

/// What a dead-card field means: the cards its patterns name, each of which
/// must name whole cards only.
pub open spec fn dead_of(t: Seq<char>) -> Result<Set<int>, Fault> {
    let (a, b) = trimmed_range(t, 0, t.len() as int);
    if a == b {
        Ok(Set::empty())
    } else {
        dead_scan(t, b, -1, a, Set::empty())
    }
}

/// A dead-card outcome, read through its view.
pub open spec fn dead_outcome(r: Result<CardSet, NotationError>) -> Result<Set<int>, Fault> {
    match r {
        Ok(set) => Ok(set@),
        Err(e) => Err(e@),
    }
}

/// Adds the cards one pattern names, or reports the pattern when it names
/// something less than whole cards.
fn add_pattern(t: &Vec<char>, offs: &Vec<usize>, p: usize, q: usize, dead: CardSet) -> (r: Result<
    CardSet,
    NotationError,
>)
    requires
        p <= q <= t.len(),
        offsets_of(t@, offs@),
    ensures
        dead_outcome(r) == dead_run(t@, p as int, q as int, dead@),
{
    let slots = match parse_slots(t, offs, p, q) {
        Ok(slots) => slots,
        Err(e) => return Err(e),
    };
    let ghost views = slots_view(slots@);
    let mut dead = dead;
    let ghost start = dead@;
    let mut k: usize = 0;
    while k < slots.len()
        invariant
            0 <= k <= slots.len(),
            p <= q <= t.len(),
            offsets_of(t@, offs@),
            slots_from(t@, p as int, q as int, Set::empty()) == Ok::<Seq<Set<int>>, Fault>(views),
            views == slots_view(slots@),
            forall|j: int| 0 <= j < k ==> (#[trigger] views[j]).len() == 1,
            dead@ == start.union(union_all(views.take(k as int))),
        decreases slots.len() - k,
    {
        let slot = slots[k];
        if slot.len() != 1 {
            proof {
                lemma_byte_offset_mono(t@, p as int, q as int);
                lemma_byte_offset_mono(t@, q as int, t.len() as int);
                assert(views[k as int].len() != 1);
            }
            return Err(
                NotationError::new(NotationErrorKind::DeadCardNotExact, offs[p], offs[q] - offs[p]),
            );
        }
        dead = dead.union(slot);
        assert(views.take(k + 1).drop_last() =~= views.take(k as int));
        assert(dead@ =~= start.union(union_all(views.take(k + 1))));
        k = k + 1;
    }
    assert(views.take(slots.len() as int) =~= views);
    assert(!exists|k: int| 0 <= k < views.len() && (#[trigger] views[k]).len() != 1);
    Ok(dead)
}

/// Reads dead cards, which must be named exactly.
///
/// "A club is dead" does not say *which* club, and every reading changes the
/// answer, so a wildcard is refused rather than guessed at.
pub fn parse_dead(text: &str) -> (r: Result<CardSet, NotationError>)
    requires
        byte_len(text@) <= usize::MAX,
    ensures
        dead_outcome(r) == dead_of(text@),
{
    let t = chars_of(text);
    let offs = byte_offsets(&t);
    let (a, b) = trimmed(&t, 0, t.len());
    if a == b {
        return Ok(CardSet::EMPTY());
    }
    let mut dead = CardSet::EMPTY();
    let mut in_pattern = false;
    let mut start: usize = a;
    let mut i: usize = a;
    while i < b
        invariant
            a <= i <= b <= t.len(),
            a <= start <= i,
            t@ == text@,
            offsets_of(t@, offs@),
            dead_of(t@) == dead_scan(
                t@,
                b as int,
                if in_pattern {
                    start as int
                } else {
                    -1
                },
                i as int,
                dead@,
            ),
        decreases b - i,
    {
        if is_whitespace(t[i]) {
            if in_pattern {
                dead = match add_pattern(&t, &offs, start, i, dead) {
                    Ok(more) => more,
                    Err(e) => return Err(e),
                };
                in_pattern = false;
            }
        } else if !in_pattern {
            in_pattern = true;
            start = i;
        }
        i = i + 1;
    }
    if in_pattern {
        return add_pattern(&t, &offs, start, b, dead);
    }
    Ok(dead)
}

/// How many slots each alternative of some terms holds.
proof fn lemma_term_widths(t: Seq<char>, terms: Seq<(int, int)>, slots: nat, exact: bool)
    ensures
        alternatives_of_terms(t, terms, slots, exact) matches Ok(v) ==> forall|a: int|
            0 <= a < v.len() ==> if exact {
                (#[trigger] v[a]).len() == slots
            } else {
                1 <= v[a].len() <= slots
            },
    decreases terms.len(),
{
    if terms.len() > 0 {
        lemma_term_widths(t, terms.drop_last(), slots, exact);
        let (a, b) = terms.last();
        if let Ok(front) = alternatives_of_terms(t, terms.drop_last(), slots, exact) {
            if let Ok(w) = alternative_of(t, a, b, slots, exact) {
                let term = t.subrange(a, b);
                if a != b && slots == 2 && range_of(term) is Some {
                    let hands = range_of(term)->0->Ok_0;
                    assert forall|i: int| 0 <= i < w.len() implies (#[trigger] w[i]).len() == 2 by {
                        assert(w[i] == seq![single(hands[i].0), single(hands[i].1)]);
                    }
                }
                let v = front + w;
                assert forall|i: int| 0 <= i < v.len() implies if exact {
                    (#[trigger] v[i]).len() == slots
                } else {
                    1 <= v[i].len() <= slots
                } by {
                    if i >= front.len() {
                        assert(v[i] == w[i - front.len()]);
                    }
                }
            }
        }
    }
}

/// A hand field read for a game that deals `slots` cards gives alternatives
/// of exactly `slots` slots each when the field must name them all, and of
/// one to `slots` slots each when it may be short.
pub proof fn lemma_field_widths(t: Seq<char>, slots: nat, exact: bool)
    ensures
        field_of(t, slots, exact) matches Ok(v) ==> forall|a: int|
            0 <= a < v.len() ==> if exact {
                (#[trigger] v[a]).len() == slots
            } else {
                1 <= v[a].len() <= slots
            },
{
    lemma_term_widths(t, term_ranges(t), slots, exact);
}

/// A board read against a limit of `limit` slots holds at most that many.
pub proof fn lemma_board_within_limit(t: Seq<char>, limit: nat)
    ensures
        board_of(t, limit) matches Ok(v) ==> v.len() <= limit,
{
}

/// Terms read as a short field read as a whole one wherever the whole
/// reading succeeds, and the other way round wherever every alternative of
/// the short reading is whole.
proof fn lemma_terms_short_and_whole(t: Seq<char>, terms: Seq<(int, int)>, slots: nat)
    ensures
        slots >= 1 && alternatives_of_terms(t, terms, slots, true) is Ok ==> alternatives_of_terms(t, terms, slots, false)
            == alternatives_of_terms(t, terms, slots, true),
        (alternatives_of_terms(t, terms, slots, false) matches Ok(v) && forall|a: int|
            0 <= a < v.len() ==> (#[trigger] v[a]).len() == slots) ==> alternatives_of_terms(t, terms, slots, true)
            == alternatives_of_terms(t, terms, slots, false),
    decreases terms.len(),
{
    if terms.len() > 0 {
        let front = terms.drop_last();
        let (a, b) = terms.last();
        lemma_terms_short_and_whole(t, front, slots);
        lemma_term_widths(t, front, slots, false);
        lemma_term_widths(t, front, slots, true);
        if let Ok(v) = alternatives_of_terms(t, terms, slots, false) {
            if forall|i: int| 0 <= i < v.len() ==> (#[trigger] v[i]).len() == slots {
                let f = alternatives_of_terms(t, front, slots, false)->Ok_0;
                let w = alternative_of(t, a, b, slots, false)->Ok_0;
                assert(v == f + w);
                assert forall|i: int| 0 <= i < f.len() implies (#[trigger] f[i]).len() == slots by {
                    assert(v[i] == f[i]);
                }
                if w.len() > 0 {
                    assert(v[f.len() as int] == w[0]);
                }
            }
        }
    }
}

/// Reading a field that may be short reads it as a whole field is read,
/// except that it takes alternatives of one to `slots` slots where a whole
/// field takes exactly `slots`: wherever a whole reading succeeds, the short
/// reading gives the same; and wherever a short reading gives only whole
/// alternatives, the whole reading gives them too.
pub proof fn lemma_short_reads_as_whole(t: Seq<char>, slots: nat)
    ensures
        slots >= 1 && field_of(t, slots, true) is Ok ==> field_of(t, slots, false) == field_of(t, slots, true),
        (field_of(t, slots, false) matches Ok(v) && forall|a: int| 0 <= a < v.len() ==> (#[trigger] v[a]).len() == slots)
            ==> field_of(t, slots, true) == field_of(t, slots, false),
{
    lemma_terms_short_and_whole(t, term_ranges(t), slots);
}

/// A card is in the union of some sets exactly when one of them holds it.
proof fn lemma_union_all_holds(ss: Seq<Set<int>>, x: int)
    ensures
        union_all(ss).contains(x) <==> exists|k: int| 0 <= k < ss.len() && #[trigger] ss[k].contains(x),
    decreases ss.len(),
{
    if ss.len() > 0 {
        lemma_union_all_holds(ss.drop_last(), x);
        if union_all(ss.drop_last()).contains(x) {
            let k = choose|k: int| 0 <= k < ss.drop_last().len() && #[trigger] ss.drop_last()[k].contains(x);
            assert(ss[k].contains(x));
        }
        if exists|k: int| 0 <= k < ss.len() && #[trigger] ss[k].contains(x) {
            let k = choose|k: int| 0 <= k < ss.len() && #[trigger] ss[k].contains(x);
            if k < ss.len() - 1 {
                assert(ss.drop_last()[k].contains(x));
            }
        }
    }
}

/// What one dead-card pattern adds: when it is accepted, every slot of it
/// names one card, every card any slot names is dead afterwards, the cards
/// dead before stay dead, and nothing else becomes dead.
pub proof fn lemma_pattern_adds_its_cards(t: Seq<char>, p: int, q: int, acc: Set<int>)
    ensures
        dead_run(t, p, q, acc) matches Ok(dead) ==> slots_from(t, p, q, Set::empty()) matches Ok(ss) && {
            &&& forall|k: int| 0 <= k < ss.len() ==> (#[trigger] ss[k]).len() == 1
            &&& acc.subset_of(dead)
            &&& forall|k: int, x: int| 0 <= k < ss.len() && #[trigger] ss[k].contains(x) ==> dead.contains(x)
            &&& forall|x: int|
                dead.contains(x) ==> acc.contains(x) || exists|k: int| 0 <= k < ss.len() && #[trigger] ss[k].contains(x)
        },
{
    if let Ok(dead) = dead_run(t, p, q, acc) {
        let ss = slots_from(t, p, q, Set::empty())->Ok_0;
        assert forall|k: int, x: int| 0 <= k < ss.len() && #[trigger] ss[k].contains(x) implies dead.contains(x) by {
            lemma_union_all_holds(ss, x);
        }
        assert forall|x: int| dead.contains(x) implies acc.contains(x) || exists|k: int|
            0 <= k < ss.len() && #[trigger] ss[k].contains(x) by {
            lemma_union_all_holds(ss, x);
        }
    }
}

/// Reading dead cards keeps every card already read as dead.
pub proof fn lemma_dead_cards_stay_dead(t: Seq<char>, hi: int, start: int, i: int, acc: Set<int>)
    ensures
        dead_scan(t, hi, start, i, acc) matches Ok(dead) ==> acc.subset_of(dead),
    decreases hi - i,
{
    if i >= hi {
        if start >= 0 {
            lemma_pattern_adds_its_cards(t, start, hi, acc);
        }
    } else if is_white_space(t[i]) {
        if start >= 0 {
            lemma_pattern_adds_its_cards(t, start, i, acc);
            if let Ok(more) = dead_run(t, start, i, acc) {
                lemma_dead_cards_stay_dead(t, hi, -1, i + 1, more);
            }
        } else {
            lemma_dead_cards_stay_dead(t, hi, -1, i + 1, acc);
        }
    } else {
        lemma_dead_cards_stay_dead(t, hi, if start >= 0 {
            start
        } else {
            i
        }, i + 1, acc);
    }
}

/// Whether `t[p..q]` is one whitespace-free pattern of the field `t[a..b]`:
/// not empty, with no whitespace in it, and with whitespace or an end of
/// the field on either side.
pub open spec fn pattern_at(t: Seq<char>, a: int, b: int, p: int, q: int) -> bool {
    &&& a <= p < q <= b
    &&& forall|k: int| p <= k < q ==> !is_white_space(#[trigger] t[k])
    &&& p == a || is_white_space(t[p - 1])
    &&& q == b || is_white_space(t[q])
}

/// The scan of a dead-card field from position `i` keeps the cards of every
/// pattern it has yet to finish.
proof fn lemma_scan_keeps_pattern(t: Seq<char>, hi: int, start: int, i: int, acc: Set<int>, lo: int, p: int, q: int)
    requires
        0 <= lo <= i,
        hi <= t.len(),
        pattern_at(t, lo, hi, p, q),
        (start >= 0 && start == p && i <= q) || (start < 0 && p >= i) || (start >= 0 && p > i),
        start >= 0 ==> start < i,
    ensures
        dead_scan(t, hi, start, i, acc) matches Ok(dead) ==> slots_from(t, p, q, Set::empty()) matches Ok(ss)
            && forall|k: int, x: int| 0 <= k < ss.len() && #[trigger] ss[k].contains(x) ==> dead.contains(x),
    decreases hi - i,
{
    if i >= hi {
        if start >= 0 && start == p {
            lemma_pattern_adds_its_cards(t, start, hi, acc);
        }
    } else if is_white_space(t[i]) {
        if start >= 0 && start == p && i <= q {
            if i < q {
                assert(!is_white_space(t[i]));
            }
            lemma_pattern_adds_its_cards(t, start, i, acc);
            if let Ok(more) = dead_run(t, start, i, acc) {
                lemma_dead_cards_stay_dead(t, hi, -1, i + 1, more);
            }
        } else {
            if p == i {
                assert(!is_white_space(t[p]));
            }
            if start >= 0 {
                if let Ok(more) = dead_run(t, start, i, acc) {
                    lemma_scan_keeps_pattern(t, hi, -1, i + 1, more, lo, p, q);
                }
            } else {
                lemma_scan_keeps_pattern(t, hi, -1, i + 1, acc, lo, p, q);
            }
        }
    } else {
        let next = if start >= 0 {
            start
        } else {
            i
        };
        if start >= 0 && start == p && i <= q {
            if q == i {
                assert(q != hi);
            }
            lemma_scan_keeps_pattern(t, hi, next, i + 1, acc, lo, p, q);
        } else if p == i {
            if q == i {
                assert(false);
            }
            lemma_scan_keeps_pattern(t, hi, next, i + 1, acc, lo, p, q);
        } else {
            if p == i + 1 {
                assert(is_white_space(t[p - 1]));
            }
            lemma_scan_keeps_pattern(t, hi, next, i + 1, acc, lo, p, q);
        }
    }
}

/// Every card a dead-card field names is dead: for each whitespace-free
/// pattern of the field, every card any of its slots names is in the set
/// the field reads as.
pub proof fn lemma_dead_field_keeps_every_card(t: Seq<char>, p: int, q: int)
    requires
        pattern_at(t, trimmed_range(t, 0, t.len() as int).0, trimmed_range(t, 0, t.len() as int).1, p, q),
    ensures
        dead_of(t) matches Ok(dead) ==> slots_from(t, p, q, Set::empty()) matches Ok(ss) && forall|k: int, x: int|
            0 <= k < ss.len() && #[trigger] ss[k].contains(x) ==> dead.contains(x),
{
    let (a, b) = trimmed_range(t, 0, t.len() as int);
    lemma_skip_white(t, 0, t.len() as int);
    lemma_trim_back(t, a, t.len() as int);
    lemma_scan_keeps_pattern(t, b, -1, a, Set::empty(), a, p, q);
}

} // verus!
