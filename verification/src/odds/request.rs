//! What a request settles once: the checks it must pass, which cards are
//! certain, and, where suits do not matter, which card each open-suit rank
//! stands for.

use vstd::prelude::*;

use crate::cards::{card_at, deck_indices, rank_indices, Card, CardSet, Rank};
use crate::error::{EquityError, GameError, PokerError};
use crate::notation::hand_spec::{satisfiable, slot_count_of, slots_view};
use crate::notation::parser::{board_of, dead_of, field_of, spec_outcome, union_all};
use crate::notation::{parse_board, parse_dead, parse_hand, parse_hand_up_to, Fault, HandSpec, NotationError};
use crate::odds::matching::{can_fill, can_fill_slots};
use crate::text::byte_len;
use crate::poker::variants::{PokerType, PokerVariant};

verus! {

broadcast use {Card::lemma_idx, Card::lemma_card_at, Rank::lemma_at_index, Rank::lemma_index_at};

/// Whether one of `slots` holds just the card `x`.
pub open spec fn named_by(slots: Seq<CardSet>, x: int) -> bool {
    exists|k: int| 0 <= k < slots.len() && slots[k]@.len() == 1 && #[trigger] slots[k]@.contains(x)
}

/// The cards a participant holds in every deal: those every alternative
/// names outright. A participant with no alternatives is certain of nothing.
pub open spec fn certain_of(alternatives: Seq<Seq<CardSet>>) -> Set<int> {
    if alternatives.len() == 0 {
        Set::empty()
    } else {
        Set::new(
            |x: int| forall|a: int| 0 <= a < alternatives.len() ==> named_by(#[trigger] alternatives[a], x),
        )
    }
}

/// The cards `slots` names outright.
fn single_cards(slots: &Vec<CardSet>) -> (r: CardSet)
    ensures
        r@ == Set::new(|x: int| named_by(slots@, x)),
{
    let mut all = CardSet::EMPTY();
    let mut k: usize = 0;
    while k < slots.len()
        invariant
            0 <= k <= slots@.len(),
            all@ == Set::new(|x: int| named_by(slots@.take(k as int), x)),
        decreases slots@.len() - k,
    {
        let slot = slots[k];
        let ghost before = all@;
        if slot.len() == 1 {
            all = all.union(slot);
        }
        proof {
            let now = slots@.take(k + 1);
            assert forall|x: int| all@.contains(x) == named_by(now, x) by {
                if named_by(now, x) {
                    let j = choose|j: int| 0 <= j < now.len() && now[j]@.len() == 1 && #[trigger] now[j]@.contains(x);
                    if j < k {
                        assert(slots@.take(k as int)[j] == now[j]);
                    }
                }
                if before.contains(x) {
                    let j = choose|j: int|
                        0 <= j < k && slots@.take(k as int)[j]@.len() == 1 && #[trigger] slots@.take(
                            k as int,
                        )[j]@.contains(x);
                    assert(now[j] == slots@.take(k as int)[j]);
                }
                if slot@.len() == 1 && slot@.contains(x) {
                    assert(now[k as int] == slot);
                }
            }
            assert(all@ =~= Set::new(|x: int| named_by(now, x)));
        }
        k = k + 1;
    }
    assert(slots@.take(slots@.len() as int) =~= slots@);
    all
}

/// The cards a participant holds in *every* deal the request admits.
///
/// A slot with one candidate takes that card whatever else happens. Where a
/// seat has alternatives it has to be certain under all of them -- `AKs`
/// names no card for sure, since the suit is still open, while `Ah2c3d`
/// names three.
///
/// This is what makes it safe to keep those cards away from everybody else:
/// if a seat holds a card in every valid deal, no other seat holds it in any
/// of them, so removing it from their pools removes no deal that counts.
pub fn certain_cards(alternatives: &[Vec<CardSet>]) -> (r: CardSet)
    ensures
        r@ == certain_of(alternatives@.map_values(|v: Vec<CardSet>| v@)),
{
    let ghost alts = alternatives@.map_values(|v: Vec<CardSet>| v@);
    if alternatives.len() == 0 {
        let none = CardSet::EMPTY();
        assert(none@ == certain_of(alts));
        return none;
    }
    let mut all = single_cards(&alternatives[0]);
    assert(alts[0] == alternatives@[0]@);
    let mut a: usize = 1;
    while a < alternatives.len()
        invariant
            1 <= a <= alternatives@.len(),
            alts == alternatives@.map_values(|v: Vec<CardSet>| v@),
            all@ == Set::new(|x: int| forall|b: int| 0 <= b < a ==> named_by(#[trigger] alts[b], x)),
        decreases alternatives@.len() - a,
    {
        let these = single_cards(&alternatives[a]);
        assert(alts[a as int] == alternatives@[a as int]@);
        let ghost before = all@;
        all = all.intersection(these);
        assert forall|x: int| all@.contains(x) == (forall|b: int|
            0 <= b < a + 1 ==> named_by(#[trigger] alts[b], x)) by {
            if all@.contains(x) {
                assert forall|b: int| 0 <= b < a + 1 implies named_by(#[trigger] alts[b], x) by {
                    if b < a {
                        assert(before.contains(x));
                    }
                }
            }
        }
        assert(all@ =~= Set::new(
            |x: int| forall|b: int| 0 <= b < a + 1 ==> named_by(#[trigger] alts[b], x),
        ));
        a = a + 1;
    }
    assert(all@ =~= certain_of(alts));
    all
}

/// Whether a slot is a whole rank with the suit left open.
pub open spec fn rank_shaped(slot: Set<int>) -> bool {
    exists|r: Rank| slot == #[trigger] rank_indices(r)
}

/// Whether a slot is a whole rank with the suit left open -- `A`, and not
/// `Ah` or `c` or `*`.
pub fn names_only_a_rank(slot: CardSet) -> (r: bool)
    ensures
        r == rank_shaped(slot@),
{
    let ranks = Rank::all();
    let mut i: usize = 0;
    while i < 13
        invariant
            0 <= i <= 13,
            forall|j: int| 0 <= j < 13 ==> (#[trigger] ranks@[j]).index() == j,
            forall|q: Rank| q.index() < i ==> slot@ != #[trigger] rank_indices(q),
        decreases 13 - i,
    {
        if slot.same(CardSet::of_rank(ranks[i])) {
            return true;
        }
        i = i + 1;
    }
    assert forall|q: Rank| slot@ != #[trigger] rank_indices(q) by {
        assert(q.index() < 13);
    }
    false
}

/// Whether this deal runs the deck out, so that the last card is shared.
///
/// Seven-card stud gives every player seven cards, which is more than a deck
/// holds once eight sit down: eight sevens is fifty-six. The rule is that the
/// last card is not dealt to each player at all. One card goes face up in the
/// middle and every player counts it as their seventh.
pub fn last_card_is_shared<V: PokerVariant>(variant: V, players: usize) -> (r: bool)
    ensures
        r == (variant.family() == PokerType::Stud && players * variant.private_cards()
            > variant.deck_cards().len()),
{
    let stud = variant.poker_type() == PokerType::Stud;
    let hole = variant.hole_cards();
    let deck = variant.deck().len() as usize;
    if hole == 0 {
        assert(players * hole == 0) by (nonlinear_arith)
            requires
                hole == 0,
        ;
        return false;
    }
    // Compared by division, so that no product can overflow.
    let over = players > deck / hole;
    proof {
        lemma_product_exceeds(players as int, hole as int, deck as int);
    }
    stud && over
}

/// A product exceeds a bound exactly when one factor exceeds the bound
/// divided by the other.
proof fn lemma_product_exceeds(p: int, h: int, d: int)
    requires
        p >= 0,
        h > 0,
        d >= 0,
    ensures
        (p * h > d) == (p > d / h),
{
    let q = d / h;
    vstd::arithmetic::div_mod::lemma_fundamental_div_mod(d, h);
    vstd::arithmetic::div_mod::lemma_mod_bound(d, h);
    if p > q {
        assert(p * h >= (q + 1) * h) by (nonlinear_arith)
            requires
                p >= q + 1,
                h > 0,
        ;
        assert((q + 1) * h == q * h + h) by (nonlinear_arith);
    } else {
        assert(p * h <= q * h) by (nonlinear_arith)
            requires
                p <= q,
                h > 0,
        ;
    }
}

/// The lowest index in a set of card indices.
pub open spec fn lowest(s: Set<int>) -> int {
    choose|c: int| s.contains(c) && forall|y: int| #[trigger] s.contains(y) ==> c <= y
}

/// Gives each open-suit rank slot, in order, the lowest card of its rank
/// that is available and not yet taken, which is then taken; other slots
/// stay as they are. `None` when a rank has no such card left.
pub open spec fn pin_slots(slots: Seq<Set<int>>, available: Set<int>, taken: Set<int>) -> Option<
    Seq<Set<int>>,
>
    decreases slots.len(),
{
    if slots.len() == 0 {
        Some(seq![])
    } else {
        let s = slots[0];
        if rank_shaped(s) {
            let pool = s.intersect(available).difference(taken);
            if pool == Set::<int>::empty() {
                None
            } else {
                let c = lowest(pool);
                match pin_slots(slots.drop_first(), available, taken.insert(c)) {
                    None => None,
                    Some(rest) => Some(seq![Set::<int>::empty().insert(c)] + rest),
                }
            }
        } else {
            match pin_slots(slots.drop_first(), available, taken) {
                None => None,
                Some(rest) => Some(seq![s] + rest),
            }
        }
    }
}

/// A finite set of integers that is not empty has a lowest member.
proof fn lemma_lowest_exists(s: Set<int>)
    requires
        s.finite(),
        s != Set::<int>::empty(),
    ensures
        s.contains(lowest(s)),
        forall|y: int| #[trigger] s.contains(y) ==> lowest(s) <= y,
    decreases s.len(),
{
    let a = s.choose();
    assert(s.contains(a)) by {
        if !s.contains(s.choose()) {
            assert(s =~= Set::<int>::empty());
        }
    }
    let rest = s.remove(a);
    if rest == Set::<int>::empty() {
        assert forall|y: int| #[trigger] s.contains(y) implies a <= y by {
            if y != a {
                assert(rest.contains(y));
            }
        }
    } else {
        lemma_lowest_exists(rest);
        let m = lowest(rest);
        let c = if a <= m {
            a
        } else {
            m
        };
        assert forall|y: int| #[trigger] s.contains(y) implies c <= y by {
            if y != a {
                assert(rest.contains(y));
            }
        }
        assert(s.contains(c) && forall|y: int| #[trigger] s.contains(y) ==> c <= y);
    }
}

/// What pinning gives each slot. An open-suit rank becomes one card of that
/// rank, available and not yet taken, so the deck is left holding the same
/// ranks in the same numbers; no card is handed out twice; and any other
/// slot stays as it is.
pub proof fn lemma_pinning_keeps_ranks(slots: Seq<Set<int>>, available: Set<int>, taken: Set<int>)
    requires
        pin_slots(slots, available, taken) is Some,
    ensures
        ({
            let out = pin_slots(slots, available, taken)->0;
            &&& out.len() == slots.len()
            &&& forall|i: int| 0 <= i < slots.len() && !rank_shaped(slots[i]) ==> #[trigger] out[i] == slots[i]
            &&& forall|i: int| 0 <= i < slots.len() && rank_shaped(slots[i]) ==> #[trigger] out[i] != Set::<int>::empty()
            &&& forall|i: int, x: int|
                0 <= i < slots.len() && rank_shaped(slots[i]) && #[trigger] out[i].contains(x) ==> out[i]
                    == Set::<int>::empty().insert(x) && slots[i].contains(x) && available.contains(x)
                    && !taken.contains(x)
            &&& forall|i: int, j: int|
                #![trigger out[i], out[j]]
                0 <= i < j < slots.len() && rank_shaped(slots[i]) && rank_shaped(slots[j]) ==> out[i]
                    != out[j]
        }),
    decreases slots.len(),
{
    if slots.len() > 0 {
        let s = slots[0];
        let rest = slots.drop_first();
        let out = pin_slots(slots, available, taken)->0;
        if rank_shaped(s) {
            let pool = s.intersect(available).difference(taken);
            let c = lowest(pool);
            assert(pool.contains(c) && forall|y: int| #[trigger] pool.contains(y) ==> c <= y) by {
                let r = choose|r: Rank| s == #[trigger] rank_indices(r);
                vstd::set_lib::lemma_int_range(0, 52);
                assert(s.subset_of(vstd::set_lib::set_int_range(0, 52)));
                vstd::set_lib::lemma_set_subset_finite(vstd::set_lib::set_int_range(0, 52), s);
                assert(pool.subset_of(s));
                vstd::set_lib::lemma_set_subset_finite(s, pool);
                lemma_lowest_exists(pool);
            }
            lemma_pinning_keeps_ranks(rest, available, taken.insert(c));
            let tail = pin_slots(rest, available, taken.insert(c))->0;
            assert(out == seq![Set::<int>::empty().insert(c)] + tail);
            assert forall|i: int| 0 <= i < slots.len() && !rank_shaped(slots[i]) implies #[trigger] out[i] == slots[i] by {
                assert(out[i] == tail[i - 1] && slots[i] == rest[i - 1]);
            }
            assert forall|i: int| 0 <= i < slots.len() && rank_shaped(slots[i]) implies #[trigger] out[i] != Set::<int>::empty() by {
                if i == 0 {
                    assert(out[0].contains(c));
                } else {
                    assert(out[i] == tail[i - 1] && slots[i] == rest[i - 1]);
                }
            }
            assert forall|i: int, x: int|
                0 <= i < slots.len() && rank_shaped(slots[i]) && #[trigger] out[i].contains(x) implies out[i]
                    == Set::<int>::empty().insert(x) && slots[i].contains(x) && available.contains(x)
                    && !taken.contains(x) by {
                if i > 0 {
                    assert(out[i] == tail[i - 1] && slots[i] == rest[i - 1]);
                    assert(tail[i - 1].contains(x));
                }
            }
            assert forall|i: int, j: int|
                #![trigger out[i], out[j]]
                0 <= i < j < slots.len() && rank_shaped(slots[i]) && rank_shaped(slots[j]) implies out[i]
                    != out[j] by {
                assert(out[j] == tail[j - 1] && slots[j] == rest[j - 1]);
                if i == 0 {
                    if out[0] == out[j] {
                        assert(out[j].contains(c));
                        assert(tail[j - 1].contains(c));
                    }
                } else {
                    assert(out[i] == tail[i - 1] && slots[i] == rest[i - 1]);
                }
            }
        } else {
            lemma_pinning_keeps_ranks(rest, available, taken);
            let tail = pin_slots(rest, available, taken)->0;
            assert(out == seq![s] + tail);
            assert forall|i: int| 0 <= i < slots.len() && !rank_shaped(slots[i]) implies #[trigger] out[i] == slots[i] by {
                if i > 0 {
                    assert(out[i] == tail[i - 1] && slots[i] == rest[i - 1]);
                }
            }
            assert forall|i: int| 0 <= i < slots.len() && rank_shaped(slots[i]) implies #[trigger] out[i] != Set::<int>::empty() by {
                assert(out[i] == tail[i - 1] && slots[i] == rest[i - 1]);
            }
            assert forall|i: int, x: int|
                0 <= i < slots.len() && rank_shaped(slots[i]) && #[trigger] out[i].contains(x) implies out[i]
                    == Set::<int>::empty().insert(x) && slots[i].contains(x) && available.contains(x)
                    && !taken.contains(x) by {
                assert(out[i] == tail[i - 1] && slots[i] == rest[i - 1]);
                assert(tail[i - 1].contains(x));
            }
            assert forall|i: int, j: int|
                #![trigger out[i], out[j]]
                0 <= i < j < slots.len() && rank_shaped(slots[i]) && rank_shaped(slots[j]) implies out[i]
                    != out[j] by {
                assert(out[j] == tail[j - 1] && slots[j] == rest[j - 1]);
                assert(out[i] == tail[i - 1] && slots[i] == rest[i - 1]);
            }
        }
    }
}

/// The first alternative of each hand, one after another.
pub open spec fn first_slots(hands: Seq<HandSpec>) -> Seq<CardSet>
    decreases hands.len(),
{
    if hands.len() == 0 {
        seq![]
    } else {
        first_slots(hands.drop_last()) + hands.last().rows()[0]
    }
}

/// What pinning gives, given what `pin_slots` makes of every slot: each
/// hand's one alternative in turn, then the board.
pub open spec fn pinned_outcome(
    hands: Seq<HandSpec>,
    board: Seq<CardSet>,
    pinned: Seq<Set<int>>,
    r: (Vec<HandSpec>, Vec<CardSet>),
) -> bool {
    &&& r.0@.len() == hands.len()
    &&& forall|h: int|
        0 <= h < hands.len() ==> (#[trigger] r.0@[h])@ == seq![
            pinned.subrange(
                first_slots(hands.take(h)).len() as int,
                first_slots(hands.take(h + 1)).len() as int,
            ),
        ]
    &&& r.1@.map_values(|s: CardSet| s@) == pinned.skip(first_slots(hands).len() as int)
}

/// The first alternative of the first `h + 1` hands is that of the first `h`
/// and then hand `h`'s.
proof fn lemma_first_slots_step(hands: Seq<HandSpec>, h: int)
    requires
        0 <= h < hands.len(),
    ensures
        first_slots(hands.take(h + 1)) == first_slots(hands.take(h)) + hands[h].rows()[0],
{
    assert(hands.take(h + 1).drop_last() =~= hands.take(h));
    assert(hands.take(h + 1).last() == hands[h]);
}

/// The lowest card of a set that is not empty.
fn lowest_card(pool: CardSet) -> (r: Card)
    requires
        pool@ != Set::<int>::empty(),
    ensures
        r.idx() == lowest(pool@),
        pool@.contains(r.idx() as int),
{
    let n = pool.len();
    proof {
        if n == 0 {
            vstd::set_lib::lemma_set_empty_equivalency_len(pool@);
        }
    }
    let cards = pool.iter();
    let card = cards[0];
    proof {
        pool.lemma_nothing_below(card.idx());
        let c = card.idx() as int;
        assert(pool@.contains(c) && forall|y: int| #[trigger] pool@.contains(y) ==> c <= y);
        let l = lowest(pool@);
        assert(pool@.contains(l) && forall|y: int| #[trigger] pool@.contains(y) ==> l <= y);
        assert(l <= c && c <= l);
    }
    card
}

/// Gives every open-suit rank slot one particular card of that rank.
///
/// Only sound where suits cannot affect scoring, and there it costs nothing
/// and saves a great deal. `A23` in razz means an ace, a deuce and a three of
/// no particular suit; pinning them to `Ah 2c 3d` leaves the deck holding
/// exactly the same ranks in exactly the same numbers, so razz cannot tell
/// the difference -- and the slots become single cards.
///
/// Returns `None` when the request should be left alone: a seat offering
/// several holdings, where the pinning would have to be consistent across
/// alternatives that are meant to be exclusive; or a rank with no card left
/// to give, which is a request the feasibility check should report in its own
/// words rather than one this should quietly mangle.
pub fn pin_open_suits(hands: &[HandSpec], board: &[CardSet], available: CardSet) -> (r: Option<
    (Vec<HandSpec>, Vec<CardSet>),
>)
    ensures
        (exists|h: int| 0 <= h < hands@.len() && (#[trigger] hands@[h]).alternatives@.len() != 1)
            ==> r is None,
        (forall|h: int| 0 <= h < hands@.len() ==> (#[trigger] hands@[h]).alternatives@.len() == 1)
            ==> ({
            let all = first_slots(hands@) + board@;
            let taken = Set::new(|x: int| named_by(all, x));
            match pin_slots(all.map_values(|s: CardSet| s@), available@, taken) {
                None => r is None,
                Some(p) => (r matches Some(out) && pinned_outcome(hands@, board@, p, out)),
            }
        }),
{
    let mut h: usize = 0;
    while h < hands.len()
        invariant
            0 <= h <= hands@.len(),
            forall|g: int| 0 <= g < h ==> (#[trigger] hands@[g]).alternatives@.len() == 1,
        decreases hands@.len() - h,
    {
        if hands[h].alternatives.len() != 1 {
            return None;
        }
        h = h + 1;
    }
    // Every slot, the hands' first and then the board's.
    let mut all: Vec<CardSet> = Vec::new();
    let mut h: usize = 0;
    assert(hands@.take(0) =~= Seq::<HandSpec>::empty());
    while h < hands.len()
        invariant
            0 <= h <= hands@.len(),
            forall|g: int| 0 <= g < hands@.len() ==> (#[trigger] hands@[g]).alternatives@.len() == 1,
            all@ == first_slots(hands@.take(h as int)),
        decreases hands@.len() - h,
    {
        let slots = &hands[h].alternatives[0];
        assert(slots@ == hands@[h as int].rows()[0]);
        let mut k: usize = 0;
        let ghost start = all@;
        while k < slots.len()
            invariant
                0 <= k <= slots@.len(),
                all@ == start + slots@.take(k as int),
            decreases slots@.len() - k,
        {
            all.push(slots[k]);
            assert(slots@.take(k + 1) =~= slots@.take(k as int).push(slots@[k as int]));
            k = k + 1;
        }
        assert(slots@.take(slots@.len() as int) =~= slots@);
        proof {
            lemma_first_slots_step(hands@, h as int);
        }
        h = h + 1;
    }
    assert(hands@.take(hands@.len() as int) =~= hands@);
    let hand_slots = all.len();
    let mut b: usize = 0;
    let ghost front = all@;
    while b < board.len()
        invariant
            0 <= b <= board@.len(),
            all@ == front + board@.take(b as int),
        decreases board@.len() - b,
    {
        all.push(board[b]);
        assert(board@.take(b + 1) =~= board@.take(b as int).push(board@[b as int]));
        b = b + 1;
    }
    assert(board@.take(board@.len() as int) =~= board@);
    let ghost every = first_slots(hands@) + board@;
    assert(all@ == every);
    let ghost views = every.map_values(|s: CardSet| s@);
    // A card named outright is already spoken for and cannot be handed to a
    // rank slot as well.
    let mut taken = single_cards(&all);
    let ghost taken0 = taken@;
    let mut out: Vec<CardSet> = Vec::new();
    let mut i: usize = 0;
    assert(views.skip(0) =~= views);
    while i < all.len()
        invariant
            0 <= i <= all@.len(),
            all@ == every,
            every == first_slots(hands@) + board@,
            taken0 == Set::new(|x: int| named_by(every, x)),
            views == every.map_values(|s: CardSet| s@),
            out@.len() == i,
            pin_slots(views, available@, taken0) == match pin_slots(views.skip(i as int), available@, taken@) {
                None => None,
                Some(rest) => Some(out@.map_values(|s: CardSet| s@) + rest),
            },
        decreases all@.len() - i,
    {
        let slot = all[i];
        let ghost rest = views.skip(i as int);
        assert(rest[0] == slot@);
        assert(rest.drop_first() =~= views.skip(i + 1));
        let ghost before = out@.map_values(|s: CardSet| s@);
        if names_only_a_rank(slot) {
            let pool = slot.intersection(available).without(taken);
            if pool.is_empty() {
                assert(pin_slots(rest, available@, taken@) is None);
                assert(pin_slots(views, available@, taken0) is None);
                return None;
            }
            let card = lowest_card(pool);
            let ghost c = card.idx() as int;
            taken.insert(card);
            let named = vec![card];
            let one = CardSet::from_cards(named.as_slice());
            assert(named@ == seq![card]);
            assert(seq![card].map_values(|x: Card| x.idx() as int) =~= seq![c]);
            assert forall|y: int| seq![c].to_set().contains(y) == (y == c) by {
                if y == c {
                    assert(seq![c][0] == c);
                }
            }
            assert(one@ =~= Set::<int>::empty().insert(c));
            out.push(one);
        } else {
            out.push(slot);
        }
        assert(out@.map_values(|s: CardSet| s@) =~= before.push(out@[i as int]@));
        proof {
            if let Some(tail) = pin_slots(views.skip(i + 1), available@, taken@) {
                assert(before.push(out@[i as int]@) + tail =~= before + (seq![out@[i as int]@] + tail));
            }
        }
        i = i + 1;
    }
    assert(views.skip(all@.len() as int) =~= Seq::<Set<int>>::empty());
    let ghost pinned = out@.map_values(|s: CardSet| s@);
    assert(pin_slots(views, available@, taken0) == Some(pinned)) by {
        assert(pinned + Seq::<Set<int>>::empty() =~= pinned);
    }
    // Back into hands, then the board.
    let mut specs: Vec<HandSpec> = Vec::new();
    let mut off: usize = 0;
    let mut h: usize = 0;
    while h < hands.len()
        invariant
            0 <= h <= hands@.len(),
            forall|g: int| 0 <= g < hands@.len() ==> (#[trigger] hands@[g]).alternatives@.len() == 1,
            out@.len() == every.len(),
            pinned == out@.map_values(|s: CardSet| s@),
            every == first_slots(hands@) + board@,
            off == first_slots(hands@.take(h as int)).len(),
            first_slots(hands@.take(h as int)).len() <= first_slots(hands@).len(),
            specs@.len() == h,
            forall|g: int|
                0 <= g < h ==> (#[trigger] specs@[g])@ == seq![
                    pinned.subrange(
                        first_slots(hands@.take(g)).len() as int,
                        first_slots(hands@.take(g + 1)).len() as int,
                    ),
                ],
        decreases hands@.len() - h,
    {
        let width = hands[h].alternatives[0].len();
        proof {
            lemma_first_slots_step(hands@, h as int);
            lemma_first_slots_prefix(hands@, h + 1);
            assert(hands@[h as int].rows()[0].len() == width);
        }
        assert(off + width <= out.len());
        let mut chunk: Vec<CardSet> = Vec::new();
        let mut k: usize = 0;
        while k < width
            invariant
                0 <= k <= width,
                off + width <= out.len(),
                chunk@ == out@.subrange(off as int, off + k),
            decreases width - k,
        {
            chunk.push(out[off + k]);
            assert(out@.subrange(off as int, off + k + 1) =~= out@.subrange(off as int, off + k).push(
                out@[off + k],
            ));
            k = k + 1;
        }
        let spec = HandSpec::from_slots(chunk.as_slice());
        assert(spec@[0] =~= pinned.subrange(off as int, off + width));
        specs.push(spec);
        off = off + width;
        h = h + 1;
    }
    assert(hands@.take(hands@.len() as int) =~= hands@);
    let mut shared: Vec<CardSet> = Vec::new();
    let mut k: usize = off;
    while k < out.len()
        invariant
            off <= k <= out@.len(),
            shared@ == out@.subrange(off as int, k as int),
        decreases out@.len() - k,
    {
        shared.push(out[k]);
        assert(out@.subrange(off as int, k + 1) =~= out@.subrange(off as int, k as int).push(out@[k as int]));
        k = k + 1;
    }
    assert(shared@.map_values(|s: CardSet| s@) =~= pinned.skip(first_slots(hands@).len() as int));
    assert(pinned_outcome(hands@, board@, pinned, (specs, shared)));
    assert(every == first_slots(hands@) + board@);
    assert(taken0 == Set::new(|x: int| named_by(every, x)));
    Some((specs, shared))
}

/// The first alternatives of the first `h` hands are no more than all of
/// them.
proof fn lemma_first_slots_prefix(hands: Seq<HandSpec>, h: int)
    requires
        0 <= h <= hands.len(),
    ensures
        first_slots(hands.take(h)).len() <= first_slots(hands).len(),
    decreases hands.len() - h,
{
    if h < hands.len() {
        lemma_first_slots_step(hands, h);
        lemma_first_slots_prefix(hands, h + 1);
    } else {
        assert(hands.take(h) =~= hands);
    }
}

/// A hand field as the request reads it: its alternatives, each a list of
/// slots, each slot the set of cards it admits.
pub type FieldView = Seq<Seq<Set<int>>>;

/// How many cards a stud hand holds on the street it starts from: two down
/// and one up.
pub const THIRD_STREET: usize = 3;

/// Whether `players` seats at `variant` run the deck out, so that the last
/// card is shared.
pub open spec fn shares_last<V: PokerVariant>(variant: V, players: nat) -> bool {
    variant.family() == PokerType::Stud && players * variant.private_cards() > variant.deck_cards().len()
}

/// How many cards each seat is dealt privately.
pub open spec fn seat_cards<V: PokerVariant>(variant: V, players: nat) -> nat {
    if shares_last(variant, players) {
        (variant.private_cards() - 1) as nat
    } else {
        variant.private_cards()
    }
}

/// How many cards the board holds, the shared last card included.
pub open spec fn board_slots<V: PokerVariant>(variant: V, players: nat) -> nat {
    if shares_last(variant, players) {
        variant.board_size() + 1
    } else {
        variant.board_size()
    }
}

/// How many seats the deck can deal once the board is set aside.
pub open spec fn seat_room<V: PokerVariant>(variant: V, players: nat) -> nat {
    let deck = variant.deck_cards().len();
    let board = board_slots(variant, players);
    let left: nat = if deck > board {
        (deck - board) as nat
    } else {
        0
    };
    let hole = seat_cards(variant, players);
    if hole == 0 {
        left
    } else {
        left / hole
    }
}

/// What stud asks of the hands: every field on the same street, and that
/// street third or later.
pub open spec fn stud_fault(hands: Seq<FieldView>) -> Option<EquityError> {
    let first = slot_count_of(hands[0]);
    if exists|i: int| 0 <= i < hands.len() && slot_count_of(#[trigger] hands[i]) != first {
        Some(EquityError::UnequalHandSizes)
    } else {
        match first {
            Some(c) => if c < THIRD_STREET {
                Some(EquityError::NotEnoughCards(c as usize))
            } else {
                None
            },
            None => None,
        }
    }
}

/// Each alternative filled out to `width` slots with slots that take any
/// card.
pub open spec fn padded_to(field: FieldView, width: nat) -> FieldView {
    field.map_values(|a: Seq<Set<int>>| a + Seq::new((width - a.len()) as nat, |k: int| deck_indices()))
}

/// One hand filled out to `hole` slots: a field of another width is a
/// miscount, unless cards arrive over time and it is short.
pub open spec fn pad_field(field: FieldView, hole: nat, over_time: bool) -> Result<FieldView, EquityError> {
    match slot_count_of(field) {
        None => Err(EquityError::UnequalHandSizes),
        Some(c) => if c == hole || (c < hole && over_time) {
            Ok(padded_to(field, hole))
        } else {
            Err(EquityError::NotEnoughCards(c as usize))
        },
    }
}

/// Every hand filled out in turn, or the first hand's fault.
pub open spec fn pad_fields(hands: Seq<FieldView>, hole: nat, over_time: bool) -> Result<
    Seq<FieldView>,
    EquityError,
>
    decreases hands.len(),
{
    if hands.len() == 0 {
        Ok(seq![])
    } else {
        match pad_fields(hands.drop_last(), hole, over_time) {
            Err(e) => Err(e),
            Ok(front) => match pad_field(hands.last(), hole, over_time) {
                Err(e) => Err(e),
                Ok(field) => Ok(front.push(field)),
            },
        }
    }
}

/// The cards named outright by a slot of `slots`.
pub open spec fn one_card_slots(slots: Seq<Set<int>>) -> Set<int> {
    Set::new(|x: int| exists|k: int| 0 <= k < slots.len() && slots[k].len() == 1 && #[trigger] slots[k].contains(x))
}

/// The cards a participant holds in every deal: those every alternative
/// names outright.
pub open spec fn certain_in(field: FieldView) -> Set<int> {
    if field.len() == 0 {
        Set::empty()
    } else {
        Set::new(|x: int| forall|a: int| 0 <= a < field.len() ==> #[trigger] one_card_slots(field[a]).contains(x))
    }
}

/// The one alternative of each hand, hand after hand.
pub open spec fn opening_slots(hands: Seq<FieldView>) -> Seq<Set<int>>
    decreases hands.len(),
{
    if hands.len() == 0 {
        seq![]
    } else {
        opening_slots(hands.drop_last()) + hands.last()[0]
    }
}

/// The hands and board with every open-suit rank pinned to one card, where
/// every hand has one alternative and each such rank has a card to give.
pub open spec fn pinned_fields(hands: Seq<FieldView>, board: Seq<Set<int>>, available: Set<int>) -> Option<
    (Seq<FieldView>, Seq<Set<int>>),
> {
    if exists|h: int| 0 <= h < hands.len() && (#[trigger] hands[h]).len() != 1 {
        None
    } else {
        let all = opening_slots(hands) + board;
        match pin_slots(all, available, one_card_slots(all)) {
            None => None,
            Some(p) => Some(
                (
                    Seq::new(
                        hands.len(),
                        |h: int|
                            seq![
                                p.subrange(
                                    opening_slots(hands.take(h)).len() as int,
                                    opening_slots(hands.take(h + 1)).len() as int,
                                ),
                            ],
                    ),
                    p.skip(opening_slots(hands).len() as int),
                ),
            ),
        }
    }
}

/// The first card, taking the sets in order and the lowest card first, that
/// a set shares with those before it.
pub open spec fn first_shared(sets: Seq<Set<int>>) -> Option<int>
    decreases sets.len(),
{
    if sets.len() == 0 {
        None
    } else {
        match first_shared(sets.drop_last()) {
            Some(c) => Some(c),
            None => {
                let both = union_all(sets.drop_last()).intersect(sets.last());
                if both == Set::<int>::empty() {
                    None
                } else {
                    Some(lowest(both))
                }
            },
        }
    }
}

/// A request once settled: every hand filled out to the seat's cards, the
/// board filled out to its full size, what is on offer, and who is certain
/// of which cards.
#[derive(Debug)]
pub struct SettledRequest {
    /// The hands, each alternative with as many slots as a seat is dealt.
    pub hands: Vec<HandSpec>,
    /// The board's slots, filled out with slots that take any card.
    pub board: Vec<CardSet>,
    /// The game's deck without the dead cards.
    pub available: CardSet,
    /// Per hand, then the board last, the cards it holds in every deal.
    pub certain: Vec<CardSet>,
    /// Every card somebody is certain of.
    pub spoken_for: CardSet,
    /// How many seats there are.
    pub players: usize,
    /// How many cards each seat is dealt privately.
    pub hole: usize,
    /// How many cards the board holds.
    pub board_slots: usize,
}

/// Whether some hand has no alternative that a deal could give.
pub open spec fn some_hand_unsatisfiable(hands: Seq<FieldView>) -> bool {
    exists|i: int| 0 <= i < hands.len() && !satisfiable(#[trigger] hands[i])
}

/// Each slot of a hand widened to every card that any of its alternatives
/// admits there; a hand whose alternatives disagree in size has none.
pub open spec fn widened(field: FieldView) -> Seq<Set<int>> {
    let width = match slot_count_of(field) {
        Some(w) => w,
        None => 0,
    };
    Seq::new(
        width,
        |k: int| Set::new(|x: int| exists|a: int| 0 <= a < field.len() && #[trigger] field[a][k].contains(x)),
    )
}

/// Every hand's widened slots, hand after hand.
pub open spec fn widened_all(hands: Seq<FieldView>) -> Seq<Set<int>>
    decreases hands.len(),
{
    if hands.len() == 0 {
        seq![]
    } else {
        widened_all(hands.drop_last()) + widened(hands.last())
    }
}

/// What settling a request gives: the first check it fails, in the order
/// they are made, or the settled request.
pub open spec fn settled_outcome<V: PokerVariant>(
    variant: V,
    hands: Seq<FieldView>,
    board: Seq<Set<int>>,
    dead: Set<int>,
    r: Result<SettledRequest, PokerError>,
) -> bool {
    let n = hands.len();
    let deck = variant.deck_cards();
    let hole = seat_cards(variant, n);
    let shared = board_slots(variant, n);
    let stud = variant.family() == PokerType::Stud;
    let over_time = stud || variant.family() == PokerType::Draw;
    if n < 2 {
        r == Err::<SettledRequest, PokerError>(PokerError::Equity(EquityError::NoPlayers))
    } else if n > seat_room(variant, n) {
        r == Err::<SettledRequest, PokerError>(
            PokerError::Equity(EquityError::TooManyPlayers { asked: n as usize, room: seat_room(variant, n) as usize }),
        )
    } else if stud && stud_fault(hands) is Some {
        r == Err::<SettledRequest, PokerError>(PokerError::Equity(stud_fault(hands)->0))
    } else {
        match pad_fields(hands, hole, over_time) {
            Err(e) => r == Err::<SettledRequest, PokerError>(PokerError::Equity(e)),
            Ok(padded) => if some_hand_unsatisfiable(padded) {
                r matches Err(PokerError::Equity(EquityError::Infeasible(m))) && m@ == "a hand"@
            } else if board.len() > shared {
                r == Err::<SettledRequest, PokerError>(
                    PokerError::Equity(EquityError::InvalidCommunityCards(board.len() as usize)),
                )
            } else if board.len() < variant.board_floor() {
                r == Err::<SettledRequest, PokerError>(
                    PokerError::Equity(
                        EquityError::NotEnoughBoardCards {
                            least: variant.board_floor() as usize,
                            found: board.len() as usize,
                        },
                    ),
                )
            } else if dead.difference(deck) != Set::<int>::empty() {
                r == Err::<SettledRequest, PokerError>(
                    PokerError::Game(GameError::NotInDeck(card_at(lowest(dead.difference(deck)) as nat))),
                )
            } else {
                let available = deck.difference(dead);
                let full_board = board + Seq::new((shared - board.len()) as nat, |k: int| deck_indices());
                let pinned = if !variant.suits_count() && pinned_fields(padded, full_board, available) is Some {
                    pinned_fields(padded, full_board, available)->0
                } else {
                    (padded, full_board)
                };
                let certain = Seq::new(n, |i: int| certain_in(pinned.0[i])).push(certain_in(seq![pinned.1]));
                let spoken = union_all(certain);
                match first_shared(certain) {
                    Some(c) => r == Err::<SettledRequest, PokerError>(
                        PokerError::Game(GameError::DuplicateCard(card_at(c as nat))),
                    ),
                    None => if spoken.difference(available) != Set::<int>::empty() {
                        let c = lowest(spoken.difference(available));
                        if deck.contains(c) {
                            r == Err::<SettledRequest, PokerError>(
                                PokerError::Game(GameError::DuplicateCard(card_at(c as nat))),
                            )
                        } else {
                            r == Err::<SettledRequest, PokerError>(
                                PokerError::Game(GameError::NotInDeck(card_at(c as nat))),
                            )
                        }
                    } else if !can_fill(widened_all(pinned.0) + pinned.1, available) {
                        r matches Err(PokerError::Equity(EquityError::Infeasible(m))) && m@
                            == "the hands, board and dead cards together"@
                    } else {
                        r matches Ok(s) && s.hands@.map_values(|h: HandSpec| h@) == pinned.0
                            && s.board@.map_values(|c: CardSet| c@) == pinned.1 && s.available@ == available
                            && s.certain@.map_values(|c: CardSet| c@) == certain && s.spoken_for@ == spoken
                            && s.players == n && s.hole == hole && s.board_slots == shared
                    },
                }
            },
        }
    }
}

/// The hands as the request reads them.
pub open spec fn fields_of(hands: Seq<HandSpec>) -> Seq<FieldView> {
    hands.map_values(|h: HandSpec| h@)
}

/// `slots` followed by slots that take any card, `width` in all.
fn fill_out(slots: &[CardSet], width: usize) -> (r: Vec<CardSet>)
    requires
        slots@.len() <= width,
    ensures
        slots_view(r@) == slots_view(slots@) + Seq::new((width - slots@.len()) as nat, |k: int| deck_indices()),
{
    let mut out: Vec<CardSet> = Vec::new();
    let mut k: usize = 0;
    while k < slots.len()
        invariant
            0 <= k <= slots@.len(),
            out@ == slots@.take(k as int),
        decreases slots@.len() - k,
    {
        out.push(slots[k]);
        assert(slots@.take(k + 1) =~= slots@.take(k as int).push(slots@[k as int]));
        k = k + 1;
    }
    assert(slots@.take(slots@.len() as int) =~= slots@);
    let ghost front = slots_view(slots@);
    while k < width
        invariant
            slots@.len() <= k <= width,
            slots_view(out@) == front + Seq::new((k - slots@.len()) as nat, |j: int| deck_indices()),
        decreases width - k,
    {
        let ghost before = out@;
        out.push(CardSet::FULL_DECK());
        assert(slots_view(out@) =~= slots_view(before).push(deck_indices()));
        assert(Seq::new((k + 1 - slots@.len()) as nat, |j: int| deck_indices()) =~= Seq::new(
            (k - slots@.len()) as nat,
            |j: int| deck_indices(),
        ).push(deck_indices()));
        k = k + 1;
    }
    out
}

/// Every alternative of `spec` filled out to `width` slots.
fn fill_out_hand(spec: &HandSpec, width: usize) -> (r: HandSpec)
    requires
        forall|a: int| 0 <= a < spec@.len() ==> (#[trigger] spec@[a]).len() <= width,
    ensures
        r@ == padded_to(spec@, width as nat),
{
    let mut alternatives: Vec<Vec<CardSet>> = Vec::new();
    let mut a: usize = 0;
    while a < spec.alternatives.len()
        invariant
            0 <= a <= spec@.len(),
            spec@.len() == spec.alternatives@.len(),
            forall|b: int| 0 <= b < spec@.len() ==> (#[trigger] spec@[b]).len() <= width,
            alternatives@.map_values(|v: Vec<CardSet>| slots_view(v@)) == padded_to(spec@, width as nat).take(
                a as int,
            ),
        decreases spec@.len() - a,
    {
        assert(spec@[a as int] == slots_view(spec.alternatives@[a as int]@));
        let row = fill_out(spec.alternatives[a].as_slice(), width);
        let ghost before = alternatives@;
        alternatives.push(row);
        assert(alternatives@.map_values(|v: Vec<CardSet>| slots_view(v@)) =~= before.map_values(
            |v: Vec<CardSet>| slots_view(v@),
        ).push(slots_view(row@)));
        assert(padded_to(spec@, width as nat).take(a + 1) =~= padded_to(spec@, width as nat).take(a as int).push(
            padded_to(spec@, width as nat)[a as int],
        ));
        a = a + 1;
    }
    assert(padded_to(spec@, width as nat).take(spec@.len() as int) =~= padded_to(spec@, width as nat));
    HandSpec::from_alternatives(alternatives)
}

/// Whether two counts of slots agree.
fn same_count(a: Option<usize>, b: Option<usize>) -> (r: bool)
    ensures
        r == (match (a, b) {
            (Some(x), Some(y)) => x == y,
            (None, None) => true,
            _ => false,
        }),
{
    match (a, b) {
        (Some(x), Some(y)) => x == y,
        (None, None) => true,
        _ => false,
    }
}

/// The count of slots a hand reads as.
pub open spec fn count_as_nat(c: Option<usize>) -> Option<nat> {
    match c {
        Some(x) => Some(x as nat),
        None => None,
    }
}

/// What stud asks of the hands: every field on the same street, and that
/// street third or later.
fn stud_check(hands: &[HandSpec]) -> (r: Option<EquityError>)
    requires
        hands@.len() >= 1,
    ensures
        r == stud_fault(fields_of(hands@)),
{
    let ghost fields = fields_of(hands@);
    let first = hands[0].slot_count();
    assert(count_as_nat(first) == slot_count_of(fields[0]));
    let mut i: usize = 1;
    while i < hands.len()
        invariant
            1 <= i <= hands@.len(),
            fields == fields_of(hands@),
            count_as_nat(first) == slot_count_of(fields[0]),
            forall|j: int| 0 <= j < i ==> slot_count_of(#[trigger] fields[j]) == slot_count_of(fields[0]),
        decreases hands@.len() - i,
    {
        let count = hands[i].slot_count();
        assert(count_as_nat(count) == slot_count_of(fields[i as int]));
        if !same_count(count, first) {
            assert(slot_count_of(fields[i as int]) != slot_count_of(fields[0]));
            return Some(EquityError::UnequalHandSizes);
        }
        i = i + 1;
    }
    match first {
        Some(c) => if c < THIRD_STREET {
            Some(EquityError::NotEnoughCards(c))
        } else {
            None
        },
        None => None,
    }
}

/// Once the hands read so far have a fault, the first fault is that one.
proof fn lemma_pad_fault_stays(hands: Seq<FieldView>, j: int, hole: nat, over_time: bool)
    requires
        0 <= j <= hands.len(),
        pad_fields(hands.take(j), hole, over_time) is Err,
    ensures
        pad_fields(hands, hole, over_time) == pad_fields(hands.take(j), hole, over_time),
    decreases hands.len(),
{
    if j == hands.len() {
        assert(hands.take(j) =~= hands);
    } else {
        assert(hands.drop_last().take(j) =~= hands.take(j));
        lemma_pad_fault_stays(hands.drop_last(), j, hole, over_time);
    }
}

/// Every hand filled out to `hole` slots, or the first hand's fault.
fn fill_out_hands(hands: &[HandSpec], hole: usize, over_time: bool) -> (r: Result<Vec<HandSpec>, EquityError>)
    ensures
        match (r, pad_fields(fields_of(hands@), hole as nat, over_time)) {
            (Ok(v), Ok(p)) => fields_of(v@) == p && v@.len() == hands@.len(),
            (Err(e), Err(f)) => e == f,
            _ => false,
        },
{
    let ghost fields = fields_of(hands@);
    let mut out: Vec<HandSpec> = Vec::new();
    let mut i: usize = 0;
    assert(fields.take(0) =~= Seq::<FieldView>::empty());
    assert(fields_of(out@) =~= Seq::<FieldView>::empty());
    while i < hands.len()
        invariant
            0 <= i <= hands@.len(),
            fields == fields_of(hands@),
            pad_fields(fields.take(i as int), hole as nat, over_time) == Ok::<Seq<FieldView>, EquityError>(
                fields_of(out@),
            ),
            out@.len() == i,
        decreases hands@.len() - i,
    {
        let spec = &hands[i];
        assert(fields[i as int] == spec@);
        assert(fields.take(i + 1).drop_last() =~= fields.take(i as int));
        assert(fields.take(i + 1).last() == fields[i as int]);
        let count = spec.slot_count();
        match count {
            None => {
                proof {
                    lemma_pad_fault_stays(fields, i + 1, hole as nat, over_time);
                }
                return Err(EquityError::UnequalHandSizes);
            },
            Some(c) => {
                if c == hole || (c < hole && over_time) {
                    assert forall|a: int| 0 <= a < spec@.len() implies (#[trigger] spec@[a]).len() <= hole by {
                        assert(spec@[a].len() == spec@[0].len());
                    }
                    let filled = fill_out_hand(spec, hole);
                    let ghost before = out@;
                    out.push(filled);
                    assert(fields_of(out@) =~= fields_of(before).push(filled@));
                } else {
                    proof {
                        lemma_pad_fault_stays(fields, i + 1, hole as nat, over_time);
                    }
                    return Err(EquityError::NotEnoughCards(c));
                }
            },
        }
        i = i + 1;
    }
    assert(fields.take(hands@.len() as int) =~= fields);
    Ok(out)
}

/// Certainty reads the same through the slots' views.
proof fn lemma_certain_views(alternatives: Seq<Seq<CardSet>>)
    ensures
        certain_of(alternatives) == certain_in(alternatives.map_values(|a: Seq<CardSet>| slots_view(a))),
{
    let fields = alternatives.map_values(|a: Seq<CardSet>| slots_view(a));
    assert forall|a: int, x: int| 0 <= a < alternatives.len() implies named_by(alternatives[a], x)
        == #[trigger] one_card_slots(fields[a]).contains(x) by {
        let slots = alternatives[a];
        assert(fields[a] == slots_view(slots));
        if named_by(slots, x) {
            let k = choose|k: int| 0 <= k < slots.len() && slots[k]@.len() == 1 && #[trigger] slots[k]@.contains(x);
            assert(fields[a][k] == slots[k]@);
        }
        if one_card_slots(fields[a]).contains(x) {
            let k = choose|k: int|
                0 <= k < fields[a].len() && fields[a][k].len() == 1 && #[trigger] fields[a][k].contains(x);
            assert(fields[a][k] == slots[k]@);
        }
    }
    if alternatives.len() > 0 {
        assert forall|x: int| certain_of(alternatives).contains(x) == certain_in(fields).contains(x) by {
            if certain_of(alternatives).contains(x) {
                assert forall|a: int| 0 <= a < fields.len() implies #[trigger] one_card_slots(fields[a]).contains(x) by {
                    assert(named_by(alternatives[a], x));
                }
            }
            if certain_in(fields).contains(x) {
                assert forall|a: int| 0 <= a < alternatives.len() implies named_by(#[trigger] alternatives[a], x) by {
                    assert(one_card_slots(fields[a]).contains(x));
                }
            }
        }
        assert(certain_of(alternatives) =~= certain_in(fields));
    }
}

/// What a hand is certain of, read through its view.
fn certain_of_hand(alternatives: &[Vec<CardSet>]) -> (r: CardSet)
    ensures
        r@ == certain_in(alternatives@.map_values(|a: Vec<CardSet>| slots_view(a@))),
{
    let r = certain_cards(alternatives);
    proof {
        let rows = alternatives@.map_values(|v: Vec<CardSet>| v@);
        lemma_certain_views(rows);
        assert(rows.map_values(|a: Seq<CardSet>| slots_view(a)) =~= alternatives@.map_values(
            |a: Vec<CardSet>| slots_view(a@),
        ));
    }
    r
}

/// The hands' one alternatives, read through their views, are the slots
/// `first_slots` lists.
proof fn lemma_opening_slots(hands: Seq<HandSpec>)
    requires
        forall|h: int| 0 <= h < hands.len() ==> (#[trigger] hands[h]).alternatives@.len() >= 1,
    ensures
        opening_slots(fields_of(hands)) == slots_view(first_slots(hands)),
    decreases hands.len(),
{
    if hands.len() > 0 {
        let front = hands.drop_last();
        assert(fields_of(hands).drop_last() =~= fields_of(front));
        lemma_opening_slots(front);
        let last = hands.last();
        assert(fields_of(hands).last() == last@);
        assert(last@[0] == slots_view(last.alternatives@[0]@));
        assert(last.rows()[0] == last.alternatives@[0]@);
        assert(slots_view(first_slots(hands)) =~= slots_view(first_slots(front)) + slots_view(last.rows()[0]));
    }
}

/// Pinning, read through the views of what goes in and what comes out.
fn pin_fields(hands: &[HandSpec], board: &[CardSet], available: CardSet) -> (r: Option<
    (Vec<HandSpec>, Vec<CardSet>),
>)
    ensures
        match (r, pinned_fields(fields_of(hands@), slots_view(board@), available@)) {
            (None, None) => true,
            (Some(out), Some(p)) => fields_of(out.0@) == p.0 && slots_view(out.1@) == p.1,
            _ => false,
        },
{
    let r = pin_open_suits(hands, board, available);
    proof {
        let fields = fields_of(hands@);
        if exists|h: int| 0 <= h < fields.len() && (#[trigger] fields[h]).len() != 1 {
            let h = choose|h: int| 0 <= h < fields.len() && (#[trigger] fields[h]).len() != 1;
            assert(hands@[h].alternatives@.len() != 1);
        } else {
            assert forall|h: int| 0 <= h < hands@.len() implies (#[trigger] hands@[h]).alternatives@.len() == 1 by {
                assert(fields[h].len() == hands@[h].alternatives@.len());
            }
            let all = first_slots(hands@) + board@;
            let views = all.map_values(|s: CardSet| s@);
            lemma_opening_slots(hands@);
            let all2 = opening_slots(fields) + slots_view(board@);
            assert(views =~= all2);
            let taken = Set::new(|x: int| named_by(all, x));
            assert forall|x: int| taken.contains(x) == one_card_slots(all2).contains(x) by {
                if taken.contains(x) {
                    let k = choose|k: int| 0 <= k < all.len() && all[k]@.len() == 1 && #[trigger] all[k]@.contains(x);
                    assert(all2[k] == all[k]@);
                }
                if one_card_slots(all2).contains(x) {
                    let k = choose|k: int| 0 <= k < all2.len() && all2[k].len() == 1 && #[trigger] all2[k].contains(x);
                    assert(all2[k] == all[k]@);
                }
            }
            assert(taken =~= one_card_slots(all2));
            if let Some(p) = pin_slots(views, available@, taken) {
                let out = r->0;
                assert forall|h: int| 0 <= h <= hands@.len() implies opening_slots(fields.take(h)).len()
                    == #[trigger] first_slots(hands@.take(h)).len() by {
                    assert(fields.take(h) =~= fields_of(hands@.take(h)));
                    lemma_opening_slots(hands@.take(h));
                }
                let want = pinned_fields(fields, slots_view(board@), available@)->0;
                assert forall|h: int| 0 <= h < hands@.len() implies fields_of(out.0@)[h] == want.0[h] by {
                    assert(opening_slots(fields.take(h)).len() == first_slots(hands@.take(h)).len());
                    assert(opening_slots(fields.take(h + 1)).len() == first_slots(hands@.take(h + 1)).len());
                }
                assert(fields_of(out.0@) =~= want.0);
                assert(fields.take(hands@.len() as int) =~= fields);
                assert(hands@.take(hands@.len() as int) =~= hands@);
                assert(opening_slots(fields).len() == first_slots(hands@).len());
                assert(slots_view(out.1@) =~= want.1);
            }
        }
    }
    r
}

/// Once a set shares a card with those before it, the first such card
/// stays the first.
proof fn lemma_shared_stays(sets: Seq<Set<int>>, j: int)
    requires
        0 <= j <= sets.len(),
        first_shared(sets.take(j)) is Some,
    ensures
        first_shared(sets) == first_shared(sets.take(j)),
    decreases sets.len(),
{
    if j == sets.len() {
        assert(sets.take(j) =~= sets);
    } else {
        assert(sets.drop_last().take(j) =~= sets.take(j));
        lemma_shared_stays(sets.drop_last(), j);
    }
}

/// Gathers the cards each participant is certain of, in turn: the first
/// card one of them shares with those before it, or all of them.
fn claim_all(certain: &Vec<CardSet>) -> (r: Result<CardSet, Card>)
    ensures
        match (r, first_shared(slots_view(certain@))) {
            (Err(card), Some(c)) => card.idx() == c,
            (Ok(all), None) => all@ == union_all(slots_view(certain@)),
            _ => false,
        },
{
    let ghost sets = slots_view(certain@);
    let mut spoken = CardSet::EMPTY();
    let mut i: usize = 0;
    assert(sets.take(0) =~= Seq::<Set<int>>::empty());
    while i < certain.len()
        invariant
            0 <= i <= certain@.len(),
            sets == slots_view(certain@),
            spoken@ == union_all(sets.take(i as int)),
            first_shared(sets.take(i as int)) is None,
        decreases certain@.len() - i,
    {
        let claimed = certain[i];
        assert(sets.take(i + 1).drop_last() =~= sets.take(i as int));
        assert(sets.take(i + 1).last() == claimed@);
        let clash = spoken.intersection(claimed);
        if !clash.is_empty() {
            let card = lowest_card(clash);
            proof {
                lemma_shared_stays(sets, i + 1);
            }
            return Err(card);
        }
        spoken = spoken.union(claimed);
        i = i + 1;
    }
    assert(sets.take(certain@.len() as int) =~= sets);
    Ok(spoken)
}

/// Each slot of a hand widened to every card that any of its alternatives
/// admits there.
fn widen(spec: &HandSpec) -> (r: Vec<CardSet>)
    ensures
        slots_view(r@) == widened(spec@),
{
    let ghost field = spec@;
    let width: usize = match spec.slot_count() {
        Some(w) => w,
        None => 0,
    };
    let mut out: Vec<CardSet> = Vec::new();
    let mut k: usize = 0;
    while k < width
        invariant
            field == spec@,
            width == match slot_count_of(field) {
                Some(w) => w,
                None => 0,
            },
            0 <= k <= width,
            slots_view(out@) == widened(field).take(k as int),
        decreases width - k,
    {
        let mut u = CardSet::EMPTY();
        let mut a: usize = 0;
        while a < spec.alternatives.len()
            invariant
                field == spec@,
                width == match slot_count_of(field) {
                    Some(w) => w,
                    None => 0,
                },
                k < width,
                0 <= a <= field.len(),
                field.len() == spec.alternatives@.len(),
                u@ == Set::new(|x: int| exists|b: int| 0 <= b < a && #[trigger] field[b][k as int].contains(x)),
            decreases field.len() - a,
        {
            assert(field[a as int] == slots_view(spec.alternatives@[a as int]@));
            assert(field[a as int].len() == field[0].len());
            let slot = spec.alternatives[a][k];
            assert(field[a as int][k as int] == slot@);
            let ghost before = u@;
            u = u.union(slot);
            assert(u@ =~= Set::new(|x: int| exists|b: int| 0 <= b < a + 1 && #[trigger] field[b][k as int].contains(x))) by {
                assert forall|x: int| u@.contains(x) implies exists|b: int| 0 <= b < a + 1 && #[trigger] field[b][k as int].contains(x) by {
                    if slot@.contains(x) {
                        assert(field[a as int][k as int].contains(x));
                    }
                }
            }
            a = a + 1;
        }
        let ghost before = out@;
        out.push(u);
        assert(slots_view(out@) =~= slots_view(before).push(u@));
        assert(widened(field).take(k + 1) =~= widened(field).take(k as int).push(widened(field)[k as int]));
        assert(u@ =~= widened(field)[k as int]);
        k = k + 1;
    }
    assert(widened(field).take(width as int) =~= widened(field));
    out
}

/// Every hand's widened slots, then the board's.
fn every_slot(hands: &Vec<HandSpec>, board: &Vec<CardSet>) -> (r: Vec<CardSet>)
    ensures
        slots_view(r@) == widened_all(fields_of(hands@)) + slots_view(board@),
{
    let ghost fields = fields_of(hands@);
    let mut out: Vec<CardSet> = Vec::new();
    let mut h: usize = 0;
    assert(fields.take(0) =~= Seq::<FieldView>::empty());
    assert(slots_view(out@) =~= Seq::<Set<int>>::empty());
    while h < hands.len()
        invariant
            fields == fields_of(hands@),
            0 <= h <= hands@.len(),
            slots_view(out@) == widened_all(fields.take(h as int)),
        decreases hands@.len() - h,
    {
        let row = widen(&hands[h]);
        let mut k: usize = 0;
        let ghost start = out@;
        while k < row.len()
            invariant
                0 <= k <= row@.len(),
                out@ == start + row@.take(k as int),
            decreases row@.len() - k,
        {
            out.push(row[k]);
            assert(row@.take(k + 1) =~= row@.take(k as int).push(row@[k as int]));
            k = k + 1;
        }
        assert(row@.take(row@.len() as int) =~= row@);
        assert(fields.take(h + 1).drop_last() =~= fields.take(h as int));
        assert(fields.take(h + 1).last() == hands@[h as int]@);
        assert(slots_view(out@) =~= slots_view(start) + slots_view(row@));
        h = h + 1;
    }
    assert(fields.take(hands@.len() as int) =~= fields);
    let mut b: usize = 0;
    let ghost front = out@;
    while b < board.len()
        invariant
            0 <= b <= board@.len(),
            out@ == front + board@.take(b as int),
        decreases board@.len() - b,
    {
        out.push(board[b]);
        assert(board@.take(b + 1) =~= board@.take(b as int).push(board@[b as int]));
        b = b + 1;
    }
    assert(board@.take(board@.len() as int) =~= board@);
    assert(slots_view(out@) =~= slots_view(front) + slots_view(board@));
    out
}

/// Settles an equity question: checks it, in a fixed order, and fills it
/// out to the shape every deal of the game has.
///
/// Refuses fewer than two hands, and more seats than the deck covers. In
/// stud, every hand must be on the same street, third or later. A hand
/// shorter than a seat's cards is filled out with slots that take any card
/// where cards arrive over time (stud and draw), and is a miscount
/// elsewhere; so is a longer one. A hand no deal can give is refused; so is a
/// board longer than the game's, or shorter than the game turns face up
/// before the betting, and a dead card the game's deck never held. The board
/// is filled out with slots that take any card. Where suits do not matter,
/// every open-suit rank is pinned to one card of that rank where it can be.
/// Finally a card that two participants are both certain of is named, and so
/// is a card somebody is certain of that is dead or not in the deck.
///
/// Last, the slots together must be fillable at once: every slot of every
/// hand, widened to the cards any of its alternatives admits there, and
/// every board slot, each given an available card of its own. A request
/// where no such assignment exists is refused; one where it exists may still
/// have no deal once the alternatives are taken one at a time, which is left
/// to the deal.
pub fn settle_request<V: PokerVariant>(variant: V, hands: &[HandSpec], board: &[CardSet], dead: CardSet) -> (r: Result<
    SettledRequest,
    PokerError,
>)
    requires
        hands@.len() >= 2 && shares_last(variant, hands@.len() as nat) ==> variant.board_size() < usize::MAX,
    ensures
        settled_outcome(variant, fields_of(hands@), slots_view(board@), dead@, r),
{
    let ghost fields = fields_of(hands@);
    let n = hands.len();
    if n < 2 {
        return Err(PokerError::Equity(EquityError::NoPlayers));
    }
    let shared_last = last_card_is_shared(variant, n);
    let private = variant.hole_cards();
    proof {
        if shared_last && private == 0 {
            assert(n * private == 0) by (nonlinear_arith)
                requires
                    private == 0,
            ;
        }
    }
    let hole: usize = if shared_last {
        private - 1
    } else {
        private
    };
    let shared: usize = if shared_last {
        variant.board_cards() + 1
    } else {
        variant.board_cards()
    };
    let deck = variant.deck();
    let deck_len = deck.len() as usize;
    let left: usize = if deck_len > shared {
        deck_len - shared
    } else {
        0
    };
    let room: usize = if hole == 0 {
        left
    } else {
        left / hole
    };
    assert(hole == seat_cards(variant, n as nat));
    assert(shared == board_slots(variant, n as nat));
    assert(room == seat_room(variant, n as nat));
    if n > room {
        return Err(PokerError::Equity(EquityError::TooManyPlayers { asked: n, room }));
    }
    let family = variant.poker_type();
    let stud = family == PokerType::Stud;
    let over_time = stud || family == PokerType::Draw;
    if stud {
        if let Some(e) = stud_check(hands) {
            return Err(PokerError::Equity(e));
        }
    }
    let padded = match fill_out_hands(hands, hole, over_time) {
        Err(e) => {
            return Err(PokerError::Equity(e));
        },
        Ok(v) => v,
    };
    let ghost padded_fields = fields_of(padded@);
    let mut i: usize = 0;
    while i < padded.len()
        invariant
            0 <= i <= padded@.len(),
            padded_fields == fields_of(padded@),
            padded@.len() == n,
            n == hands@.len(),
            fields == fields_of(hands@),
            pad_fields(fields, hole as nat, over_time) == Ok::<Seq<FieldView>, EquityError>(padded_fields),
            !(stud && stud_fault(fields) is Some),
            n >= 2,
            n <= seat_room(variant, n as nat),
            hole == seat_cards(variant, n as nat),
            stud == (variant.family() == PokerType::Stud),
            over_time == (stud || variant.family() == PokerType::Draw),
            forall|j: int| 0 <= j < i ==> satisfiable(#[trigger] padded_fields[j]),
        decreases padded@.len() - i,
    {
        assert(padded_fields[i as int] == padded@[i as int]@);
        if !padded[i].is_satisfiable() {
            assert(!satisfiable(padded_fields[i as int]));
            assert(some_hand_unsatisfiable(padded_fields));
            return Err(PokerError::Equity(EquityError::Infeasible(crate::text::string_of("a hand"))));
        }
        i = i + 1;
    }
    if board.len() > shared {
        return Err(PokerError::Equity(EquityError::InvalidCommunityCards(board.len())));
    }
    let least = variant.least_board_cards();
    if board.len() < least {
        return Err(PokerError::Equity(EquityError::NotEnoughBoardCards { least, found: board.len() }));
    }
    let strays = dead.without(deck);
    if !strays.is_empty() {
        let card = lowest_card(strays);
        return Err(PokerError::Game(GameError::NotInDeck(card)));
    }
    let available = deck.without(dead);
    let full_board = fill_out(board, shared);
    let (hands_now, board_now) = if !variant.suits_matter() {
        match pin_fields(padded.as_slice(), full_board.as_slice(), available) {
            Some(pair) => pair,
            None => (padded, full_board),
        }
    } else {
        (padded, full_board)
    };
    let ghost full = slots_view(board@) + Seq::new((shared - board@.len()) as nat, |k: int| deck_indices());
    let ghost pinned = if !variant.suits_count() && pinned_fields(padded_fields, full, available@) is Some {
        pinned_fields(padded_fields, full, available@)->0
    } else {
        (padded_fields, full)
    };
    assert(fields_of(hands_now@) == pinned.0 && slots_view(board_now@) == pinned.1);
    assert(hands_now@.len() == n);
    let mut certain: Vec<CardSet> = Vec::new();
    let mut h: usize = 0;
    while h < hands_now.len()
        invariant
            0 <= h <= hands_now@.len(),
            slots_view(certain@) == Seq::new(h as nat, |j: int| certain_in(fields_of(hands_now@)[j])),
        decreases hands_now@.len() - h,
    {
        let these = certain_of_hand(hands_now[h].alternatives.as_slice());
        let ghost before = certain@;
        certain.push(these);
        assert(fields_of(hands_now@)[h as int] == hands_now@[h as int]@);
        assert(slots_view(certain@) =~= slots_view(before).push(these@));
        assert(slots_view(certain@) =~= Seq::new((h + 1) as nat, |j: int| certain_in(fields_of(hands_now@)[j])));
        h = h + 1;
    }
    let copy = fill_out(board_now.as_slice(), board_now.len());
    let board_alternatives = vec![copy];
    let on_board = certain_of_hand(board_alternatives.as_slice());
    proof {
        assert(slots_view(copy@) =~= slots_view(board_now@));
        assert(board_alternatives@.map_values(|a: Vec<CardSet>| slots_view(a@)) =~= seq![slots_view(board_now@)]);
    }
    let ghost ahead = certain@;
    certain.push(on_board);
    assert(slots_view(certain@) =~= slots_view(ahead).push(on_board@));
    assert(slots_view(certain@) =~= Seq::new(n as nat, |j: int| certain_in(pinned.0[j])).push(
        certain_in(seq![pinned.1]),
    ));
    let spoken = match claim_all(&certain) {
        Err(card) => {
            return Err(PokerError::Game(GameError::DuplicateCard(card)));
        },
        Ok(all) => all,
    };
    let loose = spoken.without(available);
    if !loose.is_empty() {
        let card = lowest_card(loose);
        if deck.contains(card) {
            return Err(PokerError::Game(GameError::DuplicateCard(card)));
        } else {
            return Err(PokerError::Game(GameError::NotInDeck(card)));
        }
    }
    let every = every_slot(&hands_now, &board_now);
    if !can_fill_slots(&every, available) {
        return Err(
            PokerError::Equity(
                EquityError::Infeasible(crate::text::string_of("the hands, board and dead cards together")),
            ),
        );
    }
    Ok(
        SettledRequest {
            hands: hands_now,
            board: board_now,
            available,
            certain,
            spoken_for: spoken,
            players: n,
            hole,
            board_slots: shared,
        },
    )
}

/// Every hand field read in turn, or the first one's fault.
pub open spec fn fields_read(texts: Seq<Seq<char>>, slots: nat, exact: bool) -> Result<Seq<FieldView>, Fault>
    decreases texts.len(),
{
    if texts.len() == 0 {
        Ok(seq![])
    } else {
        match fields_read(texts.drop_last(), slots, exact) {
            Err(f) => Err(f),
            Ok(front) => match field_of(texts.last(), slots, exact) {
                Err(f) => Err(f),
                Ok(field) => Ok(front.push(field)),
            },
        }
    }
}

/// Whether `r` reports the notation fault `f`.
pub open spec fn reports_fault(r: Result<SettledRequest, PokerError>, f: Fault) -> bool {
    r matches Err(PokerError::Equity(EquityError::Notation(e))) && e@ == f
}

/// What settling a request written as text gives: the first field that
/// cannot be read, hands first, then the board, then the dead cards; or
/// what settling what they read as gives.
pub open spec fn text_outcome<V: PokerVariant>(
    variant: V,
    hands: Seq<Seq<char>>,
    board: Seq<char>,
    dead: Seq<char>,
    r: Result<SettledRequest, PokerError>,
) -> bool {
    let n = hands.len();
    let over_time = variant.family() == PokerType::Stud || variant.family() == PokerType::Draw;
    match fields_read(hands, seat_cards(variant, n), !over_time) {
        Err(f) => reports_fault(r, f),
        Ok(fields) => match board_of(board, board_slots(variant, n)) {
            Err(f) => reports_fault(r, f),
            Ok(slots) => match dead_of(dead) {
                Err(f) => reports_fault(r, f),
                Ok(d) => settled_outcome(variant, fields, slots, d, r),
            },
        },
    }
}

/// Once the fields read so far have a fault, the first fault is that one.
proof fn lemma_read_fault_stays(texts: Seq<Seq<char>>, j: int, slots: nat, exact: bool)
    requires
        0 <= j <= texts.len(),
        fields_read(texts.take(j), slots, exact) is Err,
    ensures
        fields_read(texts, slots, exact) == fields_read(texts.take(j), slots, exact),
    decreases texts.len(),
{
    if j == texts.len() {
        assert(texts.take(j) =~= texts);
    } else {
        assert(texts.drop_last().take(j) =~= texts.take(j));
        lemma_read_fault_stays(texts.drop_last(), j, slots, exact);
    }
}

/// Reading one more field: its fault, or its spec added to the others.
proof fn lemma_read_step(texts: Seq<Seq<char>>, i: int, slots: nat, exact: bool)
    requires
        0 <= i < texts.len(),
    ensures
        fields_read(texts.take(i + 1), slots, exact) == match fields_read(texts.take(i), slots, exact) {
            Err(f) => Err(f),
            Ok(front) => match field_of(texts[i], slots, exact) {
                Err(f) => Err(f),
                Ok(field) => Ok(front.push(field)),
            },
        },
{
    assert(texts.take(i + 1).drop_last() =~= texts.take(i));
    assert(texts.take(i + 1).last() == texts[i]);
}

/// Reads one hand field: one that may name fewer cards than a seat is dealt
/// where cards arrive over time, and one that names them all elsewhere.
fn read_hand(text: &str, hole: usize, over_time: bool) -> (r: Result<HandSpec, NotationError>)
    requires
        byte_len(text@) <= usize::MAX,
    ensures
        spec_outcome(r) == field_of(text@, hole as nat, !over_time),
{
    if over_time {
        parse_hand_up_to(text, hole)
    } else {
        parse_hand(text, hole)
    }
}

/// Reads every hand field in turn, or gives the first one's fault.
fn read_hands(hands: &[&str], hole: usize, over_time: bool) -> (r: Result<Vec<HandSpec>, NotationError>)
    requires
        forall|i: int| 0 <= i < hands@.len() ==> byte_len((#[trigger] hands@[i])@) <= usize::MAX,
    ensures
        match (r, fields_read(hands@.map_values(|t: &str| t@), hole as nat, !over_time)) {
            (Ok(v), Ok(p)) => fields_of(v@) == p && v@.len() == hands@.len(),
            (Err(e), Err(f)) => e@ == f,
            _ => false,
        },
{
    let ghost texts = hands@.map_values(|t: &str| t@);
    let mut specs: Vec<HandSpec> = Vec::new();
    let mut i: usize = 0;
    assert(texts.take(0) =~= Seq::<Seq<char>>::empty());
    assert(fields_of(specs@) =~= Seq::<FieldView>::empty());
    while i < hands.len()
        invariant
            0 <= i <= hands@.len(),
            texts == hands@.map_values(|t: &str| t@),
            forall|j: int| 0 <= j < hands@.len() ==> byte_len((#[trigger] hands@[j])@) <= usize::MAX,
            fields_read(texts.take(i as int), hole as nat, !over_time) == Ok::<Seq<FieldView>, Fault>(
                fields_of(specs@),
            ),
            specs@.len() == i,
        decreases hands@.len() - i,
    {
        let text = hands[i];
        assert(texts[i as int] == text@);
        proof {
            lemma_read_step(texts, i as int, hole as nat, !over_time);
        }
        match read_hand(text, hole, over_time) {
            Err(e) => {
                proof {
                    lemma_read_fault_stays(texts, i + 1, hole as nat, !over_time);
                }
                return Err(e);
            },
            Ok(spec) => {
                let ghost before = specs@;
                specs.push(spec);
                assert(fields_of(specs@) =~= fields_of(before).push(spec@));
            },
        }
        i = i + 1;
    }
    assert(texts.take(hands@.len() as int) =~= texts);
    Ok(specs)
}

/// Settles an equity question written as text: one field per hand, the
/// board and the dead cards.
///
/// Where cards arrive over time (stud and draw) a hand field may name fewer
/// cards than a seat is dealt; elsewhere it names them all.
pub fn settle_text<V: PokerVariant>(variant: V, hands: &[&str], board: &str, dead: &str) -> (r: Result<
    SettledRequest,
    PokerError,
>)
    requires
        shares_last(variant, hands@.len() as nat) ==> variant.board_size() < usize::MAX,
        forall|i: int| 0 <= i < hands@.len() ==> byte_len((#[trigger] hands@[i])@) <= usize::MAX,
        byte_len(board@) <= usize::MAX,
        byte_len(dead@) <= usize::MAX,
    ensures
        text_outcome(variant, hands@.map_values(|t: &str| t@), board@, dead@, r),
{
    let ghost texts = hands@.map_values(|t: &str| t@);
    let family = variant.poker_type();
    let over_time = family == PokerType::Stud || family == PokerType::Draw;
    let n = hands.len();
    let shared_last = last_card_is_shared(variant, n);
    let private = variant.hole_cards();
    proof {
        if shared_last && private == 0 {
            assert(n * private == 0) by (nonlinear_arith)
                requires
                    private == 0,
            ;
        }
    }
    let hole: usize = if shared_last {
        private - 1
    } else {
        private
    };
    assert(hole == seat_cards(variant, n as nat));
    let specs = match read_hands(hands, hole, over_time) {
        Err(e) => {
            let r = Err(PokerError::Equity(EquityError::Notation(e)));
            assert(reports_fault(r, e@));
            return r;
        },
        Ok(v) => v,
    };
    let shared: usize = if shared_last {
        variant.board_cards() + 1
    } else {
        variant.board_cards()
    };
    assert(shared == board_slots(variant, n as nat));
    let slots = match parse_board(board, shared) {
        Err(e) => {
            return Err(PokerError::Equity(EquityError::Notation(e)));
        },
        Ok(v) => v,
    };
    let gone = match parse_dead(dead) {
        Err(e) => {
            return Err(PokerError::Equity(EquityError::Notation(e)));
        },
        Ok(set) => set,
    };
    assert(slots_view(slots@) == slots_view(slots@));
    settle_request(variant, specs.as_slice(), slots.as_slice(), gone)
}

/// The pinned hands' one alternatives, read slot after slot, are the first
/// slots that pinning gave, up to where the first `h` hands end.
proof fn lemma_pinned_prefix(
    hands: Seq<HandSpec>,
    board: Seq<CardSet>,
    p: Seq<Set<int>>,
    out: (Vec<HandSpec>, Vec<CardSet>),
    h: int,
)
    requires
        pinned_outcome(hands, board, p, out),
        0 <= h <= hands.len(),
        first_slots(hands).len() <= p.len(),
        forall|g: int| 0 <= g < hands.len() ==> (#[trigger] hands[g]).alternatives@.len() == 1,
    ensures
        opening_slots(fields_of(out.0@).take(h)) == p.subrange(0, first_slots(hands.take(h)).len() as int),
    decreases h,
{
    if h == 0 {
        assert(fields_of(out.0@).take(0) =~= Seq::<FieldView>::empty());
        assert(hands.take(0) =~= Seq::<HandSpec>::empty());
        assert(p.subrange(0, 0) =~= Seq::<Set<int>>::empty());
    } else {
        lemma_pinned_prefix(hands, board, p, out, h - 1);
        lemma_first_slots_step(hands, h - 1);
        lemma_first_slots_prefix(hands, h);
        let fields = fields_of(out.0@);
        assert(fields.take(h).drop_last() =~= fields.take(h - 1));
        assert(fields.take(h).last() == out.0@[h - 1]@);
        let lo = first_slots(hands.take(h - 1)).len() as int;
        let hi = first_slots(hands.take(h)).len() as int;
        assert(out.0@[h - 1]@[0] == p.subrange(lo, hi));
        assert(p.subrange(0, lo) + p.subrange(lo, hi) =~= p.subrange(0, hi));
    }
}

/// What pinning does to each slot, read across the hands and then the board:
/// an open-suit rank becomes one card of that rank, available, named by no
/// one-card slot and given to no other open-suit slot; every other slot
/// stays as it was; and the hands and board keep their sizes.
pub proof fn lemma_pinned_slots(
    hands: Seq<HandSpec>,
    board: Seq<CardSet>,
    available: Set<int>,
    out: (Vec<HandSpec>, Vec<CardSet>),
)
    requires
        forall|g: int| 0 <= g < hands.len() ==> (#[trigger] hands[g]).alternatives@.len() == 1,
        ({
            let all = first_slots(hands) + board;
            pin_slots(all.map_values(|s: CardSet| s@), available, Set::new(|x: int| named_by(all, x))) matches Some(
                p,
            ) && pinned_outcome(hands, board, p, out)
        }),
    ensures
        out.0@.len() == hands.len(),
        out.1@.len() == board.len(),
        ({
            let before = slots_view(first_slots(hands) + board);
            let after = opening_slots(fields_of(out.0@)) + slots_view(out.1@);
            let taken = one_card_slots(before);
            &&& after.len() == before.len()
            &&& forall|i: int| 0 <= i < before.len() && !rank_shaped(before[i]) ==> #[trigger] after[i] == before[i]
            &&& forall|i: int| 0 <= i < before.len() && rank_shaped(before[i]) ==> #[trigger] after[i] != Set::<int>::empty()
            &&& forall|i: int, x: int|
                0 <= i < before.len() && rank_shaped(before[i]) && #[trigger] after[i].contains(x) ==> after[i]
                    == Set::<int>::empty().insert(x) && before[i].contains(x) && available.contains(x)
                    && !taken.contains(x)
            &&& forall|i: int, j: int|
                #![trigger after[i], after[j]]
                0 <= i < j < before.len() && rank_shaped(before[i]) && rank_shaped(before[j]) ==> after[i]
                    != after[j]
        }),
{
    let all = first_slots(hands) + board;
    let before = slots_view(all);
    let taken = Set::new(|x: int| named_by(all, x));
    let p = pin_slots(before, available, taken)->0;
    assert(all.map_values(|s: CardSet| s@) == before);
    lemma_pinning_keeps_ranks(before, available, taken);
    lemma_pinned_prefix(hands, board, p, out, hands.len() as int);
    assert(fields_of(out.0@).take(hands.len() as int) =~= fields_of(out.0@));
    assert(hands.take(hands.len() as int) =~= hands);
    let n = first_slots(hands).len() as int;
    assert(p.subrange(0, n) + p.skip(n) =~= p);
    assert forall|x: int| taken.contains(x) == one_card_slots(before).contains(x) by {
        if taken.contains(x) {
            let k = choose|k: int| 0 <= k < all.len() && all[k]@.len() == 1 && #[trigger] all[k]@.contains(x);
            assert(before[k] == all[k]@);
        }
        if one_card_slots(before).contains(x) {
            let k = choose|k: int| 0 <= k < before.len() && before[k].len() == 1 && #[trigger] before[k].contains(x);
            assert(before[k] == all[k]@);
        }
    }
    assert(taken =~= one_card_slots(before));
    assert(out.1@.len() == slots_view(out.1@).len());
}

} // verus!
