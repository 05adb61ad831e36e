//! Whether every slot of a request can be given a card of its own at once.
//!
//! Each slot admits some cards; the question is whether there is a way to
//! give every slot one of the cards it admits with no card given twice. The
//! answer is found by growing an assignment one slot at a time: a slot that
//! finds no free card takes one from another slot that can move to a card of
//! its own, and so on along a chain. When no chain exists, the slots the
//! search reached admit fewer cards between them than there are of them,
//! which no assignment can get round.

use vstd::prelude::*;

use crate::cards::{Card, CardSet};
use crate::notation::hand_spec::slots_view;

verus! {

broadcast use {Card::lemma_idx, Card::lemma_card_at};

/// Whether `pick` gives every slot a card that it admits and that is
/// available, no card twice.
pub open spec fn fills(slots: Seq<Set<int>>, available: Set<int>, pick: Seq<int>) -> bool {
    &&& pick.len() == slots.len()
    &&& forall|i: int| 0 <= i < slots.len() ==> slots[i].contains(#[trigger] pick[i]) && available.contains(pick[i])
    &&& pick.no_duplicates()
}

/// Whether every slot can be given a card of its own at once.
pub open spec fn can_fill(slots: Seq<Set<int>>, available: Set<int>) -> bool {
    exists|pick: Seq<int>| #[trigger] fills(slots, available, pick)
}

/// A partial assignment: every slot that has a card has one it admits and
/// that is available, and no two slots have the same card.
pub open spec fn assigns(slots: Seq<Set<int>>, available: Set<int>, mate: Seq<Option<usize>>) -> bool {
    &&& mate.len() == slots.len()
    &&& forall|r: int|
        0 <= r < mate.len() && (#[trigger] mate[r]) is Some ==> slots[r].contains(mate[r]->0 as int)
            && available.contains(mate[r]->0 as int)
    &&& forall|a: int, b: int|
        #![trigger mate[a], mate[b]]
        0 <= a < mate.len() && 0 <= b < mate.len() && a != b && mate[a] is Some ==> mate[a] != mate[b]
}

/// The cards along which the search reached each slot after the first.
spec fn chain_cards(via: Seq<usize>) -> Seq<int> {
    via.subrange(1, via.len() as int).map_values(|v: usize| v as int)
}

/// Slots that between them admit fewer cards than there are of them cannot
/// all be given cards of their own.
proof fn lemma_too_few_cards(slots: Seq<Set<int>>, available: Set<int>, reached: Seq<int>, seen: Set<int>)
    requires
        reached.no_duplicates(),
        forall|i: int| 0 <= i < reached.len() ==> 0 <= #[trigger] reached[i] < slots.len(),
        forall|i: int, x: int|
            #![trigger slots[reached[i]].contains(x)]
            0 <= i < reached.len() && slots[reached[i]].contains(x) && available.contains(x) ==> seen.contains(x),
        seen.finite(),
        seen.len() < reached.len(),
    ensures
        !can_fill(slots, available),
{
    if can_fill(slots, available) {
        let pick = choose|pick: Seq<int>| #[trigger] fills(slots, available, pick);
        let got = reached.map_values(|r: int| pick[r]);
        assert forall|i: int, j: int| 0 <= i < got.len() && 0 <= j < got.len() && i != j implies got[i]
            != got[j] by {
            assert(reached[i] != reached[j]);
            assert(0 <= reached[i] < slots.len() && 0 <= reached[j] < slots.len());
        }
        assert(got.no_duplicates());
        got.unique_seq_to_set();
        assert forall|x: int| got.to_set().contains(x) implies seen.contains(x) by {
            let k = choose|k: int| 0 <= k < got.len() && got[k] == x;
            assert(0 <= reached[k] < slots.len());
            assert(slots[reached[k]].contains(pick[reached[k]]));
            assert(seen.contains(x));
        }
        vstd::set_lib::lemma_len_subset(got.to_set(), seen);
    }
}

/// The slot that has card `c`, if any.
fn owner_of(mate: &Vec<Option<usize>>, c: usize) -> (r: Option<usize>)
    ensures
        r matches Some(o) ==> o < mate@.len() && mate@[o as int] == Some(c),
        r is None ==> forall|o: int| 0 <= o < mate@.len() ==> mate@[o] != Some(c),
{
    let mut o: usize = 0;
    while o < mate.len()
        invariant
            0 <= o <= mate@.len(),
            forall|q: int| 0 <= q < o ==> mate@[q] != Some(c),
        decreases mate@.len() - o,
    {
        if let Some(d) = mate[o] {
            if d == c {
                return Some(o);
            }
        }
        o = o + 1;
    }
    None
}

/// Moves every slot along the chain that the search found: the slot at
/// position `at` takes the free card `start`, the slot whose card that was
/// not takes the next, and so on back to slot `s`, which had none.
fn shift_chain(
    slots: &Vec<CardSet>,
    available: CardSet,
    mate: &mut Vec<Option<usize>>,
    s: usize,
    reached: &Vec<usize>,
    via: &Vec<usize>,
    parent: &Vec<usize>,
    start: usize,
    at: usize,
)
    requires
        assigns(slots_view(slots@), available@, old(mate)@),
        s < slots@.len(),
        old(mate)@[s as int] is None,
        reached@.len() == via@.len(),
        reached@.len() >= 1,
        reached@[0] == s,
        parent@.len() == 52,
        forall|p: int| 0 <= p < reached@.len() ==> #[trigger] reached@[p] < slots@.len(),
        forall|p: int, q: int| 0 <= p < q < reached@.len() ==> reached@[p] != reached@[q],
        forall|p: int| 1 <= p < reached@.len() ==> old(mate)@[#[trigger] reached@[p] as int] == Some(via@[p]),
        forall|p: int|
            1 <= p < reached@.len() ==> via@[p] < 52 && parent@[via@[p] as int] < p && slots_view(
                slots@,
            )[reached@[parent@[via@[p] as int] as int] as int].contains(#[trigger] via@[p] as int)
                && available@.contains(via@[p] as int),
        at < reached@.len(),
        slots_view(slots@)[reached@[at as int] as int].contains(start as int),
        available@.contains(start as int),
        forall|o: int| 0 <= o < old(mate)@.len() ==> old(mate)@[o] != Some(start),
    ensures
        assigns(slots_view(slots@), available@, final(mate)@),
        final(mate)@[s as int] is Some,
        forall|r: int| 0 <= r < slots@.len() && r != s ==> (final(mate)@[r] is Some <==> old(mate)@[r] is Some),
{
    let ghost sv = slots_view(slots@);
    let ghost m0 = mate@;
    let mut cur = start;
    let mut p = at;
    loop
        invariant
            sv == slots_view(slots@),
            assigns(sv, available@, mate@),
            mate@.len() == m0.len(),
            m0 == old(mate)@,
            p < reached@.len(),
            sv[reached@[p as int] as int].contains(cur as int),
            available@.contains(cur as int),
            forall|o: int| 0 <= o < mate@.len() ==> mate@[o] != Some(cur),
            forall|q: int| 1 <= q <= p ==> mate@[#[trigger] reached@[q] as int] == Some(via@[q]),
            mate@[s as int] is None,
            forall|r: int| 0 <= r < slots@.len() && r != s ==> (mate@[r] is Some <==> m0[r] is Some),
            m0.len() == slots@.len(),
            reached@.len() == via@.len(),
            reached@[0] == s,
            parent@.len() == 52,
            forall|q: int| 0 <= q < reached@.len() ==> #[trigger] reached@[q] < slots@.len(),
            forall|a: int, b: int| 0 <= a < b < reached@.len() ==> reached@[a] != reached@[b],
            forall|q: int|
                1 <= q < reached@.len() ==> via@[q] < 52 && parent@[via@[q] as int] < q && sv[reached@[parent@[via@[q] as int] as int] as int].contains(
                    #[trigger] via@[q] as int,
                ) && available@.contains(via@[q] as int),
        decreases p,
    {
        let r = reached[p];
        if p == 0 {
            let ghost before = mate@;
            mate.set(r, Some(cur));
            assert forall|q: int| 0 <= q < slots@.len() && q != s implies (mate@[q] is Some <==> m0[q] is Some) by {
                assert(mate@[q] == before[q]);
            }
            assert forall|a: int, b: int|
                #![trigger mate@[a], mate@[b]]
                0 <= a < mate@.len() && 0 <= b < mate@.len() && a != b && mate@[a] is Some implies mate@[a]
                    != mate@[b] by {
                if a != r && b != r {
                    assert(before[a] != before[b]);
                }
            }
            return;
        }
        let next = via[p];
        let ghost before = mate@;
        assert(before[r as int] == Some(next));
        mate.set(r, Some(cur));
        assert forall|a: int, b: int|
            #![trigger mate@[a], mate@[b]]
            0 <= a < mate@.len() && 0 <= b < mate@.len() && a != b && mate@[a] is Some implies mate@[a] != mate@[b] by {
            if a != r && b != r {
                assert(before[a] != before[b]);
            }
        }
        assert forall|o: int| 0 <= o < mate@.len() implies mate@[o] != Some(next) by {
            if o != r {
                assert(before[o] != before[r as int]);
            }
        }
        assert(reached@[0] != reached@[p as int]);
        let back = parent[next];
        assert forall|q: int| 1 <= q <= back implies mate@[#[trigger] reached@[q] as int] == Some(via@[q]) by {
            assert(reached@[q] != reached@[p as int]);
        }
        cur = next;
        p = back;
    }
}

/// Gives slot `s`, which has no card yet, a card of its own, moving other
/// slots along a chain where that is needed; or finds that no assignment can
/// give every slot a card.
fn find_card(slots: &Vec<CardSet>, available: CardSet, mate: &mut Vec<Option<usize>>, s: usize) -> (found: bool)
    requires
        assigns(slots_view(slots@), available@, old(mate)@),
        s < slots@.len(),
        old(mate)@[s as int] is None,
    ensures
        assigns(slots_view(slots@), available@, final(mate)@),
        found ==> final(mate)@[s as int] is Some,
        forall|r: int| 0 <= r < slots@.len() && r != s ==> (final(mate)@[r] is Some <==> old(mate)@[r] is Some),
        !found ==> !can_fill(slots_view(slots@), available@),
{
    let ghost sv = slots_view(slots@);
    let ghost m0 = mate@;
    let mut reached: Vec<usize> = vec![s];
    let mut via: Vec<usize> = vec![0];
    let mut parent: Vec<usize> = Vec::new();
    while parent.len() < 52
        invariant
            parent@.len() <= 52,
        decreases 52 - parent@.len(),
    {
        parent.push(0);
    }
    let mut seen = CardSet::EMPTY();
    let mut head: usize = 0;
    assert(chain_cards(via@) =~= Seq::<int>::empty());
    assert(seen@ =~= chain_cards(via@).to_set());
    while head < reached.len()
        invariant
            sv == slots_view(slots@),
            mate@ == m0,
            m0 == old(mate)@,
            assigns(sv, available@, m0),
            s < slots@.len(),
            m0[s as int] is None,
            reached@.len() == via@.len(),
            1 <= reached@.len() <= 53,
            head <= reached@.len(),
            reached@[0] == s,
            parent@.len() == 52,
            forall|p: int| 0 <= p < reached@.len() ==> #[trigger] reached@[p] < slots@.len(),
            forall|p: int, q: int| 0 <= p < q < reached@.len() ==> reached@[p] != reached@[q],
            forall|p: int|
                1 <= p < reached@.len() ==> m0[#[trigger] reached@[p] as int] == Some(via@[p]) && seen@.contains(
                    via@[p] as int,
                ) && parent@[via@[p] as int] < p,
            forall|c: int|
                #[trigger] seen@.contains(c) ==> 0 <= c < 52 && parent@[c] < reached@.len() && sv[reached@[parent@[c] as int] as int].contains(
                    c,
                ) && available@.contains(c),
            seen@ == chain_cards(via@).to_set(),
            chain_cards(via@).no_duplicates(),
            forall|p: int, x: int|
                #![trigger sv[reached@[p] as int].contains(x)]
                0 <= p < head && sv[reached@[p] as int].contains(x) && available@.contains(x)
                    ==> seen@.contains(x),
        decreases 53 - head,
    {
        let r = reached[head];
        let open = slots[r].intersection(available).without(seen);
        let fresh = open.iter();
        proof {
            crate::cards::lemma_iter_in_order(open, fresh@);
        }
        let ghost seen0 = seen@;
        let mut k: usize = 0;
        while k < fresh.len()
            invariant
                sv == slots_view(slots@),
                mate@ == m0,
                m0 == old(mate)@,
                assigns(sv, available@, m0),
                s < slots@.len(),
                m0[s as int] is None,
                reached@.len() == via@.len(),
                1 <= reached@.len() <= 53,
                head < reached@.len(),
                reached@[0] == s,
                reached@[head as int] == r,
                parent@.len() == 52,
                forall|p: int| 0 <= p < reached@.len() ==> #[trigger] reached@[p] < slots@.len(),
                forall|p: int, q: int| 0 <= p < q < reached@.len() ==> reached@[p] != reached@[q],
                forall|p: int|
                    1 <= p < reached@.len() ==> m0[#[trigger] reached@[p] as int] == Some(via@[p])
                        && seen@.contains(via@[p] as int) && parent@[via@[p] as int] < p,
                forall|c: int|
                    #[trigger] seen@.contains(c) ==> 0 <= c < 52 && parent@[c] < reached@.len() && sv[reached@[parent@[c] as int] as int].contains(
                        c,
                    ) && available@.contains(c),
                seen@ == chain_cards(via@).to_set(),
                chain_cards(via@).no_duplicates(),
                forall|p: int, x: int|
                    #![trigger sv[reached@[p] as int].contains(x)]
                    0 <= p < head && sv[reached@[p] as int].contains(x) && available@.contains(x)
                        ==> seen@.contains(x),
                0 <= k <= fresh@.len(),
                seen0.subset_of(seen@),
                fresh@.map_values(|c: Card| c.idx() as int).to_set() == sv[r as int].intersect(available@).difference(
                    seen0,
                ),
                forall|j: int| 0 <= j < k ==> seen@.contains(#[trigger] fresh@[j].idx() as int),
            decreases fresh@.len() - k,
        {
            let card = fresh[k];
            if !seen.contains(card) {
                let c = card.index() as usize;
                assert(fresh@.map_values(|d: Card| d.idx() as int)[k as int] == c as int);
                assert(fresh@.map_values(|d: Card| d.idx() as int).to_set().contains(c as int));
                assert(sv[r as int].contains(c as int) && available@.contains(c as int));
                proof {
                    vstd::set_lib::lemma_int_range(0, 52);
                    assert(seen@.subset_of(vstd::set_lib::set_int_range(0, 52)));
                    seen@.lemma_subset_not_in_lt(vstd::set_lib::set_int_range(0, 52), c as int);
                    chain_cards(via@).unique_seq_to_set();
                }
                let ghost via0 = via@;
                let ghost reached0 = reached@;
                let ghost seen1 = seen@;
                let ghost parent0 = parent@;
                seen.insert(card);
                parent.set(c, head);
                assert forall|q: int| 1 <= q < reached@.len() implies via@[q] < 52 && parent@[via@[q] as int] < q
                    && sv[reached@[parent@[via@[q] as int] as int] as int].contains(#[trigger] via@[q] as int)
                    && available@.contains(via@[q] as int) by {
                    assert(m0[reached@[q] as int] == Some(via@[q]));
                    assert(seen1.contains(via@[q] as int));
                    assert(via@[q] != c);
                    assert(parent@[via@[q] as int] == parent0[via@[q] as int]);
                }
                match owner_of(mate, c) {
                    None => {
                        shift_chain(slots, available, mate, s, &reached, &via, &parent, c, head);
                        return true;
                    },
                    Some(o) => {
                        assert forall|q: int| 0 <= q < reached@.len() implies reached@[q] != o by {
                            if q >= 1 {
                                assert(m0[reached@[q] as int] == Some(via@[q]));
                                assert(seen1.contains(via@[q] as int));
                            }
                        }
                        reached.push(o);
                        via.push(c);
                        assert(chain_cards(via@) =~= chain_cards(via0).push(c as int));
                        let ghost t0 = chain_cards(via0);
                        let ghost t1 = chain_cards(via@);
                        assert(t1 == t0.push(c as int));
                        assert forall|x: int| t1.to_set().contains(x) == seen@.contains(x) by {
                            if t1.to_set().contains(x) {
                                let j = choose|j: int| 0 <= j < t1.len() && t1[j] == x;
                                if j < t0.len() {
                                    assert(t0[j] == x);
                                    assert(t0.to_set().contains(x));
                                }
                            }
                            if seen@.contains(x) {
                                if x == c as int {
                                    assert(t1[t0.len() as int] == x);
                                } else {
                                    assert(seen1.contains(x));
                                    assert(t0.to_set().contains(x));
                                    let j = choose|j: int| 0 <= j < t0.len() && t0[j] == x;
                                    assert(t1[j] == x);
                                }
                            }
                        }
                        assert(seen@ =~= chain_cards(via@).to_set());
                    },
                }
            }
            k = k + 1;
        }
        assert forall|p: int, x: int|
            #![trigger sv[reached@[p] as int].contains(x)]
            0 <= p < head + 1 && sv[reached@[p] as int].contains(x) && available@.contains(x) implies seen@.contains(x) by {
            if p == head && !seen0.contains(x) {
                assert(fresh@.map_values(|c: Card| c.idx() as int).to_set().contains(x));
                let ids = fresh@.map_values(|c: Card| c.idx() as int);
                let j = choose|j: int| 0 <= j < ids.len() && #[trigger] ids[j] == x;
                assert(seen@.contains(fresh@[j].idx() as int));
            }
        }
        head = head + 1;
    }
    proof {
        let ids = reached@.map_values(|x: usize| x as int);
        let tail = chain_cards(via@);
        tail.unique_seq_to_set();
        assert(ids.no_duplicates()) by {
            assert forall|i: int, j: int| 0 <= i < ids.len() && 0 <= j < ids.len() && i != j implies ids[i]
                != ids[j] by {
                if i < j {
                    assert(reached@[i] != reached@[j]);
                } else {
                    assert(reached@[j] != reached@[i]);
                }
            }
        }
        assert forall|i: int| 0 <= i < ids.len() implies 0 <= #[trigger] ids[i] < sv.len() by {
            assert(reached@[i] < slots@.len());
        }
        assert forall|i: int, x: int|
            #![trigger sv[ids[i]].contains(x)]
            0 <= i < ids.len() && sv[ids[i]].contains(x) && available@.contains(x) implies seen@.contains(x) by {
            assert(ids[i] == reached@[i] as int);
        }
        lemma_too_few_cards(sv, available@, ids, seen@);
    }
    false
}

/// Whether every slot can be given a card that it admits and that is
/// available, no card twice.
pub fn can_fill_slots(slots: &Vec<CardSet>, available: CardSet) -> (r: bool)
    ensures
        r == can_fill(slots_view(slots@), available@),
{
    let ghost sv = slots_view(slots@);
    let mut mate: Vec<Option<usize>> = Vec::new();
    while mate.len() < slots.len()
        invariant
            mate@.len() <= slots@.len(),
            forall|r: int| 0 <= r < mate@.len() ==> mate@[r] is None,
        decreases slots@.len() - mate@.len(),
    {
        mate.push(None);
    }
    let mut s: usize = 0;
    while s < slots.len()
        invariant
            sv == slots_view(slots@),
            assigns(sv, available@, mate@),
            s <= slots@.len(),
            forall|r: int| 0 <= r < s ==> mate@[r] is Some,
            forall|r: int| s <= r < slots@.len() ==> mate@[r] is None,
        decreases slots@.len() - s,
    {
        if !find_card(slots, available, &mut mate, s) {
            return false;
        }
        s = s + 1;
    }
    let ghost pick = Seq::new(slots@.len(), |r: int| mate@[r]->0 as int);
    assert(fills(sv, available@, pick)) by {
        assert forall|i: int, j: int| 0 <= i < pick.len() && 0 <= j < pick.len() && i != j implies pick[i]
            != pick[j] by {
            assert(mate@[i] != mate@[j]);
        }
    }
    true
}

} // verus!
