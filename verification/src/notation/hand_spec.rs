//! One hand field: a list of alternatives, each a whole hand given as one
//! mask per slot.

use vstd::prelude::*;

use super::range::{hands_indices, pair_indices};
use crate::cards::{card_at, deck_indices, rank_indices, suit_indices, Card, CardSet, Rank, Suit};
use crate::text::{push_char, push_str};

verus! {

broadcast use {Card::lemma_idx, Card::lemma_card_at};

/// The sets a list of slots stands for.
pub open spec fn slots_view(slots: Seq<CardSet>) -> Seq<Set<int>> {
    slots.map_values(|s: CardSet| s@)
}

/// The set holding one card index.
pub open spec fn single(i: nat) -> Set<int> {
    Set::empty().insert(i as int)
}

/// The alternatives a list of two-card hands stands for: each hand is two
/// slots, one named card apiece.
pub open spec fn combo_alternatives(hands: Seq<(nat, nat)>) -> Seq<Seq<Set<int>>> {
    hands.map_values(|h: (nat, nat)| seq![single(h.0), single(h.1)])
}

/// How many slots each alternative holds, when the spec has alternatives and
/// they agree.
pub open spec fn slot_count_of(v: Seq<Seq<Set<int>>>) -> Option<nat> {
    if v.len() == 0 {
        None
    } else if forall|a: int| 0 <= a < v.len() ==> (#[trigger] v[a]).len() == v[0].len() {
        Some(v[0].len())
    } else {
        None
    }
}

/// Every card any alternative could use.
pub open spec fn covered(v: Seq<Seq<Set<int>>>) -> Set<int> {
    Set::new(
        |i: int|
            exists|a: int, k: int| 0 <= a < v.len() && 0 <= k < v[a].len() && #[trigger] v[a][k].contains(i),
    )
}

/// Whether some alternative has slots and none of them is empty.
pub open spec fn satisfiable(v: Seq<Seq<Set<int>>>) -> bool {
    exists|a: int|
        0 <= a < v.len() && (#[trigger] v[a]).len() > 0 && forall|k: int|
            0 <= k < v[a].len() ==> v[a][k] != Set::<int>::empty()
}

/// How one slot is written: `*` for anything, a card's name for one card, a
/// rank or a suit for a whole rank or suit, and otherwise the cards between
/// brackets.
pub open spec fn slot_text(s: CardSet) -> Seq<char> {
    if s@ == deck_indices() {
        seq!['*']
    } else if s@.len() == 1 {
        card_at((choose|i: int| s@.contains(i)) as nat).name()
    } else if exists|r: Rank| s@ == rank_indices(r) {
        seq![(choose|r: Rank| s@ == rank_indices(r)).letter()]
    } else if exists|u: Suit| s@ == suit_indices(u) {
        seq![(choose|u: Suit| s@ == suit_indices(u)).letter()]
    } else {
        seq!['['] + s.text() + seq![']']
    }
}

/// An alternative's slots, separated by spaces.
pub open spec fn alternative_text(a: Seq<CardSet>) -> Seq<char>
    decreases a.len(),
{
    if a.len() == 0 {
        seq![]
    } else if a.len() == 1 {
        slot_text(a[0])
    } else {
        alternative_text(a.drop_last()) + seq![' '] + slot_text(a.last())
    }
}

/// The alternatives, separated by a comma and a space.
pub open spec fn spec_text(v: Seq<Seq<CardSet>>) -> Seq<char>
    decreases v.len(),
{
    if v.len() == 0 {
        seq![]
    } else if v.len() == 1 {
        alternative_text(v[0])
    } else {
        spec_text(v.drop_last()) + seq![',', ' '] + alternative_text(v.last())
    }
}

/// One hand field: a list of alternatives, each a whole hand given as one
/// mask per slot.
///
/// Every form the notation admits collapses to this shape. `AhKh` is one
/// alternative of two single-card masks; `AKs` is four such alternatives;
/// `2 c` is one alternative of two many-card masks.
#[derive(Debug, Clone, PartialEq, Eq, Default)]
pub struct HandSpec {
    pub alternatives: Vec<Vec<CardSet>>,
}

impl View for HandSpec {
    type V = Seq<Seq<Set<int>>>;

    open spec fn view(&self) -> Seq<Seq<Set<int>>> {
        self.alternatives@.map_values(|a: Vec<CardSet>| slots_view(a@))
    }
}

impl HandSpec {
    /// The alternatives, each as its list of slots.
    pub open spec fn rows(&self) -> Seq<Seq<CardSet>> {
        self.alternatives@.map_values(|a: Vec<CardSet>| a@)
    }

    /// A spec with a single alternative, built straight from masks.
    ///
    /// This is the entry point for callers that never touch text.
    pub fn from_slots(slots: &[CardSet]) -> (r: Self)
        ensures
            r@ == seq![slots_view(slots@)],
            r.rows() == seq![slots@],
    {
        let mut copy: Vec<CardSet> = Vec::new();
        let mut i: usize = 0;
        while i < slots.len()
            invariant
                0 <= i <= slots.len(),
                copy@ == slots@.take(i as int),
            decreases slots.len() - i,
        {
            copy.push(slots[i]);
            assert(copy@ =~= slots@.take(i + 1));
            i = i + 1;
        }
        assert(copy@ =~= slots@);
        let r = Self { alternatives: vec![copy] };
        assert(r@ =~= seq![slots_view(slots@)]);
        assert(r.rows() =~= seq![slots@]);
        r
    }

    /// A spec from several whole alternatives.
    pub fn from_alternatives(alternatives: Vec<Vec<CardSet>>) -> (r: Self)
        ensures
            r.alternatives@ == alternatives@,
    {
        Self { alternatives }
    }

    /// One alternative per concrete two-card combination.
    pub fn from_combos(combos: &[[Card; 2]]) -> (r: Self)
        ensures
            r@ == combo_alternatives(hands_indices(combos@)),
    {
        let mut alternatives: Vec<Vec<CardSet>> = Vec::new();
        let mut i: usize = 0;
        while i < combos.len()
            invariant
                0 <= i <= combos.len(),
                alternatives@.map_values(|a: Vec<CardSet>| slots_view(a@)) == combo_alternatives(
                    hands_indices(combos@.take(i as int)),
                ),
            decreases combos.len() - i,
        {
            let pair = combos[i];
            let first = [pair[0]];
            let second = [pair[1]];
            assert(first@ =~= seq![pair[0]]);
            assert(second@ =~= seq![pair[1]]);
            let a = CardSet::from_cards(&first);
            let b = CardSet::from_cards(&second);
            proof {
                assert(seq![pair[0]].map_values(|c: Card| c.idx() as int) =~= seq![pair[0].idx() as int]);
                assert(seq![pair[0].idx() as int][0] == pair[0].idx() as int);
                assert(seq![pair[0].idx() as int].to_set() =~= single(pair[0].idx()));
                assert(seq![pair[1]].map_values(|c: Card| c.idx() as int) =~= seq![pair[1].idx() as int]);
                assert(seq![pair[1].idx() as int][0] == pair[1].idx() as int);
                assert(seq![pair[1].idx() as int].to_set() =~= single(pair[1].idx()));
            }
            let row = vec![a, b];
            assert(row@ =~= seq![a, b]);
            assert(slots_view(row@) =~= seq![single(pair_indices(pair).0), single(pair_indices(pair).1)]);
            let ghost before = alternatives@;
            assert(hands_indices(combos@.take(i + 1)) =~= hands_indices(combos@.take(i as int)).push(
                pair_indices(pair),
            ));
            assert(combo_alternatives(hands_indices(combos@.take(i + 1))) =~= combo_alternatives(
                hands_indices(combos@.take(i as int)),
            ).push(seq![single(pair_indices(pair).0), single(pair_indices(pair).1)]));
            alternatives.push(row);
            assert(alternatives@.map_values(|a: Vec<CardSet>| slots_view(a@)) =~= before.map_values(
                |a: Vec<CardSet>| slots_view(a@),
            ).push(slots_view(row@)));
            assert(alternatives@.map_values(|a: Vec<CardSet>| slots_view(a@)) =~= combo_alternatives(
                hands_indices(combos@.take(i + 1)),
            ));
            i = i + 1;
        }
        assert(combos@.take(combos.len() as int) =~= combos@);
        Self { alternatives }
    }

    /// How many slots each alternative holds, or `None` when the spec is
    /// empty or its alternatives disagree.
    pub fn slot_count(&self) -> (r: Option<usize>)
        ensures
            match (r, slot_count_of(self@)) {
                (Some(n), Some(m)) => n == m,
                (None, None) => true,
                _ => false,
            },
    {
        if self.alternatives.len() == 0 {
            return None;
        }
        let first = self.alternatives[0].len();
        let mut i: usize = 0;
        while i < self.alternatives.len()
            invariant
                0 <= i <= self.alternatives.len(),
                self.alternatives.len() > 0,
                first == self@[0].len(),
                forall|a: int| 0 <= a < i ==> (#[trigger] self@[a]).len() == first,
            decreases self.alternatives.len() - i,
        {
            if self.alternatives[i].len() != first {
                assert(self@[i as int].len() != self@[0].len());
                return None;
            }
            i = i + 1;
        }
        Some(first)
    }

    /// Every card any alternative could use.
    pub fn covered_cards(&self) -> (r: CardSet)
        ensures
            r@ == covered(self@),
    {
        let mut all = CardSet::EMPTY();
        let mut i: usize = 0;
        while i < self.alternatives.len()
            invariant
                0 <= i <= self.alternatives.len(),
                all@ == covered(self@.take(i as int)),
            decreases self.alternatives.len() - i,
        {
            let mut k: usize = 0;
            let ghost before = all@;
            while k < self.alternatives[i].len()
                invariant
                    0 <= i < self.alternatives.len(),
                    0 <= k <= self.alternatives[i as int].len(),
                    before == covered(self@.take(i as int)),
                    all@ == before.union(
                        Set::new(
                            |x: int|
                                exists|j: int| 0 <= j < k && #[trigger] self@[i as int][j].contains(x),
                        ),
                    ),
                decreases self.alternatives[i as int].len() - k,
            {
                all = all.union(self.alternatives[i][k]);
                assert(all@ =~= before.union(
                    Set::new(
                        |x: int|
                            exists|j: int| 0 <= j < k + 1 && #[trigger] self@[i as int][j].contains(x),
                    ),
                )) by {
                    assert forall|x: int| all@.contains(x) implies before.union(
                        Set::new(
                            |x: int|
                                exists|j: int| 0 <= j < k + 1 && #[trigger] self@[i as int][j].contains(
                                    x,
                                ),
                        ),
                    ).contains(x) by {
                        if self.alternatives[i as int][k as int]@.contains(x) {
                            assert(self@[i as int][k as int].contains(x));
                        }
                    }
                }
                k = k + 1;
            }
            assert(all@ =~= covered(self@.take(i + 1))) by {
                let v = self@.take(i + 1);
                assert forall|x: int| all@.contains(x) implies covered(v).contains(x) by {
                    if before.contains(x) {
                        let (a, j) = choose|a: int, j: int|
                            0 <= a < self@.take(i as int).len() && 0 <= j < self@.take(
                                i as int,
                            )[a].len() && #[trigger] self@.take(i as int)[a][j].contains(x);
                        assert(v[a][j].contains(x));
                    } else {
                        let j = choose|j: int|
                            0 <= j < self.alternatives[i as int].len() && #[trigger] self@[i as int][j].contains(x);
                        assert(v[i as int][j].contains(x));
                    }
                }
                assert forall|x: int| covered(v).contains(x) implies all@.contains(x) by {
                    let (a, j) = choose|a: int, j: int|
                        0 <= a < v.len() && 0 <= j < v[a].len() && #[trigger] v[a][j].contains(x);
                    if a < i {
                        assert(self@.take(i as int)[a][j].contains(x));
                    } else {
                        assert(self@[i as int][j].contains(x));
                    }
                }
            }
            i = i + 1;
        }
        assert(self@.take(self.alternatives.len() as int) =~= self@);
        all
    }

    /// Whether any alternative could actually be dealt: no slot may be empty.
    pub fn is_satisfiable(&self) -> (r: bool)
        ensures
            r == satisfiable(self@),
    {
        let mut i: usize = 0;
        while i < self.alternatives.len()
            invariant
                0 <= i <= self.alternatives.len(),
                forall|a: int|
                    0 <= a < i ==> !((#[trigger] self@[a]).len() > 0 && forall|k: int|
                        0 <= k < self@[a].len() ==> self@[a][k] != Set::<int>::empty()),
            decreases self.alternatives.len() - i,
        {
            let alternative = &self.alternatives[i];
            assert(self@[i as int] == slots_view(alternative@));
            if alternative.len() > 0 {
                let mut all_filled = true;
                let mut k: usize = 0;
                while k < alternative.len()
                    invariant
                        0 <= k <= alternative.len(),
                        all_filled == forall|j: int| 0 <= j < k ==> alternative@[j]@ != Set::<int>::empty(),
                    decreases alternative.len() - k,
                {
                    if alternative[k].is_empty() {
                        all_filled = false;
                    }
                    k = k + 1;
                }
                if all_filled {
                    assert forall|j: int| 0 <= j < alternative.len() implies self@[i as int][j] == alternative@[j]@ by {}
                assert(forall|j: int| 0 <= j < self@[i as int].len() ==> self@[i as int][j] != Set::<int>::empty());
                    return true;
                }
                let ghost j = choose|j: int| 0 <= j < alternative.len() && alternative@[j]@ == Set::<int>::empty();
                assert(self@[i as int][j] == alternative@[j]@);
                assert(!(forall|j: int| 0 <= j < self@[i as int].len() ==> self@[i as int][j] != Set::<int>::empty()));
            }
            i = i + 1;
        }
        false
    }

    /// The canonical form: uppercase ranks, lowercase suits, slots separated
    /// by spaces and alternatives by commas.
    pub fn to_string(&self) -> (r: String)
        ensures
            r@ == spec_text(self.rows()),
    {
        let mut s = String::new();
        let mut i: usize = 0;
        while i < self.alternatives.len()
            invariant
                0 <= i <= self.alternatives.len(),
                s@ == spec_text(self.rows().take(i as int)),
            decreases self.alternatives.len() - i,
        {
            let ghost start = s@;
            if i > 0 {
                push_char(&mut s, ',');
                push_char(&mut s, ' ');
            }
            let alternative = &self.alternatives[i];
            assert(alternative@ == self.rows()[i as int]);
            let ghost before = s@;
            assert(alternative@.take(0) =~= Seq::<CardSet>::empty());
            assert(s@ =~= before + alternative_text(alternative@.take(0)));
            let mut j: usize = 0;
            while j < alternative.len()
                invariant
                    0 <= j <= alternative.len(),
                    s@ == before + alternative_text(alternative@.take(j as int)),
                decreases alternative.len() - j,
            {
                if j > 0 {
                    push_char(&mut s, ' ');
                }
                write_slot(&mut s, alternative[j]);
                assert(alternative@.take(j + 1).drop_last() =~= alternative@.take(j as int));
                assert(s@ =~= before + alternative_text(alternative@.take(j + 1)));
                j = j + 1;
            }
            assert(alternative@.take(alternative.len() as int) =~= alternative@);
            assert(self.rows().take(i + 1).drop_last() =~= self.rows().take(i as int));
            assert(self.rows().take(i + 1).last() == self.rows()[i as int]);
            assert(s@ =~= spec_text(self.rows().take(i + 1)));
            i = i + 1;
        }
        assert(self.rows().take(self.alternatives.len() as int) =~= self.rows());
        s
    }
}

/// A set of one element is that element alone.
pub(crate) proof fn lemma_singleton(s: Set<int>, x: int)
    requires
        s.finite(),
        s.len() == 1,
        s.contains(x),
    ensures
        s == Set::<int>::empty().insert(x),
{
    assert forall|y: int| s.contains(y) implies y == x by {
        if y != x {
            assert(s.remove(x).contains(y));
            assert(s.remove(x).len() == 0);
        }
    }
    assert(s =~= Set::<int>::empty().insert(x));
}

/// Appends one slot in the notation that produced it.
///
/// The grammar can only make four shapes -- a named card, a whole rank, a
/// whole suit, or anything at all -- so those round-trip. A mask built
/// directly may be none of them, and is listed in brackets instead.
fn write_slot(s: &mut String, slot: CardSet)
    ensures
        final(s)@ == old(s)@ + slot_text(slot),
{
    if slot.same(CardSet::FULL_DECK()) {
        push_char(s, '*');
        return;
    }
    if slot.len() == 1 {
        let cards = slot.iter();
        let card = cards[0];
        proof {
            lemma_singleton(slot@, card.idx() as int);
            let c = choose|i: int| slot@.contains(i);
            assert(slot@.contains(c));
        }
        let name = card.to_string();
        push_str(s, name.as_str());
        return;
    }
    let ranks = Rank::all();
    let mut i: usize = 0;
    while i < 13
        invariant
            0 <= i <= 13,
            forall|j: int| 0 <= j < 13 ==> (#[trigger] ranks@[j]).index() == j,
            forall|r: Rank| r.index() < i ==> slot@ != #[trigger] rank_indices(r),
            s@ == old(s)@,
            slot@ != deck_indices(),
            !(slot@.len() == 1),
        decreases 13 - i,
    {
        let rank = ranks[i];
        if slot.same(CardSet::of_rank(rank)) {
            proof {
                let r = choose|r: Rank| slot@ == rank_indices(r);
                assert(rank_indices(r).contains((r.index() * 4) as int));
                assert(rank_indices(rank).contains((r.index() * 4) as int));
            }
            push_char(s, Rank::to_char(rank));
            return;
        }
        i = i + 1;
    }
    assert(!exists|r: Rank| slot@ == rank_indices(r)) by {
        assert forall|r: Rank| slot@ != #[trigger] rank_indices(r) by {
            Rank::lemma_at_index(r);
        }
    }
    let suits = Suit::all();
    let mut k: usize = 0;
    while k < 4
        invariant
            0 <= k <= 4,
            forall|j: int| 0 <= j < 4 ==> (#[trigger] suits@[j]).index() == j,
            forall|u: Suit| u.index() < k ==> slot@ != #[trigger] suit_indices(u),
            s@ == old(s)@,
            slot@ != deck_indices(),
            !(slot@.len() == 1),
            !exists|r: Rank| slot@ == rank_indices(r),
        decreases 4 - k,
    {
        let suit = suits[k];
        if slot.same(CardSet::of_suit(suit)) {
            proof {
                let u = choose|u: Suit| slot@ == suit_indices(u);
                assert(suit_indices(u).contains(u.index() as int));
                assert(suit_indices(suit).contains(u.index() as int));
            }
            push_char(s, Suit::to_char(suit));
            return;
        }
        k = k + 1;
    }
    assert(!exists|u: Suit| slot@ == suit_indices(u)) by {
        assert forall|u: Suit| slot@ != #[trigger] suit_indices(u) by {
            Suit::lemma_at_index(u);
        }
    }
    push_char(s, '[');
    let inner = slot.to_string();
    push_str(s, inner.as_str());
    push_char(s, ']');
    assert(final(s)@ =~= old(s)@ + slot_text(slot));
}

} // verus!
