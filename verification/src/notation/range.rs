//! Two-card ranges: `AKs`, `22+`, `JTs-76s`.

use vstd::prelude::*;

use super::error::NotationErrorKind;
use crate::cards::{rank_of_char, Card, Rank, Suit};
use crate::text::{find_char, first_of, has_char};

verus! {

broadcast use {Rank::lemma_at_index, Rank::lemma_index_at, Suit::lemma_at_index, Suit::lemma_index_at};

/// Whether a two-card term is restricted to sharing a suit.
#[derive(Clone, Copy, PartialEq, Eq, Debug, Structural)]
pub enum Suitedness {
    Suited,
    Offsuit,
    Any,
}

/// A range term such as `AKs`, `AKo`, `AK` or `22`, normalised so that `high`
/// is never below `low`.
#[derive(Clone, Copy, PartialEq, Eq, Debug, Structural)]
pub struct Combo {
    pub high: Rank,
    pub low: Rank,
    pub suitedness: Suitedness,
}

/// Whether a combo admits the hand with its high card in suit `hs` and its
/// low card in suit `ls`. A pair takes each two-suit choice once.
pub open spec fn wanted(c: Combo, hs: nat, ls: nat) -> bool {
    if c.high == c.low {
        hs < ls
    } else {
        match c.suitedness {
            Suitedness::Suited => hs == ls,
            Suitedness::Offsuit => hs != ls,
            Suitedness::Any => true,
        }
    }
}

/// The hands a combo admits among the first `k` suit choices, each as the
/// indices of its high card and its low card. Choice `k` puts the high card
/// in suit `k / 4` and the low card in suit `k % 4`.
pub open spec fn combo_hands_upto(c: Combo, k: nat) -> Seq<(nat, nat)>
    decreases k,
{
    if k == 0 {
        seq![]
    } else {
        let j = (k - 1) as nat;
        combo_hands_upto(c, j) + if wanted(c, j / 4, j % 4) {
            seq![(c.high.index() * 4 + j / 4, c.low.index() * 4 + j % 4)]
        } else {
            seq![]
        }
    }
}

/// Every concrete two-card hand a combo admits.
pub open spec fn combo_hands(c: Combo) -> Seq<(nat, nat)> {
    combo_hands_upto(c, 16)
}

/// The two cards of a hand, as card indices.
pub open spec fn pair_indices(h: [Card; 2]) -> (nat, nat) {
    (h@[0].idx(), h@[1].idx())
}

/// A list of two-card hands, as card indices.
pub open spec fn hands_indices(hs: Seq<[Card; 2]>) -> Seq<(nat, nat)> {
    hs.map_values(|h: [Card; 2]| pair_indices(h))
}

/// What a range term's hand is: two different cards of the term's two
/// ranks, of one suit where the term is suited and of two where it is
/// offsuit.
pub open spec fn fits_term(c: Combo, hand: (nat, nat)) -> bool {
    &&& hand.0 / 4 == c.high.index()
    &&& hand.1 / 4 == c.low.index()
    &&& hand.0 != hand.1
    &&& c.high != c.low && c.suitedness == Suitedness::Suited ==> hand.0 % 4 == hand.1 % 4
    &&& c.high != c.low && c.suitedness == Suitedness::Offsuit ==> hand.0 % 4 != hand.1 % 4
}

/// Every hand among the first `k` suit choices fits the term.
proof fn lemma_hands_fit_upto(c: Combo, k: nat)
    requires
        k <= 16,
    ensures
        forall|i: int| 0 <= i < combo_hands_upto(c, k).len() ==> fits_term(c, #[trigger] combo_hands_upto(c, k)[i]),
    decreases k,
{
    if k > 0 {
        let j = (k - 1) as nat;
        lemma_hands_fit_upto(c, j);
        let front = combo_hands_upto(c, j);
        if wanted(c, j / 4, j % 4) {
            let hand = (c.high.index() * 4 + j / 4, c.low.index() * 4 + j % 4);
            assert(combo_hands_upto(c, k) == front + seq![hand]);
            assert(fits_term(c, hand));
            assert forall|i: int| 0 <= i < combo_hands_upto(c, k).len() implies fits_term(
                c,
                #[trigger] combo_hands_upto(c, k)[i],
            ) by {
                if i < front.len() {
                    assert(combo_hands_upto(c, k)[i] == front[i]);
                }
            }
        } else {
            assert(combo_hands_upto(c, k) =~= front);
        }
    }
}

/// How many concrete hands a range term stands for: a pair six, one per
/// pair of suits; a suited term four; an offsuit term twelve; and a term
/// with no restriction sixteen. Each fits the term.
pub proof fn lemma_combo_counts(c: Combo)
    ensures
        combo_hands(c).len() == if c.high == c.low {
            6nat
        } else {
            match c.suitedness {
                Suitedness::Suited => 4nat,
                Suitedness::Offsuit => 12nat,
                Suitedness::Any => 16nat,
            }
        },
        forall|i: int| 0 <= i < combo_hands(c).len() ==> fits_term(c, #[trigger] combo_hands(c)[i]),
{
    lemma_hands_fit_upto(c, 16);
    reveal_with_fuel(combo_hands_upto, 17);
}

impl Combo {
    /// Whether both cards share a rank.
    pub fn is_pair(self) -> (r: bool)
        ensures
            r == (self.high == self.low),
    {
        self.high == self.low
    }

    /// The gap between the two ranks; zero for a pair, one for connectors.
    pub fn gap(self) -> (r: u8)
        requires
            self.low.index() <= self.high.index(),
        ensures
            r == self.high.index() - self.low.index(),
    {
        self.high.to_value() - self.low.to_value()
    }

    /// Every concrete two-card hand this term admits.
    pub fn cards(self) -> (r: Vec<[Card; 2]>)
        ensures
            hands_indices(r@) == combo_hands(self),
    {
        let mut out: Vec<[Card; 2]> = Vec::new();
        let suits = Suit::all();
        let pair = self.is_pair();
        let mut hs: usize = 0;
        while hs < 4
            invariant
                hs <= 4,
                pair == (self.high == self.low),
                forall|i: int| 0 <= i < 4 ==> (#[trigger] suits@[i]).index() == i,
                hands_indices(out@) == combo_hands_upto(self, (hs * 4) as nat),
            decreases 4 - hs,
        {
            let mut ls: usize = 0;
            while ls < 4
                invariant
                    hs < 4,
                    ls <= 4,
                    pair == (self.high == self.low),
                    forall|i: int| 0 <= i < 4 ==> (#[trigger] suits@[i]).index() == i,
                    hands_indices(out@) == combo_hands_upto(self, (hs * 4 + ls) as nat),
                decreases 4 - ls,
            {
                let wanted_here = if pair {
                    hs < ls
                } else {
                    match self.suitedness {
                        Suitedness::Suited => hs == ls,
                        Suitedness::Offsuit => hs != ls,
                        Suitedness::Any => true,
                    }
                };
                let ghost k = (hs * 4 + ls) as nat;
                assert(k / 4 == hs && k % 4 == ls);
                assert(wanted_here == wanted(self, k / 4, k % 4));
                if wanted_here {
                    let hand = [Card::new(suits[hs], self.high), Card::new(suits[ls], self.low)];
                    assert(hands_indices(out@.push(hand)) =~= hands_indices(out@).push(
                        pair_indices(hand),
                    ));
                    out.push(hand);
                } else {
                    assert(combo_hands_upto(self, k + 1) =~= combo_hands_upto(self, k));
                }
                ls = ls + 1;
            }
            hs = hs + 1;
        }
        out
    }
}

/// The rank at value `value`, two to fourteen.
pub fn rank_at(value: u8) -> (r: Rank)
    requires
        2 <= value <= 14,
    ensures
        r == Rank::at((value - 2) as nat),
{
    Rank::from_index(value - 2)
}

/// The combo a term names, if it is a range term at all: two ranks, then an
/// optional `s` or `o` in either case.
pub open spec fn combo_of(t: Seq<char>) -> Option<Result<Combo, NotationErrorKind>> {
    if t.len() < 2 || t.len() > 3 {
        None
    } else if rank_of_char(t[0]) is None || rank_of_char(t[1]) is None {
        None
    } else if t.len() == 3 && !(t[2] == 's' || t[2] == 'S' || t[2] == 'o' || t[2] == 'O') {
        None
    } else {
        let first = rank_of_char(t[0])->0;
        let second = rank_of_char(t[1])->0;
        let suitedness = if t.len() == 2 {
            Suitedness::Any
        } else if t[2] == 's' || t[2] == 'S' {
            Suitedness::Suited
        } else {
            Suitedness::Offsuit
        };
        let (high, low) = if first.index() >= second.index() {
            (first, second)
        } else {
            (second, first)
        };
        if high == low && suitedness != Suitedness::Any {
            Some(Err(NotationErrorKind::PairWithSuitedness))
        } else {
            Some(Ok(Combo { high, low, suitedness }))
        }
    }
}

/// Reading a two-rank term: the higher rank comes first whichever was
/// written first; no marker means either, `s` suited and `o` offsuit; a
/// pair with a marker is refused; any other third character means the text
/// is not a range term at all.
pub proof fn lemma_reading_a_term(a: char, b: char, rest: Seq<char>)
    requires
        rank_of_char(a) is Some,
        rank_of_char(b) is Some,
        rest.len() <= 1,
    ensures
        ({
            let x = rank_of_char(a)->0;
            let y = rank_of_char(b)->0;
            let marked = rest.len() == 1;
            let suited = marked && (rest[0] == 's' || rest[0] == 'S');
            let offsuit = marked && (rest[0] == 'o' || rest[0] == 'O');
            let r = combo_of(seq![a, b] + rest);
            &&& marked && !suited && !offsuit ==> r is None
            &&& (suited || offsuit) && x.index() == y.index() ==> r == Some(
                Err::<Combo, NotationErrorKind>(NotationErrorKind::PairWithSuitedness),
            )
            &&& (!marked || ((suited || offsuit) && x.index() != y.index())) ==> (r matches Some(Ok(c)) && {
                &&& c.high.index() >= c.low.index()
                &&& (c.high == x && c.low == y) || (c.high == y && c.low == x)
                &&& c.suitedness == if suited {
                    Suitedness::Suited
                } else if offsuit {
                    Suitedness::Offsuit
                } else {
                    Suitedness::Any
                }
            })
        }),
{
    let t = seq![a, b] + rest;
    assert(t[0] == a && t[1] == b);
    assert(rest.len() == 1 ==> t[2] == rest[0]);
    let x = rank_of_char(a)->0;
    let y = rank_of_char(b)->0;
    Rank::lemma_at_index(x);
    Rank::lemma_at_index(y);
}

/// Reads one range term, or `None` when the text is not one at all.
///
/// A term is a range only when it matches this grammar exactly: two ranks,
/// then an optional `s` or `o`. That is what keeps `Ts` (the ten of spades,
/// one rank and a suit) apart from `AKs` (a range, two ranks and a marker).
pub fn parse_combo(t: &Vec<char>, a: usize, b: usize) -> (r: Option<Result<Combo, NotationErrorKind>>)
    requires
        a <= b <= t.len(),
    ensures
        r == combo_of(t@.subrange(a as int, b as int)),
{
    let ghost term = t@.subrange(a as int, b as int);
    if b - a < 2 || b - a > 3 {
        return None;
    }
    let first = match Rank::from_char(t[a]) {
        Ok(rank) => rank,
        Err(_) => return None,
    };
    let second = match Rank::from_char(t[a + 1]) {
        Ok(rank) => rank,
        Err(_) => return None,
    };
    let suitedness = if b - a == 2 {
        Suitedness::Any
    } else {
        let marker = t[a + 2];
        if marker == 's' || marker == 'S' {
            Suitedness::Suited
        } else if marker == 'o' || marker == 'O' {
            Suitedness::Offsuit
        } else {
            return None;
        }
    };
    let (high, low) = if first.to_value() >= second.to_value() {
        (first, second)
    } else {
        (second, first)
    };
    if high == low && suitedness != Suitedness::Any {
        return Some(Err(NotationErrorKind::PairWithSuitedness));
    }
    Some(Ok(Combo { high, low, suitedness }))
}

/// What `+` makes of a combo: every pair from it up, or for a non-pair,
/// every lower card from it up to just below the higher.
pub open spec fn walked_up(c: Combo) -> Seq<Combo> {
    if c.high == c.low {
        Seq::new(
            (13 - c.high.index()) as nat,
            |i: int|
                Combo {
                    high: Rank::at((c.high.index() + i) as nat),
                    low: Rank::at((c.high.index() + i) as nat),
                    suitedness: c.suitedness,
                },
        )
    } else {
        Seq::new(
            (c.high.index() - c.low.index()) as nat,
            |i: int|
                Combo {
                    high: c.high,
                    low: Rank::at((c.low.index() + i) as nat),
                    suitedness: c.suitedness,
                },
        )
    }
}

/// A `+` on a non-pair raises the lower card and leaves the higher alone, so
/// every combo it makes keeps the higher card and stays below it.
pub proof fn lemma_plus_stays_below_the_high_card(c: Combo)
    requires
        c.high != c.low,
        c.low.index() <= c.high.index(),
    ensures
        forall|i: int|
            0 <= i < walked_up(c).len() ==> (#[trigger] walked_up(c)[i]).high == c.high
                && walked_up(c)[i].low.index() < c.high.index() && walked_up(c)[i].suitedness
                == c.suitedness,
{
    assert forall|i: int| 0 <= i < walked_up(c).len() implies (#[trigger] walked_up(c)[i]).high
        == c.high && walked_up(c)[i].low.index() < c.high.index() && walked_up(c)[i].suitedness
        == c.suitedness by {
        assert(c.high.index() < 13);
        assert(Rank::at((c.low.index() + i) as nat).index() == c.low.index() + i);
    }
}

/// A `+` on a pair climbs through the pairs: it starts at the pair written,
/// every combo it makes is a pair no lower than that, each higher than the
/// one before, and there are as many as there are ranks from it up to the
/// ace -- so every such pair comes once.
pub proof fn lemma_pair_plus_climbs(c: Combo)
    requires
        c.high == c.low,
    ensures
        walked_up(c).len() == 13 - c.high.index(),
        walked_up(c)[0] == c,
        forall|i: int|
            0 <= i < walked_up(c).len() ==> (#[trigger] walked_up(c)[i]).high == walked_up(c)[i].low
                && walked_up(c)[i].high.index() >= c.high.index() && walked_up(c)[i].suitedness == c.suitedness,
        forall|i: int, j: int|
            0 <= i < j < walked_up(c).len() ==> (#[trigger] walked_up(c)[i]).high.index() < (
            #[trigger] walked_up(c)[j]).high.index(),
{
    assert(c.high.index() < 13);
    assert(Rank::at(c.high.index()) == c.high);
    assert forall|i: int| 0 <= i < walked_up(c).len() implies (#[trigger] walked_up(c)[i]).high == walked_up(c)[i].low
        && walked_up(c)[i].high.index() >= c.high.index() && walked_up(c)[i].suitedness == c.suitedness by {
        assert(Rank::at((c.high.index() + i) as nat).index() == c.high.index() + i);
    }
    assert forall|i: int, j: int| 0 <= i < j < walked_up(c).len() implies (#[trigger] walked_up(c)[i]).high.index() < (
    #[trigger] walked_up(c)[j]).high.index() by {
        assert(Rank::at((c.high.index() + i) as nat).index() == c.high.index() + i);
        assert(Rank::at((c.high.index() + j) as nat).index() == c.high.index() + j);
    }
}

/// A `+` on a non-pair starts at the combo written and raises the lower card
/// one rank at a time up to just below the higher: as many combos as there
/// are ranks between the two, each with a higher lower card than the one
/// before.
pub proof fn lemma_plus_raises_the_low_card(c: Combo)
    requires
        c.high != c.low,
        c.low.index() <= c.high.index(),
    ensures
        walked_up(c).len() == c.high.index() - c.low.index(),
        walked_up(c)[0] == c,
        forall|i: int|
            0 <= i < walked_up(c).len() ==> (#[trigger] walked_up(c)[i]).high == c.high
                && walked_up(c)[i].low.index() >= c.low.index() && walked_up(c)[i].low.index() < c.high.index()
                && walked_up(c)[i].suitedness == c.suitedness,
        forall|i: int, j: int|
            0 <= i < j < walked_up(c).len() ==> (#[trigger] walked_up(c)[i]).low.index() < (
            #[trigger] walked_up(c)[j]).low.index(),
{
    assert(c.high.index() < 13);
    assert(c.low.index() != c.high.index());
    assert(Rank::at(c.low.index()) == c.low);
    assert forall|i: int| 0 <= i < walked_up(c).len() implies (#[trigger] walked_up(c)[i]).high == c.high
        && walked_up(c)[i].low.index() >= c.low.index() && walked_up(c)[i].low.index() < c.high.index()
        && walked_up(c)[i].suitedness == c.suitedness by {
        assert(Rank::at((c.low.index() + i) as nat).index() == c.low.index() + i);
    }
    assert forall|i: int, j: int| 0 <= i < j < walked_up(c).len() implies (#[trigger] walked_up(c)[i]).low.index() < (
    #[trigger] walked_up(c)[j]).low.index() by {
        assert(Rank::at((c.low.index() + i) as nat).index() == c.low.index() + i);
        assert(Rank::at((c.low.index() + j) as nat).index() == c.low.index() + j);
    }
}

/// Walks `combo` upwards, the way `+` does: `22+` is every pair, `A2s+` runs
/// to `AKs`, `KTs+` stops below the king.
pub fn walk_up(combo: Combo) -> (r: Vec<Combo>)
    requires
        combo.low.index() <= combo.high.index(),
    ensures
        r@ == walked_up(combo),
{
    let mut out: Vec<Combo> = Vec::new();
    if combo.is_pair() {
        let mut value: u8 = combo.high.to_value();
        while value <= 14
            invariant
                combo.high == combo.low,
                combo.high.value() <= value <= 15,
                out@ == walked_up(combo).take(value - combo.high.value()),
            decreases 15 - value,
        {
            let rank = rank_at(value);
            out.push(Combo { high: rank, low: rank, ..combo });
            assert(out@ =~= walked_up(combo).take(value + 1 - combo.high.value()));
            value = value + 1;
        }
        assert(walked_up(combo).take(15 - combo.high.value()) =~= walked_up(combo));
        return out;
    }
    let mut value: u8 = combo.low.to_value();
    while value < combo.high.to_value()
        invariant
            combo.high != combo.low,
            combo.low.index() <= combo.high.index(),
            combo.low.value() <= value <= combo.high.value(),
            out@ == walked_up(combo).take(value - combo.low.value()),
        decreases combo.high.value() - value,
    {
        out.push(Combo { low: rank_at(value), ..combo });
        assert(out@ =~= walked_up(combo).take(value + 1 - combo.low.value()));
        value = value + 1;
    }
    assert(walked_up(combo).take(combo.high.value() - combo.low.value()) =~= walked_up(combo));
    out
}

/// What `-` makes of two combos: both ends must share a gap and a
/// suitedness, and the run goes from the lower to the higher.
pub open spec fn walked_between(a: Combo, b: Combo) -> Result<Seq<Combo>, NotationErrorKind> {
    if a.suitedness != b.suitedness || a.high.index() - a.low.index() != b.high.index()
        - b.low.index() {
        Err(NotationErrorKind::MismatchedRangeEnds)
    } else {
        let (lower, upper) = if a.high.index() <= b.high.index() {
            (a, b)
        } else {
            (b, a)
        };
        let gap = lower.high.index() - lower.low.index();
        Ok(
            Seq::new(
                (upper.high.index() - lower.high.index() + 1) as nat,
                |i: int|
                    Combo {
                        high: Rank::at((lower.high.index() + i) as nat),
                        low: Rank::at((lower.high.index() + i - gap) as nat),
                        suitedness: lower.suitedness,
                    },
            ),
        )
    }
}

/// The run of a `-` range whose first end is the lower.
proof fn lemma_run_from_lower(lower: Combo, upper: Combo)
    requires
        lower.low.index() <= lower.high.index(),
        upper.low.index() <= upper.high.index(),
        lower.high.index() <= upper.high.index(),
        lower.suitedness == upper.suitedness,
        lower.high.index() - lower.low.index() == upper.high.index() - upper.low.index(),
    ensures
        walked_between(lower, upper) matches Ok(s) && {
            &&& s.len() >= 1
            &&& s[0] == lower
            &&& s.last() == upper
            &&& forall|i: int|
                0 <= i < s.len() ==> (#[trigger] s[i]).high.index() - s[i].low.index() == lower.high.index()
                    - lower.low.index() && s[i].suitedness == lower.suitedness
            &&& forall|i: int| 0 < i < s.len() ==> (#[trigger] s[i]).high.index() == s[i - 1].high.index() + 1
        },
{
    let s = walked_between(lower, upper)->Ok_0;
    let gap = lower.high.index() - lower.low.index();
    let h = lower.high.index();
    assert(upper.high.index() < 13);
    assert forall|i: int| 0 <= i < s.len() implies (#[trigger] s[i]).high.index() == h + i && s[i].low.index()
        == h + i - gap && s[i].suitedness == lower.suitedness by {
        assert(s[i] == Combo {
            high: Rank::at((h + i) as nat),
            low: Rank::at((h + i - gap) as nat),
            suitedness: lower.suitedness,
        });
        Rank::lemma_index_at((h + i) as nat);
        Rank::lemma_index_at((h + i - gap) as nat);
    }
    Rank::lemma_at_index(lower.high);
    Rank::lemma_at_index(lower.low);
    Rank::lemma_at_index(upper.high);
    Rank::lemma_at_index(upper.low);
    assert(s[0].high.index() == h && s[0].low.index() == h - gap);
    assert(s[0] == lower);
    let last = s.len() - 1;
    assert(s[last].high.index() == upper.high.index());
    assert(s.last() == upper);
}

/// A `-` range is refused exactly when its ends differ in suitedness or in
/// gap. Otherwise it runs from the lower end to the higher, the higher card
/// one rank up each time, every combo keeping the ends' gap and
/// suitedness.
#[verifier::rlimit(50)]
pub proof fn lemma_range_keeps_the_gap(a: Combo, b: Combo)
    requires
        a.low.index() <= a.high.index(),
        b.low.index() <= b.high.index(),
    ensures
        walked_between(a, b) is Err <==> (a.suitedness != b.suitedness || a.high.index() - a.low.index()
            != b.high.index() - b.low.index()),
        walked_between(a, b) matches Ok(s) ==> {
            &&& s.len() >= 1
            &&& s[0] == (if a.high.index() <= b.high.index() {
                a
            } else {
                b
            })
            &&& s.last() == (if a.high.index() <= b.high.index() {
                b
            } else {
                a
            })
            &&& forall|i: int|
                0 <= i < s.len() ==> (#[trigger] s[i]).high.index() - s[i].low.index() == a.high.index()
                    - a.low.index() && s[i].suitedness == a.suitedness
            &&& forall|i: int| 0 < i < s.len() ==> (#[trigger] s[i]).high.index() == s[i - 1].high.index() + 1
        },
{
    if a.suitedness == b.suitedness && a.high.index() - a.low.index() == b.high.index() - b.low.index() {
        if a.high.index() <= b.high.index() {
            lemma_run_from_lower(a, b);
        } else {
            lemma_range_ends_either_way(a, b);
            lemma_run_from_lower(b, a);
        }
    }
}

/// Either end of a `-` range may be written first: the run is the same.
pub proof fn lemma_range_ends_either_way(a: Combo, b: Combo)
    ensures
        walked_between(a, b) == walked_between(b, a),
{
    if a.suitedness == b.suitedness && a.high.index() - a.low.index() == b.high.index()
        - b.low.index() && a.high.index() == b.high.index() {
        let x = walked_between(a, b)->Ok_0;
        let y = walked_between(b, a)->Ok_0;
        assert(x =~= y);
    }
}

/// A range term's two ranks may be written in either order.
pub proof fn lemma_combo_ranks_either_way(first: char, second: char, rest: Seq<char>)
    requires
        rank_of_char(first) is Some,
        rank_of_char(second) is Some,
        rest.len() <= 1,
    ensures
        combo_of(seq![first, second] + rest) == combo_of(seq![second, first] + rest),
{
    let s = seq![first, second] + rest;
    let t = seq![second, first] + rest;
    assert(s[0] == first && s[1] == second && t[0] == second && t[1] == first);
    assert(rest.len() == 1 ==> s[2] == rest[0] && t[2] == rest[0]);
    let r1 = rank_of_char(first)->0;
    let r2 = rank_of_char(second)->0;
    if r1.index() == r2.index() {
        assert(Rank::at(r1.index()) == r1 && Rank::at(r2.index()) == r2);
    }
}

/// Walks between two terms, the way `JTs-76s` does. Both ends must share a
/// gap and a suitedness, and either may be written first.
#[verifier::rlimit(40)]
pub fn walk_between(a: Combo, b: Combo) -> (r: Result<Vec<Combo>, NotationErrorKind>)
    requires
        a.low.index() <= a.high.index(),
        b.low.index() <= b.high.index(),
    ensures
        match (r, walked_between(a, b)) {
            (Ok(v), Ok(s)) => v@ == s,
            (Err(e), Err(f)) => e == f,
            _ => false,
        },
{
    if a.suitedness != b.suitedness || a.gap() != b.gap() {
        return Err(NotationErrorKind::MismatchedRangeEnds);
    }
    let (lower, upper) = if a.high.to_value() <= b.high.to_value() {
        (a, b)
    } else {
        (b, a)
    };
    let gap = lower.gap();
    let ghost s = walked_between(a, b)->Ok_0;
    let mut out: Vec<Combo> = Vec::new();
    let mut value: u8 = lower.high.to_value();
    while value <= upper.high.to_value()
        invariant
            lower.high.index() <= upper.high.index(),
            gap == lower.high.index() - lower.low.index(),
            lower.high.value() <= value <= upper.high.value() + 1,
            walked_between(a, b) is Ok,
            s == walked_between(a, b)->Ok_0,
            s.len() == upper.high.index() - lower.high.index() + 1,
            forall|i: int|
                0 <= i < s.len() ==> (#[trigger] s[i]) == (Combo {
                    high: Rank::at((lower.high.index() + i) as nat),
                    low: Rank::at((lower.high.index() + i - gap) as nat),
                    suitedness: lower.suitedness,
                }),
            out@ == s.take(value - lower.high.value()),
        decreases upper.high.value() + 1 - value,
    {
        out.push(Combo { high: rank_at(value), low: rank_at(value - gap), suitedness: lower.suitedness });
        assert(out@ =~= s.take(value + 1 - lower.high.value()));
        value = value + 1;
    }
    assert(s.take(upper.high.value() + 1 - lower.high.value()) =~= s);
    Ok(out)
}

/// Every hand a list of combos admits, combo by combo.
pub open spec fn hands_of(cs: Seq<Combo>) -> Seq<(nat, nat)>
    decreases cs.len(),
{
    if cs.len() == 0 {
        seq![]
    } else {
        hands_of(cs.drop_last()) + combo_hands(cs.last())
    }
}

/// The hands a non-empty list of combos admits; an empty one names nothing.
pub open spec fn finish_range(cs: Seq<Combo>) -> Option<Result<Seq<(nat, nat)>, NotationErrorKind>> {
    if cs.len() == 0 {
        Some(Err(NotationErrorKind::EmptyRange))
    } else {
        Some(Ok(hands_of(cs)))
    }
}

/// What a term means as a range: `None` when it is not a range at all, an
/// error when it is plainly meant as one but cannot be, and otherwise every
/// hand it names.
pub open spec fn range_of(t: Seq<char>) -> Option<Result<Seq<(nat, nat)>, NotationErrorKind>> {
    if t.contains('%') {
        Some(Err(NotationErrorKind::PercentageRange))
    } else if first_of(t, '-') is Some {
        let m = first_of(t, '-')->0;
        match combo_of(t.take(m)) {
            None => None,
            Some(Err(k)) => Some(Err(k)),
            Some(Ok(left)) => match combo_of(t.skip(m + 1)) {
                None => None,
                Some(Err(k)) => Some(Err(k)),
                Some(Ok(right)) => match walked_between(left, right) {
                    Err(k) => Some(Err(k)),
                    Ok(cs) => finish_range(cs),
                },
            },
        }
    } else if t.len() > 0 && t.last() == '+' {
        match combo_of(t.drop_last()) {
            None => None,
            Some(Err(k)) => Some(Err(k)),
            Some(Ok(c)) => finish_range(walked_up(c)),
        }
    } else {
        match combo_of(t) {
            None => None,
            Some(Err(k)) => Some(Err(k)),
            Some(Ok(c)) => finish_range(seq![c]),
        }
    }
}

/// A range's outcome, read through the hands' card indices.
pub open spec fn range_outcome(r: Option<Result<Vec<[Card; 2]>, NotationErrorKind>>) -> Option<
    Result<Seq<(nat, nat)>, NotationErrorKind>,
> {
    match r {
        None => None,
        Some(Err(k)) => Some(Err(k)),
        Some(Ok(v)) => Some(Ok(hands_indices(v@))),
    }
}

/// The hands of every combo in `combos`, in order.
fn expand(combos: &Vec<Combo>) -> (r: Vec<[Card; 2]>)
    ensures
        hands_indices(r@) == hands_of(combos@),
{
    let mut hands: Vec<[Card; 2]> = Vec::new();
    let mut i: usize = 0;
    while i < combos.len()
        invariant
            0 <= i <= combos.len(),
            hands_indices(hands@) == hands_of(combos@.take(i as int)),
        decreases combos.len() - i,
    {
        let more = combos[i].cards();
        let ghost before = hands@;
        let mut j: usize = 0;
        while j < more.len()
            invariant
                0 <= j <= more.len(),
                hands_indices(hands@) == hands_indices(before) + hands_indices(more@.take(j as int)),
            decreases more.len() - j,
        {
            assert(hands_indices(hands@.push(more[j as int])) =~= hands_indices(hands@).push(
                pair_indices(more@[j as int]),
            ));
            assert(hands_indices(more@.take(j + 1)) =~= hands_indices(more@.take(j as int)).push(
                pair_indices(more@[j as int]),
            ));
            hands.push(more[j]);
            j = j + 1;
        }
        assert(more@.take(more.len() as int) =~= more@);
        assert(combos@.take(i + 1).drop_last() =~= combos@.take(i as int));
        i = i + 1;
    }
    assert(combos@.take(combos.len() as int) =~= combos@);
    hands
}

/// Reads a whole range term into the hands it names.
///
/// Returns `None` when the term is not a range at all, so the caller can fall
/// back to reading it as a list of slots. Returns `Some(Err(..))` when it is
/// plainly meant as a range but cannot be one.
pub fn parse_range(t: &Vec<char>, a: usize, b: usize) -> (r: Option<Result<Vec<[Card; 2]>, NotationErrorKind>>)
    requires
        a <= b <= t.len(),
    ensures
        range_outcome(r) == range_of(t@.subrange(a as int, b as int)),
{
    let ghost term = t@.subrange(a as int, b as int);
    if has_char(t, a, b, '%') {
        return Some(Err(NotationErrorKind::PercentageRange));
    }
    let combos = if let Some(m) = find_char(t, a, b, '-') {
        proof {
            crate::text::lemma_first_from(term, '-', 0);
        }
        assert(term.take(m as int) =~= t@.subrange(a as int, (a + m) as int));
        assert(term.skip(m + 1) =~= t@.subrange((a + m + 1) as int, b as int));
        let left = match parse_combo(t, a, a + m) {
            None => return None,
            Some(Err(kind)) => return Some(Err(kind)),
            Some(Ok(combo)) => combo,
        };
        let right = match parse_combo(t, a + m + 1, b) {
            None => return None,
            Some(Err(kind)) => return Some(Err(kind)),
            Some(Ok(combo)) => combo,
        };
        match walk_between(left, right) {
            Ok(combos) => combos,
            Err(kind) => return Some(Err(kind)),
        }
    } else if b > a && t[b - 1] == '+' {
        assert(term.drop_last() =~= t@.subrange(a as int, b - 1));
        match parse_combo(t, a, b - 1) {
            None => return None,
            Some(Err(kind)) => return Some(Err(kind)),
            Some(Ok(combo)) => walk_up(combo),
        }
    } else {
        match parse_combo(t, a, b) {
            None => return None,
            Some(Err(kind)) => return Some(Err(kind)),
            Some(Ok(combo)) => vec![combo],
        }
    };
    if combos.len() == 0 {
        return Some(Err(NotationErrorKind::EmptyRange));
    }
    proof {
        if first_of(term, '-') is None && !(term.len() > 0 && term.last() == '+') {
            assert(combos@ =~= seq![combos@[0]]);
        }
    }
    Some(Ok(expand(&combos)))
}

} // verus!
