//! A table of five-card draw: players, the deck they are dealt from, and the
//! exchange of cards.

use vstd::prelude::*;

use crate::cards::{deck_indices, discard_outcome, first_absent, Card, CardSet, Deck};
use crate::error::{CardError, GameError, PokerError};
use crate::hand::room_for;
use crate::poker::player::{overflow_at, Player};
use crate::text::{same_text, string_of};

verus! {

broadcast use {Card::lemma_idx, Card::lemma_card_at};

/// The first seat from `i` on whose player is called `name`.
pub open spec fn seat_from(seats: Seq<Player>, name: Seq<char>, i: int) -> Option<int>
    decreases seats.len() - i,
{
    if i < 0 || i >= seats.len() {
        None
    } else if seats[i].named() == name {
        Some(i)
    } else {
        seat_from(seats, name, i + 1)
    }
}

/// The first seat whose player is called `name`.
pub open spec fn seat_of(seats: Seq<Player>, name: Seq<char>) -> Option<int> {
    seat_from(seats, name, 0)
}

/// The seat found, if any, is a seat of a player called `name`, with no
/// such player before it.
pub proof fn lemma_seat_from(seats: Seq<Player>, name: Seq<char>, i: int)
    requires
        0 <= i,
    ensures
        seat_from(seats, name, i) matches Some(p) ==> i <= p < seats.len() && seats[p].named() == name,
    decreases seats.len() - i,
{
    if i < seats.len() && seats[i].named() != name {
        lemma_seat_from(seats, name, i + 1);
    }
}

/// A hand dealt from a deck that now holds `left`: at most five cards, none
/// twice, and none still in the deck.
pub open spec fn dealt_from(h: Seq<Card>, left: Set<int>) -> bool {
    &&& h.len() <= 5
    &&& h.no_duplicates()
    &&& forall|i: int| 0 <= i < h.len() ==> !left.contains(#[trigger] h[i].idx() as int)
}

/// No card is held by two seats.
pub open spec fn apart(seats: Seq<Player>) -> bool {
    forall|p: int, q: int, i: int, j: int|
        #![trigger seats[p].held()[i], seats[q].held()[j]]
        0 <= p < seats.len() && 0 <= q < seats.len() && p != q && 0 <= i < seats[p].held().len()
            && 0 <= j < seats[q].held().len() ==> seats[p].held()[i] != seats[q].held()[j]
}

/// Seats keep no card in common when one of them takes a card no other seat
/// holds.
proof fn lemma_apart_take(before: Seq<Player>, after: Seq<Player>, s: int, c: Card)
    requires
        apart(before),
        0 <= s < before.len(),
        after.len() == before.len(),
        forall|q: int| 0 <= q < before.len() && q != s ==> (#[trigger] after[q]).held() == before[q].held(),
        after[s].held() == before[s].held().push(c),
        forall|q: int| 0 <= q < before.len() && q != s ==> !(#[trigger] before[q]).held().contains(c),
    ensures
        apart(after),
{
    assert forall|p: int, q: int, i: int, j: int|
        #![trigger after[p].held()[i], after[q].held()[j]]
        0 <= p < after.len() && 0 <= q < after.len() && p != q && 0 <= i < after[p].held().len()
            && 0 <= j < after[q].held().len() implies after[p].held()[i] != after[q].held()[j] by {
        if p == s && i == before[s].held().len() {
            assert(before[q].held()[j] == after[q].held()[j]);
            assert(before[q].held().contains(before[q].held()[j]));
        } else if q == s && j == before[s].held().len() {
            assert(before[p].held()[i] == after[p].held()[i]);
            assert(before[p].held().contains(before[p].held()[i]));
        } else {
            assert(after[p].held()[i] == before[p].held()[i]);
            assert(after[q].held()[j] == before[q].held()[j]);
        }
    }
}

/// Seats keep no card in common when one of them keeps only cards it held.
proof fn lemma_apart_keep(before: Seq<Player>, after: Seq<Player>, s: int)
    requires
        apart(before),
        0 <= s < before.len(),
        after.len() == before.len(),
        forall|q: int| 0 <= q < before.len() && q != s ==> (#[trigger] after[q]).held() == before[q].held(),
        forall|x: int| 0 <= x < after[s].held().len() ==> before[s].held().contains(#[trigger] after[s].held()[x]),
    ensures
        apart(after),
{
    assert forall|p: int, q: int, i: int, j: int|
        #![trigger after[p].held()[i], after[q].held()[j]]
        0 <= p < after.len() && 0 <= q < after.len() && p != q && 0 <= i < after[p].held().len()
            && 0 <= j < after[q].held().len() implies after[p].held()[i] != after[q].held()[j] by {
        if p == s {
            assert(before[s].held().contains(after[s].held()[i]));
            let a = choose|a: int| 0 <= a < before[s].held().len() && before[s].held()[a] == after[s].held()[i];
            assert(after[q].held()[j] == before[q].held()[j]);
            assert(before[p].held()[a] != before[q].held()[j]);
        } else if q == s {
            assert(before[s].held().contains(after[s].held()[j]));
            let b = choose|b: int| 0 <= b < before[s].held().len() && before[s].held()[b] == after[s].held()[j];
            assert(after[p].held()[i] == before[p].held()[i]);
            assert(before[p].held()[i] != before[q].held()[b]);
        } else {
            assert(after[p].held()[i] == before[p].held()[i]);
            assert(after[q].held()[j] == before[q].held()[j]);
        }
    }
}

/// A card still in the deck is held by no seat.
proof fn lemma_in_deck_not_held(seats: Seq<Player>, left: Set<int>, c: Card)
    requires
        forall|p: int| 0 <= p < seats.len() ==> dealt_from(#[trigger] seats[p].held(), left),
        left.contains(c.idx() as int),
    ensures
        forall|q: int| 0 <= q < seats.len() ==> !(#[trigger] seats[q]).held().contains(c),
{
    assert forall|q: int| 0 <= q < seats.len() implies !(#[trigger] seats[q]).held().contains(c) by {
        assert(dealt_from(seats[q].held(), left));
        if seats[q].held().contains(c) {
            let a = choose|a: int| 0 <= a < seats[q].held().len() && seats[q].held()[a] == c;
            assert(!left.contains(seats[q].held()[a].idx() as int));
        }
    }
}

/// What stops the opening deal, if anything, from round `k` and seat `i` on,
/// with `dealt` cards already dealt from a deck of `size`: the deck running
/// out, or a hand that already holds five. Each round deals one card to each
/// seat in turn; `held` is what each seat held before the deal.
pub open spec fn deal_fault(held: Seq<nat>, size: nat, k: nat, i: nat, dealt: nat) -> Option<
    PokerError,
>
    decreases 5 - k, held.len() - i,
{
    if k >= 5 {
        None
    } else if i >= held.len() {
        deal_fault(held, size, k + 1, 0, dealt)
    } else if dealt >= size {
        Some(PokerError::Game(GameError::NotEnoughCards))
    } else if held[i as int] + k >= 5 {
        Some(PokerError::Card(CardError::TooManyCards((held[i as int] + k + 1) as usize)))
    } else {
        deal_fault(held, size, k, i + 1, dealt + 1)
    }
}

/// Two tables seat the same players holding the same cards.
pub open spec fn same_seats(a: Seq<Player>, b: Seq<Player>) -> bool {
    &&& a.len() == b.len()
    &&& forall|q: int|
        0 <= q < a.len() ==> (#[trigger] a[q]).named() == b[q].named() && a[q].held() == b[q].held()
}

/// `now` is `before` with `extra` cards after it, each of them taken from
/// `pool`.
pub open spec fn grew(before: Seq<Card>, now: Seq<Card>, extra: int, pool: Set<int>) -> bool {
    &&& now.len() == before.len() + extra
    &&& now.take(before.len() as int) == before
    &&& forall|j: int| before.len() <= j < now.len() ==> pool.contains(#[trigger] now[j].idx() as int)
}

/// What drawing `n` cards for the player called `name` does to a table that
/// was `before`. The cards are dealt first and then handed over one at a
/// time, so a deck that runs out, a name nobody has, or a hand that fills up
/// each stop it where it stands.
pub open spec fn draw_outcome(
    before: GameState,
    name: Seq<char>,
    n: nat,
    r: Result<(), PokerError>,
    after: GameState,
) -> bool {
    &&& after.seats().len() == before.seats().len()
    &&& after.left().subset_of(before.left())
    &&& forall|q: int|
        0 <= q < before.seats().len() ==> (#[trigger] after.seats()[q]).named()
            == before.seats()[q].named()
    &&& if before.left().len() < n {
        &&& r == Err::<(), PokerError>(PokerError::Game(GameError::NotEnoughCards))
        &&& after.seats() == before.seats()
    } else {
        &&& after.left().len() + n == before.left().len()
        &&& match seat_of(before.seats(), name) {
            None => {
                &&& r matches Err(PokerError::Game(GameError::PlayerNotFound(s))) && s@ == name
                &&& after.seats() == before.seats()
            },
            Some(p) => {
                let h = before.seats()[p].held();
                let got = after.seats()[p].held();
                let room = room_for(h.len(), 5);
                &&& forall|q: int|
                    0 <= q < before.seats().len() && q != p ==> after.seats()[q] == before.seats()[q]
                &&& if n <= room {
                    r is Ok && grew(h, got, n as int, before.left())
                } else {
                    r == Err::<(), PokerError>(
                        PokerError::Card(CardError::TooManyCards(overflow_at(h.len()))),
                    ) && grew(h, got, room as int, before.left())
                }
            },
        }
    }
}

/// What exchanging `ds` for as many new cards does to the player called
/// `name` at a table that was `before`: the player throws `ds` away, as a
/// hand does, and then draws as many cards as `ds` names.
pub open spec fn exchange_outcome(
    before: GameState,
    name: Seq<char>,
    ds: Seq<Card>,
    r: Result<(), PokerError>,
    after: GameState,
) -> bool {
    match seat_of(before.seats(), name) {
        None => {
            &&& r matches Err(PokerError::Game(GameError::PlayerNotFound(s))) && s@ == name
            &&& after.seats() == before.seats()
            &&& after.left() == before.left()
        },
        Some(p) => {
            let h = before.seats()[p].held();
            let kept = h.filter(|c: Card| !ds.contains(c));
            let got = after.seats()[p].held();
            if ds.len() > 5 {
                &&& r == Err::<(), PokerError>(
                    PokerError::Card(CardError::TooManyDiscards(ds.len() as usize)),
                )
                &&& same_seats(after.seats(), before.seats())
                &&& after.left() == before.left()
            } else if let Some(c) = first_absent(h, ds) {
                &&& r == Err::<(), PokerError>(PokerError::Card(CardError::CardNotFound(c)))
                &&& same_seats(after.seats(), before.seats())
                &&& after.left() == before.left()
            } else {
                &&& after.seats().len() == before.seats().len()
                &&& after.left().subset_of(before.left())
                &&& forall|q: int|
                    0 <= q < before.seats().len() && q != p ==> after.seats()[q] == before.seats()[q]
                &&& after.seats()[p].named() == before.seats()[p].named()
                &&& if before.left().len() < ds.len() {
                    r == Err::<(), PokerError>(PokerError::Game(GameError::NotEnoughCards)) && got
                        == kept
                } else if ds.len() > room_for(kept.len(), 5) {
                    &&& r == Err::<(), PokerError>(
                        PokerError::Card(CardError::TooManyCards(overflow_at(kept.len()))),
                    )
                    &&& grew(kept, got, room_for(kept.len(), 5) as int, before.left())
                } else {
                    &&& r is Ok
                    &&& grew(kept, got, ds.len() as int, before.left())
                    &&& after.left().len() + ds.len() == before.left().len()
                    &&& forall|j: int| kept.len() <= j < got.len() ==> !h.contains(#[trigger] got[j])
                }
            }
        },
    }
}

/// How many cards each seat holds.
pub open spec fn hand_sizes(seats: Seq<Player>) -> Seq<nat> {
    seats.map_values(|p: Player| p.held().len())
}

/// What throwing `ds` away from `held` leaves, or the error that refuses it.
pub open spec fn discard_one(held: Seq<Card>, ds: Seq<Card>) -> Result<Seq<Card>, CardError> {
    if ds.len() > 5 {
        Err(CardError::TooManyDiscards(ds.len() as usize))
    } else if let Some(c) = first_absent(held, ds) {
        Err(CardError::CardNotFound(c))
    } else {
        Ok(held.filter(|c: Card| !ds.contains(c)))
    }
}

/// Seats keep their names, so a name finds the same seat.
proof fn lemma_same_names(a: Seq<Player>, b: Seq<Player>, name: Seq<char>, i: int)
    requires
        a.len() == b.len(),
        forall|q: int| 0 <= q < a.len() ==> (#[trigger] b[q]).named() == a[q].named(),
    ensures
        seat_from(a, name, i) == seat_from(b, name, i),
    decreases a.len() - i,
{
    if 0 <= i < a.len() {
        lemma_same_names(a, b, name, i + 1);
    }
}

/// What a filter keeps was there to begin with.
proof fn lemma_filter_from(h: Seq<Card>, pred: spec_fn(Card) -> bool)
    ensures
        forall|x: int| 0 <= x < h.filter(pred).len() ==> h.contains(#[trigger] h.filter(pred)[x]),
    decreases h.len(),
{
    reveal_with_fuel(Seq::<_>::filter, 1);
    if h.len() > 0 {
        let front = h.drop_last();
        lemma_filter_from(front, pred);
        let f = front.filter(pred);
        assert forall|x: int| 0 <= x < h.filter(pred).len() implies h.contains(#[trigger] h.filter(pred)[x]) by {
            if x < f.len() {
                assert(h.filter(pred)[x] == f[x]);
                assert(front.contains(f[x]));
                let a = choose|a: int| 0 <= a < front.len() && front[a] == f[x];
                assert(h[a] == f[x]);
            } else {
                assert(h.filter(pred)[x] == h.last());
                assert(h[h.len() - 1] == h.last());
            }
        }
    }
}

/// A hand dealt from a deck stays so when cards are taken out of it.
proof fn lemma_filter_dealt(h: Seq<Card>, pred: spec_fn(Card) -> bool, left: Set<int>)
    requires
        dealt_from(h, left),
    ensures
        dealt_from(h.filter(pred), left),
    decreases h.len(),
{
    reveal_with_fuel(Seq::<_>::filter, 1);
    broadcast use vstd::seq_lib::group_filter_ensures;
    if h.len() > 0 {
        let front = h.drop_last();
        assert forall|a: int, b: int| 0 <= a < b < front.len() implies front[a] != front[b] by {
            assert(front[a] == h[a] && front[b] == h[b]);
        }
        lemma_filter_dealt(front, pred, left);
        lemma_filter_from(front, pred);
        let f = front.filter(pred);
        if pred(h.last()) {
            assert(h.filter(pred) == f.push(h.last()));
            assert(!f.contains(h.last())) by {
                if f.contains(h.last()) {
                    let y = choose|y: int| 0 <= y < f.len() && f[y] == h.last();
                    assert(front.contains(f[y]));
                    let a = choose|a: int| 0 <= a < front.len() && front[a] == h.last();
                    assert(h[a] == h[h.len() - 1]);
                }
            }
            assert forall|a: int, b: int| 0 <= a < b < f.len() + 1 implies f.push(h.last())[a] != f.push(
                h.last(),
            )[b] by {
                if b == f.len() {
                    assert(f.contains(f[a]));
                }
            }
            assert forall|x: int| 0 <= x < f.len() + 1 implies !left.contains(
                #[trigger] f.push(h.last())[x].idx() as int,
            ) by {
                if x < f.len() {
                    assert(front.contains(f[x]));
                    let a = choose|a: int| 0 <= a < front.len() && front[a] == f[x];
                    assert(h[a] == f[x]);
                }
            }
        } else {
            assert(h.filter(pred) == f);
        }
    }
}

/// A hand with `t` of `new` after it grew by `t` cards from `pool`, when
/// every card of `new` is from `pool`.
proof fn lemma_grew(h: Seq<Card>, new: Seq<Card>, t: nat, pool: Set<int>)
    requires
        t <= new.len(),
        forall|a: int| 0 <= a < new.len() ==> pool.contains((#[trigger] new[a]).idx() as int),
    ensures
        grew(h, h + new.take(t as int), t as int, pool),
{
    let now = h + new.take(t as int);
    assert(now.take(h.len() as int) =~= h);
    assert forall|j: int| h.len() <= j < now.len() implies pool.contains(#[trigger] now[j].idx() as int) by {
        assert(now[j] == new[j - h.len()]);
    }
}

/// A filter that keeps everything keeps the sequence as it is.
proof fn lemma_filter_all(s: Seq<Card>, pred: spec_fn(Card) -> bool)
    requires
        forall|i: int| 0 <= i < s.len() ==> pred(#[trigger] s[i]),
    ensures
        s.filter(pred) == s,
    decreases s.len(),
{
    reveal_with_fuel(Seq::<_>::filter, 1);
    if s.len() > 0 {
        let front = s.drop_last();
        assert forall|i: int| 0 <= i < front.len() implies pred(#[trigger] front[i]) by {
            assert(front[i] == s[i]);
        }
        lemma_filter_all(front, pred);
        assert(pred(s[s.len() - 1]));
        assert(s.filter(pred) =~= front.push(s.last()));
    }
}

/// Exchanging the last of five cards keeps the first four where they were
/// and draws a fifth that is not the card thrown away, whenever the deck has
/// a card left.
pub proof fn lemma_exchange_last_card(
    before: GameState,
    after: GameState,
    name: Seq<char>,
    p: int,
    r: Result<(), PokerError>,
)
    requires
        before.wf(),
        seat_of(before.seats(), name) == Some(p),
        before.seats()[p].held().len() == 5,
        before.left().len() >= 1,
        exchange_outcome(before, name, seq![before.seats()[p].held()[4]], r, after),
    ensures
        r is Ok,
        after.seats()[p].held().len() == 5,
        after.seats()[p].held().take(4) == before.seats()[p].held().take(4),
        after.seats()[p].held()[4] != before.seats()[p].held()[4],
{
    lemma_seat_from(before.seats(), name, 0);
    let h = before.seats()[p].held();
    let ds = seq![h[4]];
    assert(dealt_from(h, before.left()));
    assert(h.contains(h[4]));
    assert(first_absent(h, ds.drop_first()) is None);
    assert(first_absent(h, ds) is None);
    let pred = |c: Card| !ds.contains(c);
    reveal_with_fuel(Seq::<_>::filter, 1);
    let front = h.drop_last();
    assert forall|i: int| 0 <= i < front.len() implies pred(#[trigger] front[i]) by {
        assert(front[i] == h[i]);
        assert(ds.contains(front[i]) ==> front[i] == h[4]);
    }
    lemma_filter_all(front, pred);
    assert(!pred(h.last()));
    let kept = h.filter(pred);
    assert(kept == front);
    assert(front =~= h.take(4));
    let got = after.seats()[p].held();
    assert(!h.contains(got[4]));
}

/// A table: the players, in seat order, and the deck they are dealt from.
pub struct GameState {
    players: Vec<Player>,
    deck: Deck,
}

impl GameState {
    /// The players, in seat order, in spec code.
    pub closed spec fn seats(&self) -> Seq<Player> {
        self.players@
    }

    /// The cards still in the deck, in spec code.
    pub closed spec fn left(&self) -> Set<int> {
        self.deck@
    }

    /// Every hand was dealt from the deck: at most five cards, none twice,
    /// none still in the deck, and none held by another seat as well.
    pub open spec fn wf(&self) -> bool {
        &&& self.left().finite()
        &&& forall|p: int|
            0 <= p < self.seats().len() ==> dealt_from(#[trigger] self.seats()[p].held(), self.left())
        &&& apart(self.seats())
    }

    /// A table seating a player for each of `player_names`, in order, with
    /// empty hands and a full deck.
    pub fn new(max_players: usize, player_names: Vec<&str>) -> (r: Self)
        ensures
            r.wf(),
            r.left() == deck_indices(),
            r.seats().len() == player_names@.len(),
            forall|p: int|
                0 <= p < player_names@.len() ==> (#[trigger] r.seats()[p]).named() == player_names@[p]@
                    && r.seats()[p].held() == Seq::<Card>::empty(),
    {
        let deck = Deck::new();
        let mut players: Vec<Player> = Vec::with_capacity(max_players);
        let mut i: usize = 0;
        while i < player_names.len()
            invariant
                0 <= i <= player_names@.len(),
                players@.len() == i,
                forall|p: int|
                    0 <= p < i ==> (#[trigger] players@[p]).named() == player_names@[p]@
                        && players@[p].held() == Seq::<Card>::empty(),
            decreases player_names@.len() - i,
        {
            players.push(Player::new(string_of(player_names[i])));
            i = i + 1;
        }
        proof {
            crate::cards::lemma_deck_size();
        }
        Self { players, deck }
    }

    /// Deals five cards to every player, one at a time round the table.
    ///
    /// Stops at the first card that cannot be dealt: the deck has run out, or
    /// the hand it was for already holds five. What was dealt before it stays
    /// dealt.
    pub fn deal_initial_hands(&mut self) -> (r: Result<(), PokerError>)
        requires
            old(self).wf(),
        ensures
            final(self).wf(),
            final(self).seats().len() == old(self).seats().len(),
            final(self).left().subset_of(old(self).left()),
            forall|p: int|
                0 <= p < old(self).seats().len() ==> (#[trigger] final(self).seats()[p]).named()
                    == old(self).seats()[p].named(),
            r == match deal_fault(hand_sizes(old(self).seats()), old(self).left().len(), 0, 0, 0) {
                Some(e) => Err::<(), PokerError>(e),
                None => Ok(()),
            },
            r is Ok ==> forall|p: int|
                0 <= p < old(self).seats().len() ==> grew(
                    old(self).seats()[p].held(),
                    #[trigger] final(self).seats()[p].held(),
                    5,
                    old(self).left(),
                ),
    {
        let ghost sizes = hand_sizes(self.seats());
        let ghost size = self.left().len();
        let ghost start = *self;
        let n = self.players.len();
        let mut k: usize = 0;
        let ghost mut dealt: nat = 0;
        assert forall|p: int| 0 <= p < n implies grew(
            start.seats()[p].held(),
            #[trigger] self.seats()[p].held(),
            0,
            start.left(),
        ) by {
            assert(self.seats()[p].held().take(self.seats()[p].held().len() as int) =~= self.seats()[p].held());
        }
        while k < 5
            invariant
                start == *old(self),
                0 <= k <= 5,
                n == self.players@.len(),
                sizes == hand_sizes(start.seats()),
                size == start.left().len(),
                start.wf(),
                start.seats().len() == n,
                self.wf(),
                self.seats().len() == n,
                self.left().subset_of(start.left()),
                self.left().len() + dealt == size,
                deal_fault(sizes, size, 0, 0, 0) == deal_fault(sizes, size, k as nat, 0, dealt),
                forall|p: int|
                    0 <= p < n ==> (#[trigger] self.seats()[p]).named() == start.seats()[p].named()
                        && grew(start.seats()[p].held(), self.seats()[p].held(), k as int, start.left()),
            decreases 5 - k,
        {
            let mut i: usize = 0;
            while i < n
                invariant
                    start == *old(self),
                    0 <= k < 5,
                    0 <= i <= n,
                    n == self.players@.len(),
                    sizes == hand_sizes(start.seats()),
                    size == start.left().len(),
                    start.wf(),
                    start.seats().len() == n,
                    self.wf(),
                    self.seats().len() == n,
                    self.left().subset_of(start.left()),
                    self.left().len() + dealt == size,
                    deal_fault(sizes, size, 0, 0, 0) == deal_fault(sizes, size, k as nat, i as nat, dealt),
                    forall|p: int|
                        0 <= p < n ==> (#[trigger] self.seats()[p]).named() == start.seats()[p].named()
                            && grew(
                            start.seats()[p].held(),
                            self.seats()[p].held(),
                            k + if p < i {
                                1int
                            } else {
                                0int
                            },
                            start.left(),
                        ),
                decreases n - i,
            {
                assert(sizes[i as int] == start.seats()[i as int].held().len());
                let ghost old_self = *self;
                match self.deck.deal() {
                    Some(card) => {
                        proof {
                            dealt = dealt + 1;
                        }
                        let ghost hand = self.players@[i as int].held();
                        assert(hand.len() <= 5);
                        match self.players[i].recieve_card(card) {
                            Ok(()) => {},
                            Err(e) => {
                                proof {
                                    assert(self.seats()[i as int].held() == hand);
                                    assert forall|p: int| 0 <= p < n implies dealt_from(
                                        #[trigger] self.seats()[p].held(),
                                        self.left(),
                                    ) by {
                                        assert(dealt_from(old_self.seats()[p].held(), old_self.left()));
                                    }
                                }
                                return Err(PokerError::Card(e));
                            },
                        }
                        proof {
                            let now = self.seats()[i as int].held();
                            assert(now == hand.push(card));
                            let before = start.seats()[i as int].held();
                            assert(now.take(before.len() as int) =~= hand.take(before.len() as int));
                            assert(start.left().contains(card.idx() as int));
                            assert forall|p: int| 0 <= p < n implies (#[trigger] self.seats()[p]).named()
                                == start.seats()[p].named() && grew(
                                start.seats()[p].held(),
                                self.seats()[p].held(),
                                k + if p < i + 1 {
                                    1int
                                } else {
                                    0int
                                },
                                start.left(),
                            ) by {
                                if p != i {
                                    assert(self.seats()[p] == old_self.seats()[p]);
                                } else {
                                    assert forall|j: int|
                                        before.len() <= j < now.len() implies start.left().contains(
                                        #[trigger] now[j].idx() as int,
                                    ) by {
                                        if j < hand.len() {
                                            assert(now[j] == hand[j]);
                                        }
                                    }
                                }
                            }
                            assert forall|p: int| 0 <= p < n implies dealt_from(
                                #[trigger] self.seats()[p].held(),
                                self.left(),
                            ) by {
                                assert(dealt_from(old_self.seats()[p].held(), old_self.left()));
                                if p == i {
                                    assert forall|a: int, b: int|
                                        0 <= a < b < now.len() implies now[a] != now[b] by {
                                        if b == now.len() - 1 {
                                            assert(!old_self.left().contains(hand[a].idx() as int));
                                            Card::lemma_idx_injective(hand[a], card);
                                        }
                                    }
                                }
                            }
                        }
                    },
                    None => {
                        return Err(PokerError::Game(GameError::NotEnoughCards));
                    },
                }
                i = i + 1;
            }
            k = k + 1;
        }
        Ok(())
    }

    /// The index of the first player called `name`.
    fn seat_index(&self, name: &str) -> (r: Option<usize>)
        ensures
            r matches Some(i) ==> seat_of(self.seats(), name@) == Some(i as int),
            r is None ==> seat_of(self.seats(), name@) is None,
    {
        let mut i: usize = 0;
        while i < self.players.len()
            invariant
                0 <= i <= self.players@.len(),
                seat_of(self.seats(), name@) == seat_from(self.seats(), name@, i as int),
            decreases self.players@.len() - i,
        {
            if same_text(self.players[i].name().as_str(), name) {
                return Some(i);
            }
            i = i + 1;
        }
        None
    }

    /// The first player called `name`.
    pub fn find_player(&self, name: &str) -> (r: Result<&Player, GameError>)
        ensures
            match seat_of(self.seats(), name@) {
                Some(p) => (r matches Ok(player) && *player == self.seats()[p]),
                None => r matches Err(GameError::PlayerNotFound(s)) && s@ == name@,
            },
    {
        proof {
            lemma_seat_from(self.seats(), name@, 0);
        }
        match self.seat_index(name) {
            Some(i) => {
                let player = &self.players[i];
                assert(seat_of(self.seats(), name@) == Some(i as int));
                assert(*player == self.seats()[i as int]);
                Ok(player)
            },
            None => {
                let s = string_of(name);
                assert(seat_of(self.seats(), name@) is None);
                Err(GameError::PlayerNotFound(s))
            },
        }
    }

    /// Throws away `cards_to_discard` from the player called `player_name`
    /// and draws as many new cards from the deck.
    pub fn discard_and_draw(&mut self, player_name: &str, cards_to_discard: Vec<Card>) -> (r: Result<
        (),
        PokerError,
    >)
        requires
            old(self).wf(),
        ensures
            final(self).wf(),
            exchange_outcome(*old(self), player_name@, cards_to_discard@, r, *final(self)),
    {
        let ghost start = *self;
        let num_cards = cards_to_discard.len();
        match self.player_discard(player_name, cards_to_discard) {
            Ok(()) => {},
            Err(e) => {
                return Err(e);
            },
        }
        let ghost mid = *self;
        proof {
            lemma_seat_from(start.seats(), player_name@, 0);
            lemma_same_names(start.seats(), mid.seats(), player_name@, 0);
        }
        let r = self.player_draw(player_name, num_cards);
        proof {
            let p = seat_of(start.seats(), player_name@)->0;
            let ds = cards_to_discard@;
            let h = start.seats()[p].held();
            let kept = h.filter(|c: Card| !ds.contains(c));
            assert(mid.seats()[p].held() == kept);
            assert forall|q: int|
                0 <= q < start.seats().len() && q != p implies self.seats()[q] == start.seats()[q] by {
                assert(mid.seats()[q] == start.seats()[q]);
            }
            let got = self.seats()[p].held();
            assert forall|j: int| kept.len() <= j < got.len() implies !h.contains(#[trigger] got[j]) by {
                assert(start.left().contains(got[j].idx() as int));
                if h.contains(got[j]) {
                    let a = choose|a: int| 0 <= a < h.len() && h[a] == got[j];
                    assert(dealt_from(start.seats()[p].held(), start.left()));
                    assert(!start.left().contains(h[a].idx() as int));
                }
            }
        }
        r
    }

    /// Throws away cards from the player called `player_name`.
    fn player_discard(&mut self, player_name: &str, cards_to_discard: Vec<Card>) -> (r: Result<
        (),
        PokerError,
    >)
        requires
            old(self).wf(),
        ensures
            final(self).wf(),
            final(self).left() == old(self).left(),
            final(self).seats().len() == old(self).seats().len(),
            forall|q: int|
                0 <= q < old(self).seats().len() ==> (#[trigger] final(self).seats()[q]).named()
                    == old(self).seats()[q].named(),
            match seat_of(old(self).seats(), player_name@) {
                None => (r matches Err(PokerError::Game(GameError::PlayerNotFound(s))) && s@
                    == player_name@) && final(self).seats() == old(self).seats(),
                Some(p) => {
                    &&& forall|q: int|
                        0 <= q < old(self).seats().len() && q != p ==> final(self).seats()[q]
                            == old(self).seats()[q]
                    &&& match discard_one(old(self).seats()[p].held(), cards_to_discard@) {
                        Err(e) => r == Err::<(), PokerError>(PokerError::Card(e)) && same_seats(
                            final(self).seats(),
                            old(self).seats(),
                        ),
                        Ok(kept) => r is Ok && final(self).seats()[p].held() == kept,
                    }
                },
            },
    {
        proof {
            lemma_seat_from(self.seats(), player_name@, 0);
        }
        let i = match self.seat_index(player_name) {
            Some(i) => i,
            None => {
                return Err(PokerError::Game(GameError::PlayerNotFound(string_of(player_name))));
            },
        };
        let ghost start = *self;
        let ghost h = self.seats()[i as int].held();
        let r = self.players[i].discard(&cards_to_discard);
        proof {
            broadcast use vstd::seq_lib::group_filter_ensures;
            assert(dealt_from(start.seats()[i as int].held(), start.left()));
            let now = self.seats()[i as int].held();
            if r is Ok {
                let pred = |c: Card| !cards_to_discard@.contains(c);
                assert(now == h.filter(pred));
                lemma_filter_dealt(h, pred, self.left());
                lemma_filter_from(h, pred);
            } else {
                assert forall|q: int| 0 <= q < self.seats().len() implies (#[trigger] self.seats()[q]).named()
                    == start.seats()[q].named() && self.seats()[q].held() == start.seats()[q].held() by {
                    if q != i {
                        assert(self.seats()[q] == start.seats()[q]);
                    }
                }
            }
            assert forall|q: int| 0 <= q < self.seats().len() implies dealt_from(
                #[trigger] self.seats()[q].held(),
                self.left(),
            ) by {
                if q != i {
                    assert(self.seats()[q] == start.seats()[q]);
                }
            }
            assert forall|q: int| 0 <= q < start.seats().len() && q != i implies (#[trigger] self.seats()[q]).held()
                == start.seats()[q].held() by {
                assert(self.seats()[q] == start.seats()[q]);
            }
            assert forall|x: int| 0 <= x < now.len() implies h.contains(#[trigger] now[x]) by {
                if r is Err {
                    assert(now[x] == h[x]);
                }
            }
            lemma_apart_keep(start.seats(), self.seats(), i as int);
        }
        match r {
            Ok(()) => Ok(()),
            Err(e) => Err(PokerError::Card(e)),
        }
    }

    /// Deals `num_cards` cards and hands them to the player called
    /// `player_name`.
    fn player_draw(&mut self, player_name: &str, num_cards: usize) -> (r: Result<(), PokerError>)
        requires
            old(self).wf(),
        ensures
            final(self).wf(),
            draw_outcome(*old(self), player_name@, num_cards as nat, r, *final(self)),
    {
        let ghost start = *self;
        // The cards are dealt first and handed over afterwards.
        let mut new_cards: Vec<Card> = Vec::with_capacity(num_cards);
        let mut j: usize = 0;
        while j < num_cards
            invariant
                start == *old(self),
                start.wf(),
                self.wf(),
                self.seats() == start.seats(),
                0 <= j <= num_cards,
                new_cards@.len() == j,
                self.left().subset_of(start.left()),
                self.left().len() + j == start.left().len(),
                new_cards@.no_duplicates(),
                forall|t: int|
                    0 <= t < j ==> start.left().contains((#[trigger] new_cards@[t]).idx() as int)
                        && !self.left().contains(new_cards@[t].idx() as int),
            decreases num_cards - j,
        {
            let ghost before = self.left();
            match self.deck.deal() {
                Some(card) => {
                    proof {
                        assert forall|a: int| 0 <= a < new_cards@.len() implies new_cards@[a] != card by {
                            assert(!before.contains(new_cards@[a].idx() as int));
                        }
                        assert forall|p: int| 0 <= p < self.seats().len() implies dealt_from(
                            #[trigger] self.seats()[p].held(),
                            self.left(),
                        ) by {
                            assert(dealt_from(self.seats()[p].held(), before));
                        }
                    }
                    new_cards.push(card);
                },
                None => {
                    return Err(PokerError::Game(GameError::NotEnoughCards));
                },
            }
            j = j + 1;
        }
        proof {
            lemma_seat_from(self.seats(), player_name@, 0);
        }
        let i = match self.seat_index(player_name) {
            Some(i) => i,
            None => {
                return Err(PokerError::Game(GameError::PlayerNotFound(string_of(player_name))));
            },
        };
        let ghost mid = *self;
        let ghost h = self.seats()[i as int].held();
        proof {
            assert(dealt_from(h, start.left()));
            assert(h.take(h.len() as int) =~= h);
        }
        let mut t: usize = 0;
        while t < new_cards.len()
            invariant
                start == *old(self),
                i < start.seats().len(),
                seat_of(start.seats(), player_name@) == Some(i as int),
                start.wf(),
                h == start.seats()[i as int].held(),
                dealt_from(h, start.left()),
                mid.seats() == start.seats(),
                mid.left() == self.left(),
                self.left().subset_of(start.left()),
                self.left().len() + num_cards == start.left().len(),
                new_cards@.len() == num_cards,
                new_cards@.no_duplicates(),
                forall|a: int|
                    0 <= a < num_cards ==> start.left().contains((#[trigger] new_cards@[a]).idx() as int)
                        && !self.left().contains(new_cards@[a].idx() as int),
                self.wf(),
                0 <= t <= num_cards,
                t <= room_for(h.len(), 5),
                self.seats().len() == start.seats().len(),
                forall|q: int|
                    0 <= q < start.seats().len() && q != i ==> self.seats()[q] == start.seats()[q],
                self.seats()[i as int].named() == start.seats()[i as int].named(),
                self.seats()[i as int].held() == h + new_cards@.take(t as int),
            decreases num_cards - t,
        {
            let card = new_cards[t];
            let ghost before = *self;
            let ghost now = self.seats()[i as int].held();
            match self.players[i].recieve_card(card) {
                Ok(()) => {},
                Err(e) => {
                    proof {
                        assert(self.seats()[i as int].held() == now);
                        assert forall|q: int| 0 <= q < self.seats().len() implies dealt_from(
                            #[trigger] self.seats()[q].held(),
                            self.left(),
                        ) by {
                            if q != i {
                                assert(self.seats()[q] == before.seats()[q]);
                            }
                        }
                        assert(now.len() >= 5);
                        assert(t == room_for(h.len(), 5));
                        assert(e == CardError::TooManyCards(overflow_at(h.len())));
                        assert(num_cards > room_for(h.len(), 5));
                        assert(seat_of(start.seats(), player_name@) == Some(i as int));
                        lemma_grew(h, new_cards@, t as nat, start.left());
                        assert(grew(h, self.seats()[i as int].held(), room_for(h.len(), 5) as int, start.left()));
                    }
                    return Err(PokerError::Card(e));
                },
            }
            proof {
                let after = self.seats()[i as int].held();
                assert(new_cards@.take(t + 1) =~= new_cards@.take(t as int).push(card));
                assert(after =~= h + new_cards@.take(t + 1));
                assert forall|a: int, b: int| 0 <= a < b < after.len() implies after[a] != after[b] by {
                    if b == after.len() - 1 {
                        if a < h.len() {
                            assert(after[a] == h[a]);
                            assert(!start.left().contains(h[a].idx() as int));
                            Card::lemma_idx_injective(h[a], card);
                        } else {
                            assert(after[a] == new_cards@[a - h.len()]);
                        }
                    } else {
                        assert(after[a] == now[a] && after[b] == now[b]);
                    }
                }
                lemma_in_deck_not_held(start.seats(), start.left(), card);
                assert forall|q: int| 0 <= q < before.seats().len() && q != i implies (#[trigger] self.seats()[q]).held()
                    == before.seats()[q].held() by {
                    assert(self.seats()[q] == before.seats()[q]);
                }
                assert forall|q: int| 0 <= q < before.seats().len() && q != i implies !(#[trigger] before.seats()[q]).held().contains(
                    card,
                ) by {
                    assert(before.seats()[q] == start.seats()[q]);
                }
                lemma_apart_take(before.seats(), self.seats(), i as int, card);
                assert forall|q: int| 0 <= q < self.seats().len() implies dealt_from(
                    #[trigger] self.seats()[q].held(),
                    self.left(),
                ) by {
                    if q != i {
                        assert(self.seats()[q] == before.seats()[q]);
                    } else {
                        assert forall|x: int| 0 <= x < after.len() implies !self.left().contains(
                            #[trigger] after[x].idx() as int,
                        ) by {
                            if x < h.len() {
                                assert(after[x] == h[x]);
                            } else {
                                assert(after[x] == new_cards@[x - h.len()]);
                            }
                        }
                    }
                }
            }
            t = t + 1;
        }
        proof {
            assert(new_cards@.take(num_cards as int) =~= new_cards@);
            lemma_grew(h, new_cards@, num_cards as nat, start.left());
        }
        Ok(())
    }

    /// The players, in seat order.
    pub fn players(&self) -> (r: &Vec<Player>)
        ensures
            r@ == self.seats(),
    {
        &self.players
    }
}

} // verus!
