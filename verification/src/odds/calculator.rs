//! The players, dead cards and board of an equity calculation, and the
//! checks every game makes of them before anything is simulated.

use vstd::prelude::*;

use crate::cards::{deck_indices, Card, CardSet, Deck};
use crate::error::{CardError, EquityError, GameError, PokerError};
use crate::hand::Hand;
use crate::poker::variants::PokerVariant;

verus! {

broadcast use {Card::lemma_idx, Card::lemma_card_at};

/// A seat at the calculation: the player's name, hand, and the cards they
/// mean to throw away.
pub type Seat<V> = (String, Hand<V>, Vec<Card>);

/// Every card the seats hold, seat by seat.
pub open spec fn held_cards<V: PokerVariant>(seats: Seq<Seat<V>>) -> Seq<Card>
    decreases seats.len(),
{
    if seats.len() == 0 {
        seq![]
    } else {
        held_cards(seats.drop_last()) + seats.last().1.held()
    }
}

/// The first card of `cards` that is already among `seen`, or that appears
/// earlier in `cards`.
pub open spec fn first_repeat(cards: Seq<Card>, seen: Set<int>) -> Option<Card>
    decreases cards.len(),
{
    if cards.len() == 0 {
        None
    } else if seen.contains(cards[0].idx() as int) {
        Some(cards[0])
    } else {
        first_repeat(cards.drop_first(), seen.insert(cards[0].idx() as int))
    }
}

/// Whether some seat holds `card`.
pub open spec fn seated<V: PokerVariant>(seats: Seq<Seat<V>>, card: Card) -> bool {
    exists|i: int| 0 <= i < seats.len() && (#[trigger] seats[i]).1.held().contains(card)
}

/// The first of `cards` that a seat holds or that is already dead.
pub open spec fn first_clash<V: PokerVariant>(cards: Seq<Card>, seats: Seq<Seat<V>>, dead: Seq<Card>) -> Option<
    Card,
>
    decreases cards.len(),
{
    if cards.len() == 0 {
        None
    } else if seated(seats, cards[0]) || dead.contains(cards[0]) {
        Some(cards[0])
    } else {
        first_clash(cards.drop_first(), seats, dead)
    }
}

/// The players, dead cards and board of one equity calculation, in the game
/// `V`, to be simulated `num_simulations` times.
pub struct EquityCalculator<V: PokerVariant> {
    players: Vec<Seat<V>>,
    dead_cards: Vec<Card>,
    num_simulations: usize,
    community_cards: Vec<Card>,
    variant: V,
}

impl<V: PokerVariant> EquityCalculator<V> {
    /// The seats, in the order they were added, in spec code.
    pub closed spec fn seats(&self) -> Seq<Seat<V>> {
        self.players@
    }

    /// The dead cards, in the order they were added, in spec code.
    pub closed spec fn dead(&self) -> Seq<Card> {
        self.dead_cards@
    }

    /// The board, in spec code.
    pub closed spec fn board(&self) -> Seq<Card> {
        self.community_cards@
    }

    /// How many simulations the calculation runs, in spec code.
    pub closed spec fn simulations(&self) -> usize {
        self.num_simulations
    }

    /// The game, in spec code.
    pub closed spec fn game(&self) -> V {
        self.variant
    }

    /// A calculation with nobody seated, nothing dead and no board.
    pub fn new(variant: V, num_simulations: usize) -> (r: Self)
        ensures
            r.seats() == Seq::<Seat<V>>::empty(),
            r.dead() == Seq::<Card>::empty(),
            r.board() == Seq::<Card>::empty(),
            r.simulations() == num_simulations,
            r.game() == variant,
    {
        EquityCalculator {
            players: Vec::new(),
            dead_cards: Vec::new(),
            num_simulations,
            community_cards: Vec::new(),
            variant,
        }
    }

    /// Seats a player who keeps their whole hand.
    pub fn add_player(&mut self, name: String, hand: Hand<V>) -> (r: Result<(), PokerError>)
        ensures
            r is Ok,
            final(self).seats().len() == old(self).seats().len() + 1,
            final(self).seats().drop_last() == old(self).seats(),
            final(self).seats().last().0 == name,
            final(self).seats().last().1 == hand,
            final(self).seats().last().2@ == Seq::<Card>::empty(),
            final(self).dead() == old(self).dead(),
            final(self).board() == old(self).board(),
            final(self).simulations() == old(self).simulations(),
            final(self).game() == old(self).game(),
    {
        self.players.push((name, hand, Vec::new()));
        Ok(())
    }

    /// Seats a player who means to throw `cards_to_discard` away, or none.
    pub fn add_draw_player(&mut self, name: String, hand: Hand<V>, cards_to_discard: Option<Vec<Card>>) -> (r: Result<
        (),
        PokerError,
    >)
        ensures
            r is Ok,
            final(self).seats().len() == old(self).seats().len() + 1,
            final(self).seats().drop_last() == old(self).seats(),
            final(self).seats().last().0 == name,
            final(self).seats().last().1 == hand,
            final(self).seats().last().2@ == match cards_to_discard {
                Some(cards) => cards@,
                None => Seq::<Card>::empty(),
            },
            final(self).dead() == old(self).dead(),
            final(self).board() == old(self).board(),
            final(self).simulations() == old(self).simulations(),
            final(self).game() == old(self).game(),
    {
        let discards = match cards_to_discard {
            Some(cards) => cards,
            None => Vec::new(),
        };
        self.players.push((name, hand, discards));
        Ok(())
    }

    /// The seats, in the order they were added.
    pub fn players(&self) -> (r: &[Seat<V>])
        ensures
            r@ == self.seats(),
    {
        self.players.as_slice()
    }

    /// Takes `cards` out of play as dead, refusing the first of them that a
    /// seat holds or that is already dead. Nothing is added when one is
    /// refused.
    pub fn add_dead_cards(&mut self, cards: Vec<Card>) -> (r: Result<(), PokerError>)
        ensures
            final(self).seats() == old(self).seats(),
            final(self).board() == old(self).board(),
            final(self).simulations() == old(self).simulations(),
            final(self).game() == old(self).game(),
            match first_clash(cards@, old(self).seats(), old(self).dead()) {
                Some(card) => r == Err::<(), PokerError>(PokerError::Game(GameError::DuplicateCard(card)))
                    && final(self).dead() == old(self).dead(),
                None => r is Ok && final(self).dead() == old(self).dead() + cards@,
            },
    {
        let mut i: usize = 0;
        assert(cards@.skip(0) =~= cards@);
        while i < cards.len()
            invariant
                0 <= i <= cards@.len(),
                self == old(self),
                first_clash(cards@, self.seats(), self.dead()) == first_clash(
                    cards@.skip(i as int),
                    self.seats(),
                    self.dead(),
                ),
            decreases cards@.len() - i,
        {
            let card = cards[i];
            assert(cards@.skip(i as int)[0] == card);
            assert(cards@.skip(i as int).drop_first() =~= cards@.skip(i + 1));
            // Check hands
            let mut p: usize = 0;
            while p < self.players.len()
                invariant
                    0 <= p <= self.players@.len(),
                    0 <= i < cards@.len(),
                    card == cards@[i as int],
                    self == old(self),
                    first_clash(cards@, self.seats(), self.dead()) == first_clash(
                        cards@.skip(i as int),
                        self.seats(),
                        self.dead(),
                    ),
                    cards@.skip(i as int)[0] == card,
                    forall|q: int| 0 <= q < p ==> !(#[trigger] self.seats()[q]).1.held().contains(card),
                decreases self.players@.len() - p,
            {
                if holds_card(self.players[p].1.cards(), card) {
                    assert(self.seats()[p as int].1.held().contains(card));
                    return Err(PokerError::Game(GameError::DuplicateCard(card)));
                }
                p = p + 1;
            }
            // Check existing dead cards
            if holds_card(self.dead_cards.as_slice(), card) {
                return Err(PokerError::Game(GameError::DuplicateCard(card)));
            }
            i = i + 1;
        }
        let mut j: usize = 0;
        let ghost before = self.dead();
        while j < cards.len()
            invariant
                0 <= j <= cards@.len(),
                self.seats() == old(self).seats(),
                self.board() == old(self).board(),
                self.simulations() == old(self).simulations(),
                self.game() == old(self).game(),
                before == old(self).dead(),
                self.dead() == before + cards@.take(j as int),
            decreases cards@.len() - j,
        {
            self.dead_cards.push(cards[j]);
            assert(cards@.take(j + 1) =~= cards@.take(j as int).push(cards@[j as int]));
            j = j + 1;
        }
        assert(cards@.take(cards@.len() as int) =~= cards@);
        assert(cards@.skip(cards@.len() as int) =~= Seq::<Card>::empty());
        Ok(())
    }

    /// The checks every game makes: at least two players, and no card held,
    /// dead or on the board more than once. Cards are looked at seat by
    /// seat, then the dead cards, then the board, and the first one seen
    /// again is the one reported.
    pub fn validate_base(&self) -> (r: Result<(), PokerError>)
        ensures
            self.seats().len() < 2 ==> r == Err::<(), PokerError>(PokerError::Equity(EquityError::NoPlayers)),
            self.seats().len() >= 2 ==> r == match first_repeat(
                held_cards(self.seats()) + self.dead() + self.board(),
                Set::empty(),
            ) {
                Some(card) => Err::<(), PokerError>(PokerError::Game(GameError::DuplicateCard(card))),
                None => Ok(()),
            },
    {
        if self.players.len() < 2 {
            return Err(PokerError::Equity(EquityError::NoPlayers));
        }
        // Every card, in the order they are checked.
        let mut all: Vec<Card> = Vec::new();
        let mut p: usize = 0;
        assert(self.seats().take(0) =~= Seq::<Seat<V>>::empty());
        while p < self.players.len()
            invariant
                0 <= p <= self.players@.len(),
                self.seats().len() >= 2,
                all@ == held_cards(self.seats().take(p as int)),
            decreases self.players@.len() - p,
        {
            let cards = self.players[p].1.cards();
            let mut k: usize = 0;
            let ghost start = all@;
            while k < cards.len()
                invariant
                    0 <= k <= cards@.len(),
                    all@ == start + cards@.take(k as int),
                decreases cards@.len() - k,
            {
                all.push(cards[k]);
                assert(cards@.take(k + 1) =~= cards@.take(k as int).push(cards@[k as int]));
                k = k + 1;
            }
            assert(cards@.take(cards@.len() as int) =~= cards@);
            assert(self.seats().take(p + 1).drop_last() =~= self.seats().take(p as int));
            assert(self.seats().take(p + 1).last() == self.seats()[p as int]);
            p = p + 1;
        }
        assert(self.seats().take(self.players@.len() as int) =~= self.seats());
        append_cards(&mut all, self.dead_cards.as_slice());
        append_cards(&mut all, self.community_cards.as_slice());
        let ghost whole = all@;
        assert(whole == held_cards(self.seats()) + self.dead() + self.board());
        // The first card seen twice.
        let mut seen = CardSet::EMPTY();
        let mut i: usize = 0;
        assert(whole.skip(0) =~= whole);
        while i < all.len()
            invariant
                0 <= i <= all@.len(),
                all@ == whole,
                self.seats().len() >= 2,
                whole == held_cards(self.seats()) + self.dead() + self.board(),
                first_repeat(whole, Set::empty()) == first_repeat(whole.skip(i as int), seen@),
            decreases all@.len() - i,
        {
            let card = all[i];
            assert(whole.skip(i as int)[0] == card);
            assert(whole.skip(i as int).drop_first() =~= whole.skip(i + 1));
            if seen.contains(card) {
                return Err(PokerError::Game(GameError::DuplicateCard(card)));
            }
            seen.insert(card);
            i = i + 1;
        }
        assert(whole.skip(all@.len() as int) =~= Seq::<Card>::empty());
        Ok(())
    }

    /// Every card the seats hold, seat by seat.
    fn held_in_order(&self) -> (r: Vec<Card>)
        ensures
            r@ == held_cards(self.seats()),
    {
        let mut all: Vec<Card> = Vec::new();
        let mut p: usize = 0;
        assert(self.seats().take(0) =~= Seq::<Seat<V>>::empty());
        while p < self.players.len()
            invariant
                0 <= p <= self.players@.len(),
                all@ == held_cards(self.seats().take(p as int)),
            decreases self.players@.len() - p,
        {
            append_cards(&mut all, self.players[p].1.cards());
            assert(self.seats().take(p + 1).drop_last() =~= self.seats().take(p as int));
            assert(self.seats().take(p + 1).last() == self.seats()[p as int]);
            p = p + 1;
        }
        assert(self.seats().take(self.players@.len() as int) =~= self.seats());
        all
    }

    /// The deck every simulation starts from: a fresh deck with the dead
    /// cards, then the cards each seat holds, then the board taken out of
    /// it. A card that is already gone when its turn comes is reported.
    pub fn starting_deck(&self) -> (r: Result<Deck, PokerError>)
        ensures
            ({
                let known = self.dead() + held_cards(self.seats()) + self.board();
                match first_repeat(known, Set::empty()) {
                    Some(card) => r == Err::<Deck, PokerError>(PokerError::Card(CardError::CardNotFound(card))),
                    None => r matches Ok(deck) && deck@ == deck_indices().difference(
                        known.map_values(|c: Card| c.idx() as int).to_set(),
                    ),
                }
            }),
    {
        let mut all: Vec<Card> = Vec::new();
        append_cards(&mut all, self.dead_cards.as_slice());
        let held = self.held_in_order();
        append_cards(&mut all, held.as_slice());
        append_cards(&mut all, self.community_cards.as_slice());
        let ghost whole = all@;
        let ghost ids = whole.map_values(|c: Card| c.idx() as int);
        let mut deck = Deck::new();
        let mut i: usize = 0;
        assert(whole.skip(0) =~= whole);
        assert(ids.take(0).to_set() =~= Set::<int>::empty());
        assert(deck@ =~= deck_indices().difference(ids.take(0).to_set()));
        while i < all.len()
            invariant
                0 <= i <= all@.len(),
                all@ == whole,
                ids == whole.map_values(|c: Card| c.idx() as int),
                whole == self.dead() + held_cards(self.seats()) + self.board(),
                first_repeat(whole, Set::empty()) == first_repeat(whole.skip(i as int), ids.take(i as int).to_set()),
                deck@ == deck_indices().difference(ids.take(i as int).to_set()),
            decreases all@.len() - i,
        {
            let card = all[i];
            assert(whole.skip(i as int)[0] == card);
            assert(whole.skip(i as int).drop_first() =~= whole.skip(i + 1));
            assert(ids[i as int] == card.idx() as int);
            assert(ids.take(i + 1).to_set() =~= ids.take(i as int).to_set().insert(card.idx() as int)) by {
                let a = ids.take(i as int);
                let b = ids.take(i + 1);
                assert(b =~= a.push(card.idx() as int));
                assert forall|x: int| b.to_set().contains(x) == a.to_set().insert(card.idx() as int).contains(x) by {
                    if b.to_set().contains(x) {
                        let j = choose|j: int| 0 <= j < b.len() && b[j] == x;
                        if j < a.len() {
                            assert(a[j] == x);
                        }
                    }
                    if a.to_set().contains(x) {
                        let j = choose|j: int| 0 <= j < a.len() && a[j] == x;
                        assert(b[j] == x);
                    }
                    if x == card.idx() as int {
                        assert(b[i as int] == x);
                    }
                }
            }
            match deck.remove_card(&card) {
                Err(e) => {
                    return Err(PokerError::Card(e));
                },
                Ok(()) => {},
            }
            assert(deck@ =~= deck_indices().difference(ids.take(i + 1).to_set()));
            i = i + 1;
        }
        assert(whole.skip(all@.len() as int) =~= Seq::<Card>::empty());
        assert(ids.take(all@.len() as int) =~= ids);
        Ok(deck)
    }

    /// The dead cards, in the order they were added.
    pub fn dead_cards(&self) -> (r: &[Card])
        ensures
            r@ == self.dead(),
    {
        self.dead_cards.as_slice()
    }

    /// The board.
    pub fn community_cards(&self) -> (r: &[Card])
        ensures
            r@ == self.board(),
    {
        self.community_cards.as_slice()
    }

    /// Sets the board.
    pub fn set_community_cards(&mut self, cards: Vec<Card>) -> (r: Result<(), PokerError>)
        ensures
            r is Ok,
            final(self).board() == cards@,
            final(self).seats() == old(self).seats(),
            final(self).dead() == old(self).dead(),
            final(self).simulations() == old(self).simulations(),
            final(self).game() == old(self).game(),
    {
        self.community_cards = cards;
        Ok(())
    }
}

/// Whether `cards` holds `card`.
fn holds_card(cards: &[Card], card: Card) -> (r: bool)
    ensures
        r == cards@.contains(card),
{
    let mut i: usize = 0;
    while i < cards.len()
        invariant
            0 <= i <= cards@.len(),
            forall|j: int| 0 <= j < i ==> cards@[j] != card,
        decreases cards@.len() - i,
    {
        if cards[i].matches(&card) {
            return true;
        }
        i = i + 1;
    }
    false
}

/// Appends `more` to `all`.
fn append_cards(all: &mut Vec<Card>, more: &[Card])
    ensures
        final(all)@ == old(all)@ + more@,
{
    let mut k: usize = 0;
    while k < more.len()
        invariant
            0 <= k <= more@.len(),
            all@ == old(all)@ + more@.take(k as int),
        decreases more@.len() - k,
    {
        all.push(more[k]);
        assert(more@.take(k + 1) =~= more@.take(k as int).push(more@[k as int]));
        k = k + 1;
    }
    assert(more@.take(more@.len() as int) =~= more@);
}

/// How many simulations make one chunk of work.
pub const CHUNK_SIZE: usize = 10000;

/// The chunks `n` simulations are split into: as many whole chunks as fit,
/// then what is left over, if anything.
pub open spec fn chunk_plan(n: nat) -> Seq<nat> {
    Seq::new(n / 10000, |i: int| 10000nat) + if n % 10000 > 0 {
        seq![n % 10000]
    } else {
        seq![]
    }
}

/// The total of a list of counts.
pub open spec fn total(counts: Seq<nat>) -> nat
    decreases counts.len(),
{
    if counts.len() == 0 {
        0
    } else {
        total(counts.drop_last()) + counts.last()
    }
}

/// How `num_simulations` simulations are split into chunks of work.
pub fn chunk_sizes(num_simulations: usize) -> (r: Vec<usize>)
    ensures
        r@.map_values(|x: usize| x as nat) == chunk_plan(num_simulations as nat),
{
    let whole = num_simulations / CHUNK_SIZE;
    let mut chunks: Vec<usize> = Vec::new();
    let mut i: usize = 0;
    while i < whole
        invariant
            0 <= i <= whole,
            whole == num_simulations / 10000,
            chunks@.map_values(|x: usize| x as nat) == Seq::new(i as nat, |j: int| 10000nat),
        decreases whole - i,
    {
        let ghost before = chunks@;
        chunks.push(CHUNK_SIZE);
        assert(chunks@.map_values(|x: usize| x as nat) =~= before.map_values(|x: usize| x as nat).push(10000nat));
        assert(chunks@.map_values(|x: usize| x as nat) =~= Seq::new((i + 1) as nat, |j: int| 10000nat));
        i = i + 1;
    }
    let remainder = num_simulations % CHUNK_SIZE;
    let ghost front = chunks@;
    if remainder > 0 {
        chunks.push(remainder);
    }
    assert(chunks@.map_values(|x: usize| x as nat) =~= chunk_plan(num_simulations as nat));
    chunks
}

/// The chunks add up to the simulations asked for.
pub proof fn lemma_chunks_cover(n: nat)
    ensures
        total(chunk_plan(n)) == n,
{
    let q = n / 10000;
    lemma_total_of_full(q);
    let plan = chunk_plan(n);
    if n % 10000 > 0 {
        assert(plan.drop_last() =~= Seq::new(q, |i: int| 10000nat));
    } else {
        assert(plan =~= Seq::new(q, |i: int| 10000nat));
    }
    assert(n == q * 10000 + n % 10000);
}

/// `q` whole chunks hold `q` times a chunk.
proof fn lemma_total_of_full(q: nat)
    ensures
        total(Seq::new(q, |i: int| 10000nat)) == q * 10000,
    decreases q,
{
    if q > 0 {
        assert(Seq::new(q, |i: int| 10000nat).drop_last() =~= Seq::new((q - 1) as nat, |i: int| 10000nat));
        lemma_total_of_full((q - 1) as nat);
    }
}

} // verus!
