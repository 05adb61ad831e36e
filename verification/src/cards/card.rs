//! A card, its rank and its suit.

use vstd::prelude::*;

use crate::error::{CardError, PokerError};
use crate::text::{chars_of, is_white_space, is_whitespace, push_char, without_white_space};

verus! {

/// A card's suit.
#[derive(Clone, Copy, Debug, PartialEq, Eq, Structural, Hash, PartialOrd, Ord)]
pub enum Suit {
    Club,
    Diamond,
    Heart,
    Spade,
}

impl Suit {
    /// The suit's place in a card index: clubs, diamonds, hearts, spades.
    pub open spec fn index(self) -> nat {
        match self {
            Suit::Club => 0,
            Suit::Diamond => 1,
            Suit::Heart => 2,
            Suit::Spade => 3,
        }
    }

    /// The suit's letter, lowercase.
    pub open spec fn letter(self) -> char {
        match self {
            Suit::Club => 'c',
            Suit::Diamond => 'd',
            Suit::Heart => 'h',
            Suit::Spade => 's',
        }
    }

    /// The suit at `i`, the inverse of [`index`](Suit::index).
    pub open spec fn at(i: nat) -> Suit {
        if i == 0 {
            Suit::Club
        } else if i == 1 {
            Suit::Diamond
        } else if i == 2 {
            Suit::Heart
        } else {
            Suit::Spade
        }
    }

    /// Takes a char and returns Suit or CardError if char doesn't match a suit
    pub fn from_char(c: char) -> (r: Result<Suit, CardError>)
        ensures
            r == match suit_of_char(c) {
                Some(s) => Ok(s),
                None => Err(CardError::InvalidSuit(c)),
            },
    {
        match c {
            'c' | 'C' => Ok(Suit::Club),
            'd' | 'D' => Ok(Suit::Diamond),
            'h' | 'H' => Ok(Suit::Heart),
            's' | 'S' => Ok(Suit::Spade),
            _ => Err(CardError::InvalidSuit(c)),
        }
    }

    /// Takes a suit and returns the matching char
    pub fn to_char(suit: Suit) -> (r: char)
        ensures
            r == suit.letter(),
    {
        match suit {
            Suit::Club => 'c',
            Suit::Diamond => 'd',
            Suit::Heart => 'h',
            Suit::Spade => 's',
        }
    }

    /// Every suit, in index order.
    pub fn all() -> (r: [Suit; 4])
        ensures
            forall|i: int| 0 <= i < 4 ==> (#[trigger] r@[i]).index() == i,
    {
        [Suit::Club, Suit::Diamond, Suit::Heart, Suit::Spade]
    }

    /// The suit's place in a card index.
    pub fn to_index(self) -> (r: u8)
        ensures
            r == self.index(),
    {
        match self {
            Suit::Club => 0,
            Suit::Diamond => 1,
            Suit::Heart => 2,
            Suit::Spade => 3,
        }
    }
}

/// The suit a character names, in either case.
pub open spec fn suit_of_char(c: char) -> Option<Suit> {
    if c == 'c' || c == 'C' {
        Some(Suit::Club)
    } else if c == 'd' || c == 'D' {
        Some(Suit::Diamond)
    } else if c == 'h' || c == 'H' {
        Some(Suit::Heart)
    } else if c == 's' || c == 'S' {
        Some(Suit::Spade)
    } else {
        None
    }
}

/// A card's rank. `Two` is lowest and `Ace` is highest.
///
/// Games that rank low hands invert this at the point of comparison rather
/// than here, so that one rank type serves every variant.
#[derive(Clone, Copy, Debug, PartialEq, Eq, Structural, Hash, PartialOrd, Ord)]
pub enum Rank {
    Two,
    Three,
    Four,
    Five,
    Six,
    Seven,
    Eight,
    Nine,
    Ten,
    Jack,
    Queen,
    King,
    Ace,
}

impl Rank {
    /// The rank's place from the bottom: zero for a deuce, twelve for an ace.
    pub open spec fn index(self) -> nat {
        match self {
            Rank::Two => 0,
            Rank::Three => 1,
            Rank::Four => 2,
            Rank::Five => 3,
            Rank::Six => 4,
            Rank::Seven => 5,
            Rank::Eight => 6,
            Rank::Nine => 7,
            Rank::Ten => 8,
            Rank::Jack => 9,
            Rank::Queen => 10,
            Rank::King => 11,
            Rank::Ace => 12,
        }
    }

    /// The rank's value, as a player counts it: two to fourteen.
    pub open spec fn value(self) -> nat {
        self.index() + 2
    }

    /// The rank's character, uppercase for the court cards and the ten.
    pub open spec fn letter(self) -> char {
        match self {
            Rank::Two => '2',
            Rank::Three => '3',
            Rank::Four => '4',
            Rank::Five => '5',
            Rank::Six => '6',
            Rank::Seven => '7',
            Rank::Eight => '8',
            Rank::Nine => '9',
            Rank::Ten => 'T',
            Rank::Jack => 'J',
            Rank::Queen => 'Q',
            Rank::King => 'K',
            Rank::Ace => 'A',
        }
    }

    /// The rank at `i`, the inverse of [`index`](Rank::index).
    pub open spec fn at(i: nat) -> Rank {
        if i == 0 {
            Rank::Two
        } else if i == 1 {
            Rank::Three
        } else if i == 2 {
            Rank::Four
        } else if i == 3 {
            Rank::Five
        } else if i == 4 {
            Rank::Six
        } else if i == 5 {
            Rank::Seven
        } else if i == 6 {
            Rank::Eight
        } else if i == 7 {
            Rank::Nine
        } else if i == 8 {
            Rank::Ten
        } else if i == 9 {
            Rank::Jack
        } else if i == 10 {
            Rank::Queen
        } else if i == 11 {
            Rank::King
        } else {
            Rank::Ace
        }
    }

    /// The rank's value, two to fourteen.
    pub fn to_value(&self) -> (r: u8)
        ensures
            r == self.value(),
    {
        match self {
            Rank::Two => 2,
            Rank::Three => 3,
            Rank::Four => 4,
            Rank::Five => 5,
            Rank::Six => 6,
            Rank::Seven => 7,
            Rank::Eight => 8,
            Rank::Nine => 9,
            Rank::Ten => 10,
            Rank::Jack => 11,
            Rank::Queen => 12,
            Rank::King => 13,
            Rank::Ace => 14,
        }
    }

    /// The rank at `index`, zero for a deuce and twelve for an ace.
    pub fn from_index(index: u8) -> (r: Rank)
        requires
            index < 13,
        ensures
            r.index() == index,
            r == Rank::at(index as nat),
    {
        match index {
            0 => Rank::Two,
            1 => Rank::Three,
            2 => Rank::Four,
            3 => Rank::Five,
            4 => Rank::Six,
            5 => Rank::Seven,
            6 => Rank::Eight,
            7 => Rank::Nine,
            8 => Rank::Ten,
            9 => Rank::Jack,
            10 => Rank::Queen,
            11 => Rank::King,
            _ => Rank::Ace,
        }
    }

    /// Takes a char and returns Rank or CardError if char doesn't match a rank
    pub fn from_char(c: char) -> (r: Result<Rank, CardError>)
        ensures
            r == match rank_of_char(c) {
                Some(k) => Ok(k),
                None => Err(CardError::InvalidRank(c)),
            },
    {
        match c {
            '2' => Ok(Rank::Two),
            '3' => Ok(Rank::Three),
            '4' => Ok(Rank::Four),
            '5' => Ok(Rank::Five),
            '6' => Ok(Rank::Six),
            '7' => Ok(Rank::Seven),
            '8' => Ok(Rank::Eight),
            '9' => Ok(Rank::Nine),
            'T' | 't' => Ok(Rank::Ten),
            'J' | 'j' => Ok(Rank::Jack),
            'Q' | 'q' => Ok(Rank::Queen),
            'K' | 'k' => Ok(Rank::King),
            'A' | 'a' => Ok(Rank::Ace),
            _ => Err(CardError::InvalidRank(c)),
        }
    }

    /// Takes a rank and returns the matching char
    pub fn to_char(rank: Rank) -> (r: char)
        ensures
            r == rank.letter(),
    {
        match rank {
            Rank::Two => '2',
            Rank::Three => '3',
            Rank::Four => '4',
            Rank::Five => '5',
            Rank::Six => '6',
            Rank::Seven => '7',
            Rank::Eight => '8',
            Rank::Nine => '9',
            Rank::Ten => 'T',
            Rank::Jack => 'J',
            Rank::Queen => 'Q',
            Rank::King => 'K',
            Rank::Ace => 'A',
        }
    }

    /// Every rank, deuce first.
    pub fn all() -> (r: [Rank; 13])
        ensures
            forall|i: int| 0 <= i < 13 ==> (#[trigger] r@[i]).index() == i,
    {
        [
            Rank::Two,
            Rank::Three,
            Rank::Four,
            Rank::Five,
            Rank::Six,
            Rank::Seven,
            Rank::Eight,
            Rank::Nine,
            Rank::Ten,
            Rank::Jack,
            Rank::Queen,
            Rank::King,
            Rank::Ace,
        ]
    }
}

impl Rank {
    /// A rank's index leads back to it.
    pub broadcast proof fn lemma_at_index(r: Rank)
        ensures
            #[trigger] Rank::at(r.index()) == r,
            r.index() < 13,
    {
    }

    /// Every index below thirteen is a rank's.
    pub broadcast proof fn lemma_index_at(i: nat)
        requires
            i < 13,
        ensures
            #[trigger] Rank::at(i).index() == i,
    {
    }
}

impl Suit {
    /// A suit's index leads back to it.
    pub broadcast proof fn lemma_at_index(s: Suit)
        ensures
            #[trigger] Suit::at(s.index()) == s,
            s.index() < 4,
    {
    }

    /// Every index below four is a suit's.
    pub broadcast proof fn lemma_index_at(i: nat)
        requires
            i < 4,
        ensures
            #[trigger] Suit::at(i).index() == i,
    {
    }
}

/// The rank a character names. The ten and the court cards may be written in
/// either case.
pub open spec fn rank_of_char(c: char) -> Option<Rank> {
    if c == '2' {
        Some(Rank::Two)
    } else if c == '3' {
        Some(Rank::Three)
    } else if c == '4' {
        Some(Rank::Four)
    } else if c == '5' {
        Some(Rank::Five)
    } else if c == '6' {
        Some(Rank::Six)
    } else if c == '7' {
        Some(Rank::Seven)
    } else if c == '8' {
        Some(Rank::Eight)
    } else if c == '9' {
        Some(Rank::Nine)
    } else if c == 'T' || c == 't' {
        Some(Rank::Ten)
    } else if c == 'J' || c == 'j' {
        Some(Rank::Jack)
    } else if c == 'Q' || c == 'q' {
        Some(Rank::Queen)
    } else if c == 'K' || c == 'k' {
        Some(Rank::King)
    } else if c == 'A' || c == 'a' {
        Some(Rank::Ace)
    } else {
        None
    }
}

/// One playing card.
#[derive(Clone, Copy, Debug, PartialEq, Eq, Structural, Hash)]
pub struct Card {
    suit: Suit,
    rank: Rank,
}

/// The card with index `i`, which is `rank * 4 + suit`.
pub closed spec fn card_at(i: nat) -> Card {
    Card { suit: Suit::at(i % 4), rank: Rank::at(i / 4) }
}

impl Card {
    /// The card's rank.
    pub closed spec fn rank_of(self) -> Rank {
        self.rank
    }

    /// The card's suit.
    pub closed spec fn suit_of(self) -> Suit {
        self.suit
    }

    /// The card's index, `rank * 4 + suit`: the deuce of clubs is nought and
    /// the ace of spades fifty-one.
    pub open spec fn idx(self) -> nat {
        self.rank_of().index() * 4 + self.suit_of().index()
    }

    /// The card written as text: rank, then suit.
    pub open spec fn name(self) -> Seq<char> {
        seq![self.rank_of().letter(), self.suit_of().letter()]
    }

    /// A card is fixed by its index, and every index below 52 is a card.
    pub broadcast proof fn lemma_idx(self)
        ensures
            #[trigger] self.idx() < 52,
            card_at(self.idx()) == self,
    {
    }

    /// The card at an index has that index.
    pub broadcast proof fn lemma_card_at(i: nat)
        requires
            i < 52,
        ensures
            #[trigger] card_at(i).idx() == i,
            card_at(i).rank_of().index() == i / 4,
            card_at(i).suit_of().index() == i % 4,
    {
    }

    /// Two cards with the same index are the same card.
    pub proof fn lemma_idx_injective(a: Card, b: Card)
        ensures
            a.idx() == b.idx() ==> a == b,
    {
        Card::lemma_idx(a);
        Card::lemma_idx(b);
    }

    /// The card of `rank` in `suit`.
    pub fn new(suit: Suit, rank: Rank) -> (r: Self)
        ensures
            r.rank_of() == rank,
            r.suit_of() == suit,
    {
        Self { suit, rank }
    }

    /// Takes a string e.g. "AdKc" and returns the cards it names, in order.
    ///
    /// Whitespace is ignored, so "AhKh" and "Ah Kh" give the same result, and
    /// a string with no cards in it gives none.
    pub fn from_str(cards_str: &str) -> (r: Result<Vec<Card>, CardError>)
        ensures
            read_field_outcome(cards_str@, r),
    {
        Card::parse_field(cards_str)
    }

    /// Reads every card a field names, in order, ignoring whitespace.
    pub fn parse_field(cards_str: &str) -> (r: Result<Vec<Card>, CardError>)
        ensures
            read_field_outcome(cards_str@, r),
    {
        let glyphs = glyphs_of(cards_str);
        if glyphs.len() % 2 != 0 {
            return Err(CardError::InvalidFormat(crate::text::string_of("Uneven number of chars")));
        }
        read_glyph_pairs(&glyphs)
    }

    /// Reads exactly one card, ignoring whitespace around it.
    pub fn parse_one(text: &str) -> (r: Result<Card, CardError>)
        ensures
            one_card_outcome(text@, r),
    {
        match Card::parse_field(text) {
            Ok(cards) => {
                if cards.len() == 1 {
                    Ok(cards[0])
                } else if cards.len() == 0 {
                    Err(CardError::InvalidFormat(crate::text::string_of("No card given")))
                } else {
                    Err(CardError::TooManyCards(cards.len()))
                }
            },
            Err(e) => Err(e),
        }
    }

    /// Whether two cards are the same card.
    pub fn matches(&self, other: &Card) -> (r: bool)
        ensures
            r == (*self == *other),
    {
        self.rank == other.rank && self.suit == other.suit
    }

    /// Get rank of card
    pub fn rank(&self) -> (r: Rank)
        ensures
            r == self.rank_of(),
    {
        self.rank
    }

    /// Get suit of card
    pub fn suit(&self) -> (r: Suit)
        ensures
            r == self.suit_of(),
    {
        self.suit
    }

    /// The card's index, `rank * 4 + suit`.
    pub fn index(&self) -> (r: u8)
        ensures
            r == self.idx(),
            r < 52,
    {
        self.rank.to_value() * 4 - 8 + self.suit.to_index()
    }

    /// The card with index `index`, or `None` past the end of the deck.
    pub fn from_index(index: u8) -> (r: Option<Card>)
        ensures
            index < 52 ==> r == Some(card_at(index as nat)),
            index >= 52 ==> r is None,
    {
        if index >= 52 {
            return None;
        }
        let rank = Rank::from_index(index / 4);
        let suit = match index % 4 {
            0 => Suit::Club,
            1 => Suit::Diamond,
            2 => Suit::Heart,
            _ => Suit::Spade,
        };
        Some(Card { suit, rank })
    }

    /// The card as text: uppercase rank, lowercase suit, as in `Ah`.
    pub fn to_string(&self) -> (r: String)
        ensures
            r@ == self.name(),
    {
        let mut s = String::new();
        push_char(&mut s, Rank::to_char(self.rank));
        push_char(&mut s, Suit::to_char(self.suit));
        assert(s@ =~= self.name());
        s
    }
}

/// The characters of `text` that are not whitespace, in order.
pub fn glyphs_of(text: &str) -> (r: Vec<char>)
    ensures
        r@ == without_white_space(text@),
{
    let all = chars_of(text);
    let mut glyphs: Vec<char> = Vec::new();
    let mut i: usize = 0;
    while i < all.len()
        invariant
            0 <= i <= all.len(),
            glyphs@ == without_white_space(all@.take(i as int)),
        decreases all.len() - i,
    {
        let c = all[i];
        proof {
            reveal_with_fuel(Seq::<_>::filter, 1);
            assert(all@.take(i + 1).drop_last() =~= all@.take(i as int));
        }
        if !is_whitespace(c) {
            glyphs.push(c);
        }
        i = i + 1;
    }
    assert(all@.take(all.len() as int) =~= all@);
    glyphs
}

/// Reads an even run of characters as rank-suit pairs.
pub fn read_glyph_pairs(glyphs: &Vec<char>) -> (r: Result<Vec<Card>, CardError>)
    requires
        glyphs.len() % 2 == 0,
    ensures
        match (read_pairs(glyphs@), r) {
            (Ok(cards), Ok(v)) => v@ == cards,
            (Err(e), Err(f)) => e == f,
            _ => false,
        },
{
    let len = glyphs.len();
    let mut cards: Vec<Card> = Vec::new();
    let mut j: usize = 0;
    proof {
        assert(glyphs@.skip(0) =~= glyphs@);
        if let Ok(rest) = read_pairs(glyphs@) {
            assert(cards@ + rest =~= rest);
        }
    }
    while j < len
        invariant
            len == glyphs.len(),
            len % 2 == 0,
            j % 2 == 0,
            0 <= j <= len,
            read_pairs(glyphs@) == match read_pairs(glyphs@.skip(j as int)) {
                Ok(rest) => Ok(cards@ + rest),
                Err(e) => Err(e),
            },
        decreases len - j,
    {
        let rank_char = glyphs[j];
        let suit_char = glyphs[j + 1];
        assert(glyphs@.skip(j as int)[0] == rank_char);
        assert(glyphs@.skip(j as int)[1] == suit_char);
        assert(glyphs@.skip(j as int).skip(2) =~= glyphs@.skip(j + 2));
        assert(glyphs@.skip(j as int).len() >= 2);
        let rank = match Rank::from_char(rank_char) {
            Ok(rank) => rank,
            Err(e) => return Err(e),
        };
        let suit = match Suit::from_char(suit_char) {
            Ok(suit) => suit,
            Err(e) => return Err(e),
        };
        let card = Card::new(suit, rank);
        proof {
            let rest = read_pairs(glyphs@.skip(j + 2));
            assert(card == card_with(suit, rank));
            if let Ok(tail) = rest {
                assert(cards@.push(card) + tail =~= cards@ + (seq![card] + tail));
            }
        }
        cards.push(card);
        j = j + 2;
    }
    assert(glyphs@.skip(len as int) =~= Seq::<char>::empty());
    assert(cards@ + Seq::<Card>::empty() =~= cards@);
    Ok(cards)
}

/// Reads a run of cards written as rank-suit pairs, stopping at the first
/// character that is not the rank or the suit it should be.
pub open spec fn read_pairs(g: Seq<char>) -> Result<Seq<Card>, CardError>
    decreases g.len(),
{
    if g.len() < 2 {
        Ok(seq![])
    } else {
        match rank_of_char(g[0]) {
            None => Err(CardError::InvalidRank(g[0])),
            Some(rank) => match suit_of_char(g[1]) {
                None => Err(CardError::InvalidSuit(g[1])),
                Some(suit) => match read_pairs(g.skip(2)) {
                    Ok(rest) => Ok(seq![card_with(suit, rank)] + rest),
                    Err(e) => Err(e),
                },
            },
        }
    }
}

/// The card of `rank` in `suit`, in spec code.
pub closed spec fn card_with(suit: Suit, rank: Rank) -> Card {
    Card { suit, rank }
}

/// `card_with` builds the card it says.
pub broadcast proof fn lemma_card_with(suit: Suit, rank: Rank)
    ensures
        #[trigger] card_with(suit, rank).rank_of() == rank,
        card_with(suit, rank).suit_of() == suit,
{
}

/// What reading a five-card hand gives: the pairs of a field of at most ten
/// characters that are not whitespace, or the error that stops it.
pub open spec fn read_hand_outcome(text: Seq<char>, limit: nat, r: Result<Seq<Card>, PokerError>) -> bool {
    let g = without_white_space(text);
    if g.len() % 2 != 0 {
        r matches Err(PokerError::Card(CardError::InvalidFormat(m))) && m@
            == "Both suit and rank have to be provided for every card"@
    } else if g.len() > limit * 2 {
        r == Err::<Seq<Card>, PokerError>(PokerError::Card(CardError::TooManyCards((g.len() / 2) as usize)))
    } else {
        match read_pairs(g) {
            Ok(cards) => r == Ok::<Seq<Card>, PokerError>(cards),
            Err(e) => r == Err::<Seq<Card>, PokerError>(PokerError::Card(e)),
        }
    }
}

/// What reading exactly one card gives: the field's error, or the one card
/// it names, or an error saying there was none or more than one.
pub open spec fn one_card_outcome(text: Seq<char>, r: Result<Card, CardError>) -> bool {
    let g = without_white_space(text);
    if g.len() % 2 != 0 {
        r matches Err(CardError::InvalidFormat(m)) && m@ == "Uneven number of chars"@
    } else {
        match read_pairs(g) {
            Err(e) => r == Err::<Card, CardError>(e),
            Ok(cards) => if cards.len() == 1 {
                r == Ok::<Card, CardError>(cards[0])
            } else if cards.len() == 0 {
                r matches Err(CardError::InvalidFormat(m)) && m@ == "No card given"@
            } else {
                r == Err::<Card, CardError>(CardError::TooManyCards(cards.len() as usize))
            },
        }
    }
}

/// Reading a hand or a field of cards goes by the characters that are not
/// whitespace alone: two texts that agree on those read the same.
pub proof fn lemma_whitespace_is_ignored(a: Seq<char>, b: Seq<char>)
    requires
        without_white_space(a) == without_white_space(b),
    ensures
        forall|limit: nat, r: Result<Seq<Card>, PokerError>|
            #![trigger read_hand_outcome(a, limit, r)]
            #![trigger read_hand_outcome(b, limit, r)]
            read_hand_outcome(a, limit, r) == read_hand_outcome(b, limit, r),
        forall|r: Result<Vec<Card>, CardError>|
            #![trigger read_field_outcome(a, r)]
            #![trigger read_field_outcome(b, r)]
            read_field_outcome(a, r) == read_field_outcome(b, r),
        forall|r: Result<Card, CardError>|
            #![trigger one_card_outcome(a, r)]
            #![trigger one_card_outcome(b, r)]
            one_card_outcome(a, r) == one_card_outcome(b, r),
{
}

/// What reading a field of cards gives: an error when the characters that
/// are not whitespace do not pair up, and otherwise the pairs read in order.
pub open spec fn read_field_outcome(text: Seq<char>, r: Result<Vec<Card>, CardError>) -> bool {
    let g = without_white_space(text);
    if g.len() % 2 != 0 {
        r matches Err(CardError::InvalidFormat(m)) && m@ == "Uneven number of chars"@
    } else {
        match (read_pairs(g), r) {
            (Ok(cards), Ok(v)) => v@ == cards,
            (Err(e), Err(f)) => e == f,
            _ => false,
        }
    }
}

impl std::str::FromStr for Card {
    type Err = CardError;

    fn from_str(s: &str) -> Result<Card, CardError> {
        Card::parse_one(s)
    }
}

} // verus!
