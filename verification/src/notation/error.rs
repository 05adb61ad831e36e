//! What can go wrong while reading a notation field, and how it is told.

use vstd::prelude::*;

use crate::text::{decimal, push_char, push_decimal, push_repeated, push_str, repeated};

verus! {

/// What went wrong while reading a notation field.
#[derive(Debug, Clone, PartialEq, Eq)]
pub enum NotationErrorKind {
    /// A character that is neither a rank, a suit, `*`, nor punctuation.
    UnknownGlyph(char),
    /// A rank or suit was expected and the field ended instead.
    UnexpectedEnd,
    /// The field, or one of its alternatives, is empty.
    Empty,
    /// The same card appears twice in one alternative.
    DuplicateCard(String),
    /// The alternative has the wrong number of slots for this game.
    WrongSlotCount { expected: usize, found: usize },
    /// The wrong number of slots, where a `*` is the likely reason: `*` is
    /// always exactly one card and never binds to the rank before it.
    WildcardSlotCount { expected: usize, found: usize },
    /// A range was written where the game has no range grammar.
    RangesNotAllowed,
    /// A pair cannot be marked suited or offsuit.
    PairWithSuitedness,
    /// The two ends of a `-` range do not share a gap.
    MismatchedRangeEnds,
    /// A `+` or `-` range that names no hand at all.
    EmptyRange,
    /// Percentage ranges are deliberately not supported.
    PercentageRange,
    /// A dead card was written as a wildcard, which does not say which card
    /// is dead.
    DeadCardNotExact,
    /// More cards were written than the field can hold.
    TooManySlots { limit: usize, found: usize },
}

/// An error kind, with its text read as characters.
pub enum FaultKind {
    UnknownGlyph(char),
    UnexpectedEnd,
    Empty,
    DuplicateCard(Seq<char>),
    WrongSlotCount { expected: nat, found: nat },
    WildcardSlotCount { expected: nat, found: nat },
    RangesNotAllowed,
    PairWithSuitedness,
    MismatchedRangeEnds,
    EmptyRange,
    PercentageRange,
    DeadCardNotExact,
    TooManySlots { limit: nat, found: nat },
}

/// A notation error as mathematics: what went wrong, and the byte span.
pub struct Fault {
    pub kind: FaultKind,
    pub offset: nat,
    pub len: nat,
}

impl View for NotationErrorKind {
    type V = FaultKind;

    open spec fn view(&self) -> FaultKind {
        match self {
            NotationErrorKind::UnknownGlyph(c) => FaultKind::UnknownGlyph(*c),
            NotationErrorKind::UnexpectedEnd => FaultKind::UnexpectedEnd,
            NotationErrorKind::Empty => FaultKind::Empty,
            NotationErrorKind::DuplicateCard(s) => FaultKind::DuplicateCard(s@),
            NotationErrorKind::WrongSlotCount { expected, found } => FaultKind::WrongSlotCount {
                expected: *expected as nat,
                found: *found as nat,
            },
            NotationErrorKind::WildcardSlotCount { expected, found } => FaultKind::WildcardSlotCount {
                expected: *expected as nat,
                found: *found as nat,
            },
            NotationErrorKind::RangesNotAllowed => FaultKind::RangesNotAllowed,
            NotationErrorKind::PairWithSuitedness => FaultKind::PairWithSuitedness,
            NotationErrorKind::MismatchedRangeEnds => FaultKind::MismatchedRangeEnds,
            NotationErrorKind::EmptyRange => FaultKind::EmptyRange,
            NotationErrorKind::PercentageRange => FaultKind::PercentageRange,
            NotationErrorKind::DeadCardNotExact => FaultKind::DeadCardNotExact,
            NotationErrorKind::TooManySlots { limit, found } => FaultKind::TooManySlots {
                limit: *limit as nat,
                found: *found as nat,
            },
        }
    }
}

/// The stable short name of an error kind.
pub open spec fn fault_name(k: FaultKind) -> Seq<char> {
    match k {
        FaultKind::UnknownGlyph(_) => "UnknownGlyph"@,
        FaultKind::UnexpectedEnd => "UnexpectedEnd"@,
        FaultKind::Empty => "Empty"@,
        FaultKind::DuplicateCard(_) => "DuplicateCard"@,
        FaultKind::WrongSlotCount { .. } => "WrongSlotCount"@,
        FaultKind::WildcardSlotCount { .. } => "WildcardSlotCount"@,
        FaultKind::RangesNotAllowed => "RangesNotAllowed"@,
        FaultKind::PairWithSuitedness => "PairWithSuitedness"@,
        FaultKind::MismatchedRangeEnds => "MismatchedRangeEnds"@,
        FaultKind::EmptyRange => "EmptyRange"@,
        FaultKind::PercentageRange => "PercentageRange"@,
        FaultKind::DeadCardNotExact => "DeadCardNotExact"@,
        FaultKind::TooManySlots { .. } => "TooManySlots"@,
    }
}

/// The singular or plural wording for `count`.
pub open spec fn plural_of(count: nat, one: Seq<char>, many: Seq<char>) -> Seq<char> {
    if count == 1 {
        one
    } else {
        many
    }
}

/// "this game deals N card(s), but M was/were written"
pub open spec fn count_text(expected: nat, found: nat) -> Seq<char> {
    "this game deals "@ + decimal(expected) + " "@ + plural_of(expected, "card"@, "cards"@)
        + ", but "@ + decimal(found) + " "@ + plural_of(found, "was"@, "were"@) + " written"@
}

/// What an error kind says, in a sentence.
pub open spec fn fault_text(k: FaultKind) -> Seq<char> {
    match k {
        FaultKind::UnknownGlyph(c) => "'"@ + seq![c] + "' is not a rank, a suit, or '*'"@,
        FaultKind::UnexpectedEnd => "the field ends in the middle of a card"@,
        FaultKind::Empty => "nothing to read here"@,
        FaultKind::DuplicateCard(card) => card + " is named twice in one hand"@,
        FaultKind::WrongSlotCount { expected, found } => count_text(expected, found),
        FaultKind::WildcardSlotCount { expected, found } => count_text(expected, found)
            + ": '*' is always exactly one card and never binds to the rank before it, so 'A*' is two cards, not one"@,
        FaultKind::RangesNotAllowed => "ranges are only written where a hand holds two cards"@,
        FaultKind::PairWithSuitedness => "a pair cannot be suited or offsuit"@,
        FaultKind::MismatchedRangeEnds => "both ends of a range must share the same gap"@,
        FaultKind::EmptyRange => "this range names no hand"@,
        FaultKind::PercentageRange => "percentage ranges need a hand-strength ordering this library does not define"@,
        FaultKind::DeadCardNotExact => "a dead card must name one card, since every reading changes the answer"@,
        FaultKind::TooManySlots { limit, found } => "at most "@ + decimal(limit)
            + " cards fit here, but "@ + decimal(found) + " were written"@,
    }
}

/// Picks the singular or plural wording for `count`.
fn plural(count: usize, one: &'static str, many: &'static str) -> (r: &'static str)
    ensures
        r@ == plural_of(count as nat, one@, many@),
{
    if count == 1 {
        one
    } else {
        many
    }
}

/// Appends the sentence about a miscount.
fn push_count_text(s: &mut String, expected: usize, found: usize)
    ensures
        final(s)@ == old(s)@ + count_text(expected as nat, found as nat),
{
    push_str(s, "this game deals ");
    push_decimal(s, expected);
    push_str(s, " ");
    push_str(s, plural(expected, "card", "cards"));
    push_str(s, ", but ");
    push_decimal(s, found);
    push_str(s, " ");
    push_str(s, plural(found, "was", "were"));
    push_str(s, " written");
    assert(final(s)@ =~= old(s)@ + count_text(expected as nat, found as nat));
}

impl NotationErrorKind {
    /// A stable short name, so that two implementations of the grammar can
    /// agree on which error was raised without agreeing on its wording.
    pub fn name(&self) -> (r: &'static str)
        ensures
            r@ == fault_name(self@),
    {
        match self {
            Self::UnknownGlyph(_) => "UnknownGlyph",
            Self::UnexpectedEnd => "UnexpectedEnd",
            Self::Empty => "Empty",
            Self::DuplicateCard(_) => "DuplicateCard",
            Self::WrongSlotCount { .. } => "WrongSlotCount",
            Self::WildcardSlotCount { .. } => "WildcardSlotCount",
            Self::RangesNotAllowed => "RangesNotAllowed",
            Self::PairWithSuitedness => "PairWithSuitedness",
            Self::MismatchedRangeEnds => "MismatchedRangeEnds",
            Self::EmptyRange => "EmptyRange",
            Self::PercentageRange => "PercentageRange",
            Self::DeadCardNotExact => "DeadCardNotExact",
            Self::TooManySlots { .. } => "TooManySlots",
        }
    }

    /// Appends what the kind says.
    pub fn write_text(&self, s: &mut String)
        ensures
            final(s)@ == old(s)@ + fault_text(self@),
    {
        match self {
            Self::UnknownGlyph(c) => {
                push_str(s, "'");
                push_char(s, *c);
                push_str(s, "' is not a rank, a suit, or '*'");
            },
            Self::UnexpectedEnd => push_str(s, "the field ends in the middle of a card"),
            Self::Empty => push_str(s, "nothing to read here"),
            Self::DuplicateCard(card) => {
                push_str(s, card.as_str());
                push_str(s, " is named twice in one hand");
            },
            Self::WrongSlotCount { expected, found } => push_count_text(s, *expected, *found),
            Self::WildcardSlotCount { expected, found } => {
                push_count_text(s, *expected, *found);
                push_str(
                    s,
                    ": '*' is always exactly one card and never binds to the rank before it, so 'A*' is two cards, not one",
                );
            },
            Self::RangesNotAllowed => push_str(
                s,
                "ranges are only written where a hand holds two cards",
            ),
            Self::PairWithSuitedness => push_str(s, "a pair cannot be suited or offsuit"),
            Self::MismatchedRangeEnds => push_str(
                s,
                "both ends of a range must share the same gap",
            ),
            Self::EmptyRange => push_str(s, "this range names no hand"),
            Self::PercentageRange => push_str(
                s,
                "percentage ranges need a hand-strength ordering this library does not define",
            ),
            Self::DeadCardNotExact => push_str(
                s,
                "a dead card must name one card, since every reading changes the answer",
            ),
            Self::TooManySlots { limit, found } => {
                push_str(s, "at most ");
                push_decimal(s, *limit);
                push_str(s, " cards fit here, but ");
                push_decimal(s, *found);
                push_str(s, " were written");
            },
        }
        assert(final(s)@ =~= old(s)@ + fault_text(self@));
    }

    /// What the kind says, in a sentence.
    pub fn to_string(&self) -> (r: String)
        ensures
            r@ == fault_text(self@),
    {
        let mut s = String::new();
        self.write_text(&mut s);
        assert(s@ =~= fault_text(self@));
        s
    }
}

/// A notation error, carrying the span of the text at fault.
///
/// `offset` and `len` are byte positions into the field as it was written, so
/// a caller can underline the problem rather than only describing it.
#[derive(Debug, Clone, PartialEq, Eq)]
pub struct NotationError {
    pub kind: NotationErrorKind,
    pub offset: usize,
    pub len: usize,
}

impl View for NotationError {
    type V = Fault;

    open spec fn view(&self) -> Fault {
        Fault { kind: self.kind@, offset: self.offset as nat, len: self.len as nat }
    }
}

/// The error as one line: what went wrong, and where.
pub open spec fn error_text(e: Fault) -> Seq<char> {
    fault_text(e.kind) + " (at byte "@ + decimal(e.offset) + ")"@
}

/// The input, the offending span underlined beneath it, and what went wrong.
pub open spec fn underline_text(e: Fault, input: Seq<char>) -> Seq<char> {
    input + seq!['\n'] + repeated(' ', e.offset) + repeated(
        '^',
        if e.len >= 1 {
            e.len
        } else {
            1
        },
    ) + seq!['\n'] + fault_text(e.kind)
}

impl NotationError {
    /// An error of `kind`, covering `len` bytes from `offset`.
    pub fn new(kind: NotationErrorKind, offset: usize, len: usize) -> (r: Self)
        ensures
            r.kind == kind,
            r.offset == offset,
            r.len == len,
    {
        Self { kind, offset, len }
    }

    /// The offending text underlined, for a terminal or a log.
    pub fn underline(&self, input: &str) -> (r: String)
        ensures
            r@ == underline_text(self@, input@),
    {
        let mut s = String::new();
        push_str(&mut s, input);
        push_char(&mut s, '\n');
        push_repeated(&mut s, ' ', self.offset);
        let carets = if self.len >= 1 {
            self.len
        } else {
            1
        };
        push_repeated(&mut s, '^', carets);
        push_char(&mut s, '\n');
        self.kind.write_text(&mut s);
        assert(s@ =~= underline_text(self@, input@));
        s
    }

    /// What went wrong and where, in one line.
    pub fn to_string(&self) -> (r: String)
        ensures
            r@ == error_text(self@),
    {
        let mut s = String::new();
        self.kind.write_text(&mut s);
        push_str(&mut s, " (at byte ");
        push_decimal(&mut s, self.offset);
        push_str(&mut s, ")");
        assert(s@ =~= error_text(self@));
        s
    }
}

} // verus!
