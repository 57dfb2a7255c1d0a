//! The structural scanner: the brackets of a JSON document that stand outside
//! string literals, in document order.

use vstd::prelude::*;

verus! {

/// The two kinds of bracket.
#[derive(Clone, Copy, Debug, PartialEq, Eq, Structural)]
pub enum BracketType {
    /// `[` and `]`.
    Square,
    /// `{` and `}`.
    Curly,
}

/// A bracket outside string literals, with its byte offset.
#[derive(Clone, Copy, Debug, PartialEq, Eq, Structural)]
pub enum Event {
    /// `[` or `{`.
    Opening(BracketType, usize),
    /// `]` or `}`.
    Closing(BracketType, usize),
}

/// Where the scanner stands relative to string literals.
#[derive(Clone, Copy, Debug, PartialEq, Eq, Structural)]
pub enum QuoteState {
    /// Outside any string literal.
    Outside,
    /// Inside a string literal.
    Inside,
    /// Inside a string literal, right after a backslash that escapes the
    /// next byte.
    Escaped,
}

/// The state after `byte` was read in state `q`.
pub open spec fn step_quote(q: QuoteState, byte: u8) -> QuoteState {
    match q {
        QuoteState::Outside => if byte == 0x22 {
            QuoteState::Inside
        } else {
            QuoteState::Outside
        },
        QuoteState::Inside => if byte == 0x5c {
            QuoteState::Escaped
        } else if byte == 0x22 {
            QuoteState::Outside
        } else {
            QuoteState::Inside
        },
        QuoteState::Escaped => QuoteState::Inside,
    }
}

/// The state in which the byte at offset `i` is read.
pub open spec fn quote_state(bytes: Seq<u8>, i: nat) -> QuoteState
    decreases i,
{
    if i == 0 {
        QuoteState::Outside
    } else {
        step_quote(quote_state(bytes, (i - 1) as nat), bytes[i - 1])
    }
}

/// The bracket that `byte` is, at offset `i`.
pub open spec fn bracket_of(byte: u8, i: usize) -> Option<Event> {
    if byte == 0x5b {
        Some(Event::Opening(BracketType::Square, i))
    } else if byte == 0x7b {
        Some(Event::Opening(BracketType::Curly, i))
    } else if byte == 0x5d {
        Some(Event::Closing(BracketType::Square, i))
    } else if byte == 0x7d {
        Some(Event::Closing(BracketType::Curly, i))
    } else {
        None
    }
}

/// The structural event at offset `i`: the bracket there, if there is one and
/// it stands outside string literals.
pub open spec fn structural_at(bytes: Seq<u8>, i: int) -> Option<Event> {
    if 0 <= i < bytes.len() && quote_state(bytes, i as nat) == QuoteState::Outside {
        bracket_of(bytes[i], i as usize)
    } else {
        None
    }
}

impl Event {
    /// The byte offset of the bracket.
    pub open spec fn spec_offset(&self) -> usize {
        match *self {
            Event::Opening(_, i) => i,
            Event::Closing(_, i) => i,
        }
    }

    /// The byte offset of the bracket.
    pub fn offset(&self) -> (i: usize)
        ensures
            i == self.spec_offset(),
    {
        match *self {
            Event::Opening(_, i) => i,
            Event::Closing(_, i) => i,
        }
    }
}

/// A pull iterator over the structural events of a byte input.
pub struct StructuralIterator<'a> {
    input: &'a [u8],
    pos: usize,
    state: QuoteState,
}

impl<'a> StructuralIterator<'a> {
    /// The input that is scanned.
    pub closed spec fn bytes(&self) -> Seq<u8> {
        self.input@
    }

    /// The offset of the next byte to read.
    pub closed spec fn position(&self) -> nat {
        self.pos as nat
    }

    /// The iterator's invariant: it stands inside the input, in the quote
    /// state of its position.
    pub closed spec fn wf(&self) -> bool {
        &&& self.pos <= self.input@.len()
        &&& self.state == quote_state(self.input@, self.pos as nat)
    }

    /// An iterator at the start of `input`.
    pub fn new(input: &'a [u8]) -> (it: Self)
        ensures
            it.wf(),
            it.bytes() == input@,
            it.position() == 0,
    {
        StructuralIterator { input, pos: 0, state: QuoteState::Outside }
    }

    /// The next structural event at or after the iterator's position, or
    /// `None` where the rest of the input holds none. The iterator moves past
    /// the event, or to the end of the input.
    pub fn next(&mut self) -> (event: Option<Event>)
        requires
            old(self).wf(),
        ensures
            final(self).wf(),
            final(self).bytes() == old(self).bytes(),
            old(self).position() <= final(self).position() <= old(self).bytes().len(),
            match event {
                Some(e) => {
                    &&& old(self).position() <= e.spec_offset()
                    &&& final(self).position() == e.spec_offset() + 1
                    &&& structural_at(old(self).bytes(), e.spec_offset() as int) == Some(e)
                    &&& forall|j: int|
                        old(self).position() <= j < e.spec_offset() ==> structural_at(
                            old(self).bytes(),
                            j,
                        ).is_none()
                },
                None => {
                    &&& final(self).position() == old(self).bytes().len()
                    &&& forall|j: int|
                        old(self).position() <= j < old(self).bytes().len() ==> structural_at(
                            old(self).bytes(),
                            j,
                        ).is_none()
                },
            },
    {
        while self.pos < self.input.len()
            invariant
                self.wf(),
                self.input == old(self).input,
                old(self).pos <= self.pos <= self.input@.len(),
                forall|j: int|
                    old(self).pos <= j < self.pos ==> structural_at(self.input@, j).is_none(),
            decreases self.input@.len() - self.pos,
        {
            let i: usize = self.pos;
            let byte: u8 = self.input[i];
            let before = self.state;
            self.state =
            match before {
                QuoteState::Outside => if byte == 0x22 {
                    QuoteState::Inside
                } else {
                    QuoteState::Outside
                },
                QuoteState::Inside => if byte == 0x5c {
                    QuoteState::Escaped
                } else if byte == 0x22 {
                    QuoteState::Outside
                } else {
                    QuoteState::Inside
                },
                QuoteState::Escaped => QuoteState::Inside,
            };
            self.pos = i + 1;
            if before == QuoteState::Outside {
                if byte == 0x5b {
                    return Some(Event::Opening(BracketType::Square, i));
                } else if byte == 0x7b {
                    return Some(Event::Opening(BracketType::Curly, i));
                } else if byte == 0x5d {
                    return Some(Event::Closing(BracketType::Square, i));
                } else if byte == 0x7d {
                    return Some(Event::Closing(BracketType::Curly, i));
                }
            }
        }
        None
    }
}

} // verus!
