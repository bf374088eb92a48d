use crate::position::{
    count_byte, lemma_count_byte_bound, lemma_line_start, line_start, position_at, Position,
    NEWLINE,
};
use vstd::prelude::*;

verus! {

/// The byte of `data` at `index`, or `None` behind its end.
pub open spec fn byte_at(data: Seq<u8>, index: int) -> Option<u8> {
    if 0 <= index < data.len() {
        Some(data[index])
    } else {
        None
    }
}

/// The place of the byte before `index`: on the line of `index`, one column
/// to the left. At the start of a line that is column 0.
pub open spec fn position_behind(data: Seq<u8>, index: int) -> Position {
    Position {
        line: position_at(data, index).line,
        column: (index - line_start(data, index)) as usize,
    }
}

/// A source of bytes that is read once, from front to back, with one byte of
/// lookahead, and that knows the place of what it has handed out.
pub trait Read {
    /// All the bytes of the source, those handed out and those to come.
    spec fn data(&self) -> Seq<u8>;

    /// How many of them have been handed out.
    spec fn consumed(&self) -> int;

    /// Hands out the next byte, or `None` at the end.
    fn next(&mut self) -> (r: Option<u8>)
        ensures
            final(self).data() == old(self).data(),
            0 <= old(self).consumed() <= old(self).data().len() < usize::MAX,
            r == byte_at(old(self).data(), old(self).consumed()),
            final(self).consumed() == old(self).consumed() + if r is Some {
                1int
            } else {
                0int
            },
    ;

    /// Shows the next byte without handing it out, or `None` at the end.
    fn peek(&mut self) -> (r: Option<u8>)
        ensures
            final(self).data() == old(self).data(),
            final(self).consumed() == old(self).consumed(),
            0 <= old(self).consumed() <= old(self).data().len() < usize::MAX,
            r == byte_at(old(self).data(), old(self).consumed()),
    ;

    /// The place of the byte that was handed out last.
    fn position(&self) -> (r: Position)
        ensures
            0 <= self.consumed() <= self.data().len() < usize::MAX,
            r == position_behind(self.data(), self.consumed()),
    ;

    /// The place of the byte that comes next.
    fn peek_position(&self) -> (r: Position)
        ensures
            0 <= self.consumed() <= self.data().len() < usize::MAX,
            r == position_at(self.data(), self.consumed()),
    ;
}

/// Bytes that were read from a stream, handed out one at a time.
#[must_use]
#[derive(Clone, Copy)]
pub struct IoRead<'a> {
    bytes: &'a [u8],
    /// The number of bytes taken from the buffer, a byte held back included.
    taken: usize,
    /// A byte that was taken to be shown, and not handed out yet; `Some(None)`
    /// where the end was seen.
    peeked: Option<Option<u8>>,
    /// The number of newlines handed out, plus one.
    line: usize,
    /// The number of bytes handed out since the last newline.
    column: usize,
}

impl<'a> IoRead<'a> {
    /// The number of bytes handed out: those taken, less one held back.
    spec fn handed_out(&self) -> int {
        match self.peeked {
            Some(Some(_)) => self.taken - 1,
            _ => self.taken as int,
        }
    }

    #[verifier::type_invariant]
    spec fn inv(&self) -> bool {
        &&& self.taken <= self.bytes@.len() < usize::MAX
        &&& self.peeked matches Some(Some(byte)) ==> self.taken > 0 && self.bytes@[self.taken
            - 1] == byte
        &&& self.peeked matches Some(None) ==> self.taken == self.bytes@.len()
        &&& self.line == position_at(self.bytes@, self.handed_out()).line
        &&& self.column == self.handed_out() - line_start(self.bytes@, self.handed_out())
    }

    /// A reader at the start of `bytes`.
    pub fn new(bytes: &'a [u8]) -> (r: Self)
        requires
            bytes@.len() < usize::MAX,
        ensures
            r.data() == bytes@,
            r.consumed() == 0,
    {
        proof {
            assert(bytes@.subrange(0, 0) =~= Seq::<u8>::empty());
        }
        Self { bytes, taken: 0, peeked: None, line: 1, column: 0 }
    }

    /// Takes the next byte from the buffer.
    fn take(bytes: &[u8], taken: usize) -> (r: (Option<u8>, usize))
        requires
            taken <= bytes@.len(),
        ensures
            r.0 == byte_at(bytes@, taken as int),
            r.1 == taken + if r.0 is Some {
                1int
            } else {
                0int
            },
    {
        if taken < bytes.len() {
            (Some(bytes[taken]), taken + 1)
        } else {
            (None, taken)
        }
    }
}

/// The place of a byte follows from the place of the byte before it.
pub proof fn lemma_position_step(data: Seq<u8>, index: int)
    requires
        0 <= index < data.len(),
    ensures
        count_byte(data.subrange(0, index + 1), NEWLINE) == count_byte(
            data.subrange(0, index),
            NEWLINE,
        ) + if data[index] == NEWLINE {
            1int
        } else {
            0int
        },
        line_start(data, index + 1) == if data[index] == NEWLINE {
            index + 1
        } else {
            line_start(data, index)
        },
        count_byte(data.subrange(0, index + 1), NEWLINE) <= index + 1,
        0 <= line_start(data, index) <= index,
{
    assert(data.subrange(0, index + 1).drop_last() =~= data.subrange(0, index));
    lemma_count_byte_bound(data.subrange(0, index + 1), NEWLINE);
    lemma_line_start(data, index);
}

impl<'a> Read for IoRead<'a> {
    closed spec fn data(&self) -> Seq<u8> {
        self.bytes@
    }

    closed spec fn consumed(&self) -> int {
        self.handed_out()
    }

    fn next(&mut self) -> (r: Option<u8>) {
        proof {
            use_type_invariant(&*self);
        }
        let (byte, taken) = match self.peeked {
            Some(peeked) => (peeked, self.taken),
            None => Self::take(self.bytes, self.taken),
        };
        proof {
            if byte is Some {
                lemma_position_step(self.bytes@, self.handed_out());
            }
        }
        let (line, column) = match byte {
            Some(NEWLINE) => (self.line + 1, 0),
            Some(_) => (self.line, self.column + 1),
            None => (self.line, self.column),
        };
        let peeked = match byte {
            Some(_) => None,
            None => Some(None),
        };
        *self = Self { bytes: self.bytes, taken, peeked, line, column };
        byte
    }

    fn peek(&mut self) -> (r: Option<u8>) {
        proof {
            use_type_invariant(&*self);
        }
        if let Some(peeked) = self.peeked {
            return peeked;
        }
        let (byte, taken) = Self::take(self.bytes, self.taken);
        *self = Self {
            bytes: self.bytes,
            taken,
            peeked: Some(byte),
            line: self.line,
            column: self.column,
        };
        byte
    }

    fn position(&self) -> (r: Position) {
        proof {
            use_type_invariant(self);
            lemma_line_start(self.bytes@, self.handed_out());
        }
        Position { line: self.line, column: self.column }
    }

    fn peek_position(&self) -> (r: Position) {
        proof {
            use_type_invariant(self);
            lemma_line_start(self.bytes@, self.handed_out());
        }
        Position { line: self.line, column: self.column + 1 }
    }
}

} // verus!
