use crate::error::{Error, ErrorCode};
use crate::grammar::{
    as_text, indent_at, key_end, key_step_raw, leading_spaces, lemma_line_end, lemma_skip_blanks,
    line_end, skip_blanks, skip_step, trim_end, trim_start, trimmed,
    value_step_raw, value_stop, Cursor, Span, EQUALS, SPACE,
};
use crate::parser::{from_utf8, IndentState, Parser, Reference};
use crate::utf8::{lemma_valid_up_to, valid_prefix};
use crate::position::{lemma_line_start, position_at, position_of_index, Position, NEWLINE};
use vstd::prelude::*;
use vstd::slice::slice_subrange;

verus! {

/// The bounds of what is left of `data[from..to]` once the blanks at both
/// ends are taken off.
pub(crate) fn trim_bounds(data: &[u8], from: usize, to: usize) -> (r: (usize, usize))
    requires
        from <= to <= data@.len(),
    ensures
        (Span { start: r.0 as int, end: r.1 as int }) == trimmed(data@, from as int, to as int),
        from <= r.0 <= r.1 <= to,
{
    let mut start: usize = from;
    while start < to
        invariant_except_break
            from <= start <= to <= data@.len(),
            trim_start(data@, start as int, to as int) == trim_start(data@, from as int, to as int),
        ensures
            from <= start <= to <= data@.len(),
            start == trim_start(data@, from as int, to as int),
        decreases to - start,
    {
        let byte = data[start];
        if !(byte == SPACE || byte == NEWLINE) {
            break;
        }
        start += 1;
    }
    let mut end: usize = to;
    while end > start
        invariant_except_break
            start <= end <= to <= data@.len(),
            trim_end(data@, start as int, end as int) == trim_end(data@, start as int, to as int),
        ensures
            start <= end <= to <= data@.len(),
            end == trim_end(data@, start as int, to as int),
        decreases end - start,
    {
        let byte = data[end - 1];
        if !(byte == SPACE || byte == NEWLINE) {
            break;
        }
        end -= 1;
    }
    (start, end)
}

/// What is left of `data` once the blanks at both ends are taken off.
#[must_use]
pub fn trim(data: &[u8]) -> (r: &[u8])
    ensures
        r@ == trimmed(data@, 0, data@.len() as int).of(data@),
{
    let (start, end) = trim_bounds(data, 0, data.len());
    slice_subrange(data, start, end)
}

/// A parser over a document held in memory as bytes. Keys and values are
/// borrowed from the document.
#[must_use]
#[derive(Clone, Copy)]
pub struct SliceParser<'a> {
    data: &'a [u8],
    index: usize,
    last_key_index: usize,
    last_key_indent: usize,
    indent_state: IndentState,
}

impl<'a> SliceParser<'a> {
    #[verifier::type_invariant]
    spec fn inv(&self) -> bool {
        self.cursor().wf(self.data@)
    }

    /// A parser at the start of `data`.
    pub fn new(data: &'a [u8]) -> (r: Self)
        requires
            data@.len() < usize::MAX,
        ensures
            r.input() == data@,
            r.cursor() == Cursor::initial(),
    {
        proof {
            assert(leading_spaces(data@, 0, 0));
        }
        Self {
            data,
            index: 0,
            last_key_indent: 0,
            last_key_index: 0,
            indent_state: IndentState::Start(0),
        }
    }

    /// Skips blanks, and says where on its line that leaves the parser.
    pub fn skip_whitespace_raw(&mut self) -> (r: IndentState)
        ensures
            final(self).input() == old(self).input(),
            final(self).cursor().wf(final(self).input()),
            final(self).cursor() == skip_step(old(self).input(), old(self).cursor()),
            r == final(self).cursor().state,
    {
        proof {
            use_type_invariant(&*self);
        }
        let data = self.data;
        let from = self.index;
        let entered = self.indent_state;
        let mut index: usize = self.index;
        let mut state = self.indent_state;
        proof {
            lemma_line_start(data@, from as int);
        }
        while index < data.len()
            invariant_except_break
                data@.len() < usize::MAX,
                from <= index <= data@.len(),
                entered matches IndentState::Start(n) ==> n <= from,
                skip_blanks(data@, index as int) == skip_blanks(data@, from as int),
                state == indent_at(data@, from as int, index as int, entered),
                state matches IndentState::Start(n) ==> leading_spaces(
                    data@,
                    index as int,
                    n as int,
                ),
            ensures
                from <= index <= data@.len(),
                index == skip_blanks(data@, from as int),
                state == indent_at(data@, from as int, index as int, entered),
                state matches IndentState::Start(n) ==> leading_spaces(
                    data@,
                    index as int,
                    n as int,
                ),
            decreases data@.len() - index,
        {
            let byte = data[index];
            proof {
                lemma_line_start(data@, index as int);
            }
            if byte == SPACE {
                if let IndentState::Start(indent) = state {
                    state = IndentState::Start(indent + 1);
                }
            } else if byte == NEWLINE {
                state = IndentState::Start(0);
            } else {
                break;
            }
            index += 1;
        }
        if index >= data.len() {
            state = IndentState::Eof;
        }
        *self = Self {
            data,
            index,
            last_key_index: self.last_key_index,
            last_key_indent: self.last_key_indent,
            indent_state: state,
        };
        state
    }
}

impl<'a> SliceParser<'a> {
    /// Reads a key, as bytes, with the offset at which it begins.
    pub fn parse_key_raw(&mut self) -> (r: Result<(usize, &'a [u8]), Error>)
        ensures
            final(self).input() == old(self).input(),
            final(self).cursor().wf(final(self).input()),
            final(self).cursor() == key_step_raw(old(self).input(), old(self).cursor()).0,
            match key_step_raw(old(self).input(), old(self).cursor()).1 {
                Ok(span) => r matches Ok(found) && found.0 == span.start && found.0
                    + found.1@.len() == span.end <= old(self).input().len() && found.1@ == span.of(
                    old(self).input(),
                ),
                Err(fault) => r matches Err(error) && error.spec_code() == fault.code
                    && error.spec_position() == position_at(old(self).input(), fault.at),
            },
    {
        if let IndentState::Start(indent) = self.skip_whitespace_raw() {
            proof {
                use_type_invariant(&*self);
                lemma_skip_blanks(old(self).input(), old(self).cursor().index);
            }
            *self = Self {
                data: self.data,
                index: self.index,
                last_key_index: self.last_key_index,
                last_key_indent: indent,
                indent_state: IndentState::Middle,
            };
        }
        proof {
            use_type_invariant(&*self);
        }
        let data = self.data;
        let key_start = self.index;
        let mut index: usize = self.index;
        let mut found_eq = false;
        while index < data.len()
            invariant_except_break
                key_start <= index <= data@.len(),
                key_end(data@, index as int) == key_end(data@, key_start as int),
                !found_eq,
            ensures
                key_start <= index <= data@.len(),
                index == key_end(data@, key_start as int),
                found_eq == (index < data@.len() && data@[index as int] == EQUALS),
            decreases data@.len() - index,
        {
            let byte = data[index];
            if byte == EQUALS {
                found_eq = true;
                break;
            }
            if byte == NEWLINE {
                break;
            }
            index += 1;
        }
        if !found_eq {
            self.index = index;
            return Err(Error::new(ErrorCode::ExpectedEq, position_of_index(data, index)));
        }
        let (start, end) = trim_bounds(data, key_start, index);
        self.index = index + 1;
        self.last_key_index = start;
        Ok((start, slice_subrange(data, start, end)))
    }

    /// Reads the value of the key that was read last, as bytes, with the
    /// offset at which it begins.
    pub fn parse_value_raw(&mut self) -> (r: (usize, &'a [u8]))
        ensures
            final(self).input() == old(self).input(),
            final(self).cursor().wf(final(self).input()),
            final(self).cursor() == value_step_raw(old(self).input(), old(self).cursor()).0,
            r.0 == value_step_raw(old(self).input(), old(self).cursor()).1.start,
            r.0 + r.1@.len() == value_step_raw(old(self).input(), old(self).cursor()).1.end
                <= old(self).input().len(),
            r.1@ == value_step_raw(old(self).input(), old(self).cursor()).1.of(old(self).input()),
    {
        proof {
            use_type_invariant(&*self);
        }
        let data = self.data;
        let value_start = self.index;
        while self.index < data.len()
            invariant_except_break
                self.data@ == data@,
                value_start <= self.index <= data@.len(),
                value_stop(data@, self.cursor()) == value_stop(data@, old(self).cursor()),
            ensures
                self.data@ == data@,
                value_start <= self.index <= data@.len(),
                self.cursor() == value_stop(data@, old(self).cursor()),
            decreases data@.len() - self.index,
        {
            let ghost before = self.cursor();
            proof {
                lemma_skip_blanks(data@, before.index);
            }
            match self.skip_whitespace_raw() {
                IndentState::Start(indent) => {
                    if indent <= self.last_key_indent {
                        break;
                    }
                    self.indent_state = IndentState::Middle;
                },
                IndentState::Middle => (),
                IndentState::Eof => break,
            }
            let ghost line = self.index;
            proof {
                use_type_invariant(&*self);
                lemma_line_end(data@, line as int);
            }
            while self.index < data.len()
                invariant_except_break
                    self.data@ == data@,
                    line <= self.index <= data@.len(),
                    line_end(data@, self.index as int) == line_end(data@, line as int),
                    self.indent_state == IndentState::Middle,
                    self.last_key_indent == before.last_key_indent,
                    self.last_key_index == before.last_key_index,
                ensures
                    self.data@ == data@,
                    self.index == line_end(data@, line as int),
                    self.indent_state == IndentState::Middle,
                    self.last_key_indent == before.last_key_indent,
                    self.last_key_index == before.last_key_index,
                decreases data@.len() - self.index,
            {
                proof {
                    use_type_invariant(&*self);
                }
                if data[self.index] == NEWLINE {
                    break;
                }
                self.index += 1;
            }
        }
        proof {
            use_type_invariant(&*self);
        }
        let (start, end) = trim_bounds(data, value_start, self.index);
        (start, slice_subrange(data, start, end))
    }
}

impl<'a> Parser<'a> for SliceParser<'a> {
    type Bookmark = usize;

    closed spec fn input(&self) -> Seq<u8> {
        self.data@
    }

    /// The place of the byte at the offset; an offset beyond the document
    /// stands for its end.
    open spec fn place(data: Seq<u8>, bookmark: usize) -> Position {
        if bookmark <= data.len() {
            position_at(data, bookmark as int)
        } else {
            position_at(data, data.len() as int)
        }
    }

    closed spec fn cursor(&self) -> Cursor {
        Cursor {
            index: self.index as int,
            state: self.indent_state,
            last_key_indent: self.last_key_indent as int,
            last_key_index: self.last_key_index as int,
        }
    }

    fn parse_key<'s>(&'s mut self, scratch: &'s mut Vec<u8>) -> (r: Result<
        (usize, Reference<'a, 's>),
        Error,
    >)
        ensures
            r matches Ok(found) ==> found.1 is Borrowed,
            final(scratch)@ == old(scratch)@,
    {
        let (start, key) = self.parse_key_raw()?;
        proof {
            use_type_invariant(&*self);
        }
        self.checked(start, key)
    }

    fn parse_value<'s>(&'s mut self, scratch: &'s mut Vec<u8>) -> (r: Result<
        (usize, Reference<'a, 's>),
        Error,
    >)
        ensures
            r matches Ok(found) ==> found.1 is Borrowed,
            final(scratch)@ == old(scratch)@,
    {
        let (start, value) = self.parse_value_raw();
        proof {
            use_type_invariant(&*self);
        }
        self.checked(start, value)
    }

    fn skip_whitespace(&mut self, scratch: &mut Vec<u8>) -> (r: IndentState)
        ensures
            final(scratch)@ == old(scratch)@,
    {
        self.skip_whitespace_raw()
    }

    fn last_key_indent(&self) -> (r: usize) {
        proof {
            use_type_invariant(self);
        }
        self.last_key_indent
    }

    fn last_key_bookmark(&self) -> (r: usize) {
        proof {
            use_type_invariant(self);
        }
        self.last_key_index
    }

    fn position_of_bookmark(&self, bookmark: usize) -> (r: Position) {
        proof {
            use_type_invariant(self);
        }
        if bookmark <= self.data.len() {
            position_of_index(self.data, bookmark)
        } else {
            position_of_index(self.data, self.data.len())
        }
    }
}

impl<'a> SliceParser<'a> {
    /// Takes bytes of the document, which begin at `start`, as text.
    fn checked<'s>(&self, start: usize, bytes: &'a [u8]) -> (r: Result<
        (usize, Reference<'a, 's>),
        Error,
    >)
        requires
            start + bytes@.len() <= self.input().len(),
            bytes@ == self.input().subrange(start as int, start + bytes@.len()),
        ensures
            r matches Ok(found) ==> found.1 is Borrowed,
            match as_text(self.input(), Span { start: start as int, end: start + bytes@.len() }) {
                Ok(span) => r matches Ok(found) && found.1.bytes() == span.of(self.input())
                    && Self::place(self.input(), found.0) == position_at(self.input(), span.start),
                Err(fault) => r matches Err(error) && error.spec_code() == fault.code
                    && error.spec_position() == position_at(self.input(), fault.at),
            },
    {
        proof {
            use_type_invariant(self);
        }
        match from_utf8(bytes) {
            Some(text) => Ok((start, Reference::Borrowed(text))),
            None => {
                let valid = valid_prefix(bytes);
                proof {
                    lemma_valid_up_to(bytes@, valid as int);
                }
                Err(Error::new(ErrorCode::InvalidUtf8, position_of_index(self.data, start + valid)))
            },
        }
    }
}

} // verus!
