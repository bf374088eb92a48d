use crate::de::Read;
use crate::error::{Error, ErrorCode};
use crate::grammar::{
    as_text, indent_at, is_blank, key_end, leading_spaces, lemma_key_end, lemma_line_end,
    lemma_skip_blanks, lemma_trimmed, lemma_trimmed_after_blanks, lemma_trimmed_copy, line_end,
    skip_blanks, trimmed, value_stop, Cursor, EQUALS, SPACE,
};
use crate::parser::slice_parser::trim_bounds;
use crate::parser::{from_utf8, IndentState, Parser, Reference};
use crate::utf8::{lemma_valid_up_to, valid_prefix};
use crate::position::{advance, lemma_line_start, position_at, Position, NEWLINE};
use vstd::prelude::*;
use vstd::slice::slice_subrange;

verus! {

/// A parser over bytes that come from a reader, one at a time. Keys and
/// values are copied into the scratch buffer.
#[must_use]
pub struct ReadParser<R: Read + Copy> {
    reader: R,
    last_key_indent: usize,
    last_key_position: Position,
    last_key_index: Ghost<int>,
    indent_state: IndentState,
}

impl<R: Read + Copy> ReadParser<R> {
    #[verifier::type_invariant]
    spec fn inv(&self) -> bool {
        &&& self.model().wf(self.reader.data())
        &&& self.last_key_position == position_at(self.reader.data(), self.last_key_index@)
    }

    spec fn model(&self) -> Cursor {
        Cursor {
            index: self.reader.consumed(),
            state: self.indent_state,
            last_key_indent: self.last_key_indent as int,
            last_key_index: self.last_key_index@,
        }
    }

    /// A parser over what `reader` has to hand out.
    pub fn new(reader: R) -> (r: Self)
        requires
            reader.consumed() == 0,
            reader.data().len() < usize::MAX,
        ensures
            r.input() == reader.data(),
            r.cursor() == Cursor::initial(),
    {
        proof {
            assert(leading_spaces(reader.data(), 0, 0));
            assert(reader.data().subrange(0, 0) =~= Seq::<u8>::empty());
        }
        Self {
            reader,
            last_key_indent: 0,
            last_key_position: Position { line: 1, column: 1 },
            last_key_index: Ghost(0),
            indent_state: IndentState::Start(0),
        }
    }

    /// Takes what was copied from the document at `from`, trimmed, as text.
    fn checked<'a, 's>(
        copy: &'s [u8],
        bookmark: Position,
        Ghost(data): Ghost<Seq<u8>>,
        Ghost(from): Ghost<int>,
        Ghost(first): Ghost<int>,
    ) -> (r: Result<(Position, Reference<'a, 's>), Error>)
        requires
            0 <= from <= first,
            first + copy@.len() <= data.len() < usize::MAX,
            copy@ == data.subrange(first, first + copy@.len()),
            forall|k: int| from <= k < first ==> is_blank(data[k]),
            copy@.len() > 0 ==> !is_blank(data[first]),
            bookmark == position_at(data, first),
        ensures
            r matches Ok(found) ==> found.1 is Copied && found.1.bytes() == copy@.subrange(
                0,
                found.1.bytes().len() as int,
            ),
            match as_text(data, trimmed(data, from, first + copy@.len())) {
                Ok(span) => r matches Ok(found) && found.1.bytes() == span.of(data) && found.0
                    == position_at(data, span.start),
                Err(fault) => r matches Err(error) && error.spec_code() == fault.code
                    && error.spec_position() == position_at(data, fault.at),
            },
    {
        let (start, end) = trim_bounds(copy, 0, copy.len());
        let kept = slice_subrange(copy, start, end);
        proof {
            let to = first + copy@.len();
            lemma_trimmed_after_blanks(data, from, first, to);
            lemma_trimmed_copy(data, first, to, copy@);
            lemma_trimmed(data, first, to);
            assert(kept@ =~= trimmed(data, from, to).of(data));
        }
        match from_utf8(kept) {
            Some(text) => Ok((bookmark, Reference::Copied(text))),
            None => {
                let valid = valid_prefix(kept);
                proof {
                    lemma_valid_up_to(kept@, valid as int);
                    assert(kept@.subrange(0, valid as int) =~= data.subrange(first, first + valid));
                }
                let valid_part = slice_subrange(kept, 0, valid);
                let place = advance(bookmark, valid_part, Ghost(data), Ghost(first));
                Err(Error::new(ErrorCode::InvalidUtf8, place))
            },
        }
    }
}

impl<'a, R: Read + Copy> Parser<'a> for ReadParser<R> {
    type Bookmark = Position;

    closed spec fn input(&self) -> Seq<u8> {
        self.reader.data()
    }

    closed spec fn cursor(&self) -> Cursor {
        self.model()
    }

    /// A bookmark of this parser is the place itself.
    open spec fn place(data: Seq<u8>, bookmark: Position) -> Position {
        bookmark
    }

    fn parse_key<'s>(&'s mut self, scratch: &'s mut Vec<u8>) -> (r: Result<
        (Position, Reference<'a, 's>),
        Error,
    >)
        ensures
            r matches Ok(found) ==> found.1 is Copied,
            r matches Ok(found) ==> found.1.bytes() == final(scratch)@.subrange(
                0,
                found.1.bytes().len() as int,
            ),
    {
        let ghost data = self.reader.data();
        let ghost entered = self.model();
        let state = self.skip_whitespace(scratch);
        proof {
            use_type_invariant(&*self);
            lemma_skip_blanks(data, entered.index);
        }
        let mut reader = self.reader;
        let (indent_state, last_key_indent) = match state {
            IndentState::Start(indent) => (IndentState::Middle, indent),
            other => (other, self.last_key_indent),
        };
        scratch.clear();
        let bookmark = reader.peek_position();
        let ghost key_start = reader.consumed();
        let mut found_eq = false;
        loop
            invariant_except_break
                reader.data() == data,
                0 <= key_start <= reader.consumed() <= data.len(),
                key_end(data, reader.consumed()) == key_end(data, key_start),
                scratch@ == data.subrange(key_start, reader.consumed()),
                !found_eq,
            ensures
                reader.data() == data,
                key_start <= reader.consumed() <= data.len(),
                reader.consumed() == key_end(data, key_start),
                scratch@ == data.subrange(key_start, reader.consumed()),
                found_eq == (reader.consumed() < data.len() && data[reader.consumed()] == EQUALS),
            decreases data.len() - reader.consumed(),
        {
            let ghost at = reader.consumed();
            match reader.peek() {
                None => {
                    break;
                },
                Some(byte) => {
                    if byte == EQUALS {
                        found_eq = true;
                        break;
                    }
                    if byte == NEWLINE {
                        break;
                    }
                    scratch.push(byte);
                },
            }
            reader.next();
            proof {
                assert(data.subrange(key_start, at).push(data[at]) =~= data.subrange(
                    key_start,
                    at + 1,
                ));
            }
        }
        proof {
            lemma_key_end(data, key_start);
        }
        if !found_eq {
            let place = reader.peek_position();
            *self = Self {
                reader,
                last_key_indent,
                last_key_position: self.last_key_position,
                last_key_index: self.last_key_index,
                indent_state,
            };
            return Err(Error::new(ErrorCode::ExpectedEq, place));
        }
        let ghost end = reader.consumed();
        reader.next();
        proof {
            lemma_trimmed(data, key_start, end);
            assert(scratch@.len() > 0 ==> scratch@[0] == data[key_start]);
        }
        *self = Self {
            reader,
            last_key_indent,
            last_key_position: bookmark,
            last_key_index: Ghost(key_start),
            indent_state,
        };
        Self::checked(scratch.as_slice(), bookmark, Ghost(data), Ghost(key_start), Ghost(key_start))
    }

    fn parse_value<'s>(&'s mut self, scratch: &'s mut Vec<u8>) -> (r: Result<
        (Position, Reference<'a, 's>),
        Error,
    >)
        ensures
            r matches Ok(found) ==> found.1 is Copied,
            r matches Ok(found) ==> found.1.bytes() == final(scratch)@.subrange(
                0,
                found.1.bytes().len() as int,
            ),
    {
        proof {
            use_type_invariant(&*self);
        }
        let ghost data = self.reader.data();
        let ghost entered = self.model();
        let ghost mut first = entered.index;
        let mut bookmark = self.reader.peek_position();
        let mut begun = false;
        scratch.clear();
        loop
            invariant_except_break
                self.reader.data() == data,
                data.len() < usize::MAX,
                0 <= entered.index <= first <= self.reader.consumed() <= data.len(),
                value_stop(data, self.model()) == value_stop(data, entered),
                forall|k: int| entered.index <= k < first ==> is_blank(data[k]),
                !begun ==> first == entered.index == self.reader.consumed(),
                begun ==> first < data.len() && !is_blank(data[first]),
                scratch@ == data.subrange(first, self.reader.consumed()),
                bookmark == position_at(data, first),
            ensures
                self.reader.data() == data,
                0 <= entered.index <= first <= self.reader.consumed() <= data.len(),
                self.model() == value_stop(data, entered),
                forall|k: int| entered.index <= k < first ==> is_blank(data[k]),
                first < self.reader.consumed() ==> !is_blank(data[first]),
                scratch@ == data.subrange(first, self.reader.consumed()),
                bookmark == position_at(data, first),
            decreases data.len() - self.reader.consumed(),
        {
            let ghost before = self.model();
            let mut probe = self.reader;
            if probe.peek().is_none() {
                break;
            }
            proof {
                lemma_skip_blanks(data, before.index);
            }
            let state = self.skip_whitespace(scratch);
            proof {
                use_type_invariant(&*self);
            }
            if !begun {
                scratch.clear();
                bookmark = self.reader.peek_position();
                proof {
                    first = self.reader.consumed();
                    assert(scratch@ =~= data.subrange(first, first));
                }
            }
            match state {
                IndentState::Start(indent) => {
                    if indent <= self.last_key_indent {
                        break;
                    }
                },
                IndentState::Middle => (),
                IndentState::Eof => {
                    break;
                },
            }
            begun = true;
            let mut reader = self.reader;
            let ghost line = reader.consumed();
            proof {
                lemma_line_end(data, line);
            }
            loop
                invariant_except_break
                    reader.data() == data,
                    0 <= first <= line <= reader.consumed() <= data.len(),
                    line_end(data, reader.consumed()) == line_end(data, line),
                    scratch@ == data.subrange(first, reader.consumed()),
                ensures
                    reader.data() == data,
                    first <= line <= reader.consumed() <= data.len(),
                    reader.consumed() == line_end(data, line),
                    scratch@ == data.subrange(first, reader.consumed()),
                decreases data.len() - reader.consumed(),
            {
                let ghost at = reader.consumed();
                match reader.peek() {
                    None => {
                        break;
                    },
                    Some(byte) => {
                        if byte == NEWLINE {
                            break;
                        }
                        scratch.push(byte);
                    },
                }
                reader.next();
                proof {
                    assert(data.subrange(first, at).push(data[at]) =~= data.subrange(
                        first,
                        at + 1,
                    ));
                }
            }
            *self = Self {
                reader,
                last_key_indent: self.last_key_indent,
                last_key_position: self.last_key_position,
                last_key_index: self.last_key_index,
                indent_state: IndentState::Middle,
            };
        }
        proof {
            use_type_invariant(&*self);
        }
        Self::checked(scratch.as_slice(), bookmark, Ghost(data), Ghost(entered.index), Ghost(first))
    }

    fn skip_whitespace(&mut self, scratch: &mut Vec<u8>) -> (r: IndentState)
        ensures
            final(scratch)@ == old(scratch)@ + old(self).input().subrange(
                old(self).cursor().index,
                final(self).cursor().index,
            ),
    {
        proof {
            use_type_invariant(&*self);
        }
        let ghost data = self.reader.data();
        let ghost from = self.reader.consumed();
        let entered = self.indent_state;
        let mut reader = self.reader;
        let mut state = self.indent_state;
        proof {
            lemma_line_start(data, from);
            assert(data.subrange(from, from) =~= Seq::<u8>::empty());
            assert(scratch@ + Seq::<u8>::empty() =~= scratch@);
        }
        loop
            invariant_except_break
                reader.data() == data,
                data.len() < usize::MAX,
                0 <= from <= reader.consumed() <= data.len(),
                entered matches IndentState::Start(n) ==> n <= from,
                skip_blanks(data, reader.consumed()) == skip_blanks(data, from),
                state == indent_at(data, from, reader.consumed(), entered),
                state matches IndentState::Start(n) ==> leading_spaces(
                    data,
                    reader.consumed(),
                    n as int,
                ),
                scratch@ == old(scratch)@ + data.subrange(from, reader.consumed()),
            ensures
                reader.data() == data,
                from <= reader.consumed() <= data.len(),
                reader.consumed() == skip_blanks(data, from),
                reader.consumed() < data.len() ==> state == indent_at(
                    data,
                    from,
                    reader.consumed(),
                    entered,
                ),
                reader.consumed() >= data.len() ==> state == IndentState::Eof,
                state matches IndentState::Start(n) ==> leading_spaces(
                    data,
                    reader.consumed(),
                    n as int,
                ),
                scratch@ == old(scratch)@ + data.subrange(from, reader.consumed()),
            decreases data.len() - reader.consumed(),
        {
            let ghost at = reader.consumed();
            let byte = match reader.peek() {
                Some(byte) => byte,
                None => {
                    state = IndentState::Eof;
                    break;
                },
            };
            proof {
                lemma_line_start(data, at);
            }
            if byte == SPACE {
                if let IndentState::Start(indent) = state {
                    state = IndentState::Start(indent + 1);
                }
            } else if byte == NEWLINE {
                state = IndentState::Start(0);
            } else {
                break;
            }
            scratch.push(byte);
            reader.next();
            proof {
                assert(data.subrange(from, at).push(data[at]) =~= data.subrange(from, at + 1));
                assert((old(scratch)@ + data.subrange(from, at)).push(data[at]) =~= old(scratch)@
                    + data.subrange(from, at + 1));
            }
        }
        *self = Self {
            reader,
            last_key_indent: self.last_key_indent,
            last_key_position: self.last_key_position,
            last_key_index: self.last_key_index,
            indent_state: state,
        };
        state
    }

    fn last_key_indent(&self) -> (r: usize) {
        proof {
            use_type_invariant(self);
        }
        self.last_key_indent
    }

    fn last_key_bookmark(&self) -> (r: Position) {
        proof {
            use_type_invariant(self);
        }
        self.last_key_position
    }

    fn position_of_bookmark(&self, bookmark: Position) -> (r: Position) {
        bookmark
    }
}

} // verus!
