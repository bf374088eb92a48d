use crate::error::{Error, ErrorCode};
use crate::grammar::{
    is_blank, key_end, key_step_raw, lemma_key_end, lemma_line_end, lemma_skip_blanks,
    lemma_trimmed, line_end, skip_blanks, skip_step, trimmed, value_stop, Cursor,
};
use crate::parser::{IndentState, Parser, Reference, SliceParser};
use crate::position::{position_at, Position};
use vstd::prelude::*;
use vstd::string::StringSliceAdditionalSpecFns;
use vstd::utf8::{
    encode_utf8_valid_utf8, is_char_boundary, is_char_boundary_iff_not_is_continuation_byte,
    is_char_boundary_start_end_of_seq, pop_first_scalar, valid_utf8, valid_utf8_split,
};

verus! {

/// In valid UTF-8, a character ends where a byte below 0x80 ends.
pub proof fn lemma_boundary_after_ascii(bytes: Seq<u8>, index: int)
    requires
        valid_utf8(bytes),
        0 < index <= bytes.len(),
        bytes[index - 1] < 0x80,
    ensures
        is_char_boundary(bytes, index),
{
    is_char_boundary_iff_not_is_continuation_byte(bytes, index - 1);
    assert(is_char_boundary(bytes, index - 1));
    valid_utf8_split(bytes, index - 1);
    let tail = bytes.subrange(index - 1, bytes.len() as int);
    assert(valid_utf8(tail));
    assert(tail[0] == bytes[index - 1]);
    assert(pop_first_scalar(tail) =~= bytes.subrange(index, bytes.len() as int));
    if index == bytes.len() {
        is_char_boundary_start_end_of_seq(bytes);
    } else {
        let rest = bytes.subrange(index, bytes.len() as int);
        assert(valid_utf8(rest));
        assert(rest[0] == bytes[index]);
        assert(vstd::utf8::valid_first_scalar(rest));
        assert(!vstd::utf8::is_continuation_byte(rest[0]));
        is_char_boundary_iff_not_is_continuation_byte(bytes, index);
    }
}

/// In valid UTF-8, a character begins where a byte below 0x80 stands, and one
/// ends at the end of the bytes.
pub proof fn lemma_boundary_at_ascii(bytes: Seq<u8>, index: int)
    requires
        valid_utf8(bytes),
        0 <= index <= bytes.len(),
        index < bytes.len() ==> bytes[index] < 0x80,
    ensures
        is_char_boundary(bytes, index),
{
    if index == bytes.len() {
        is_char_boundary_start_end_of_seq(bytes);
    } else {
        is_char_boundary_iff_not_is_continuation_byte(bytes, index);
    }
}

/// Skipping blanks from the end of a character leads to the end of a
/// character.
pub proof fn lemma_skip_blanks_boundary(bytes: Seq<u8>, from: int)
    requires
        valid_utf8(bytes),
        0 <= from <= bytes.len(),
        is_char_boundary(bytes, from),
    ensures
        is_char_boundary(bytes, skip_blanks(bytes, from)),
{
    lemma_skip_blanks(bytes, from);
    let to = skip_blanks(bytes, from);
    if to > from {
        assert(is_blank(bytes[to - 1]));
        lemma_boundary_after_ascii(bytes, to);
    }
}

/// Trimming a stretch that begins and ends with the end of a character leaves
/// such a stretch.
pub proof fn lemma_trimmed_boundary(bytes: Seq<u8>, from: int, to: int)
    requires
        valid_utf8(bytes),
        0 <= from <= to <= bytes.len(),
        is_char_boundary(bytes, from),
        is_char_boundary(bytes, to),
    ensures
        is_char_boundary(bytes, trimmed(bytes, from, to).start),
        is_char_boundary(bytes, trimmed(bytes, from, to).end),
        valid_utf8(trimmed(bytes, from, to).of(bytes)),
{
    lemma_trimmed(bytes, from, to);
    let span = trimmed(bytes, from, to);
    if span.start > from {
        assert(is_blank(bytes[span.start - 1]));
        lemma_boundary_after_ascii(bytes, span.start);
    }
    if span.end < to {
        assert(is_blank(bytes[span.end]));
        lemma_boundary_at_ascii(bytes, span.end);
    }
    lemma_between_boundaries(bytes, span.start, span.end);
}

/// What lies between the ends of two characters is valid UTF-8.
pub proof fn lemma_between_boundaries(bytes: Seq<u8>, from: int, to: int)
    requires
        valid_utf8(bytes),
        0 <= from <= to <= bytes.len(),
        is_char_boundary(bytes, from),
        is_char_boundary(bytes, to),
    ensures
        valid_utf8(bytes.subrange(from, to)),
        is_char_boundary(bytes.subrange(0, to), from),
{
    valid_utf8_split(bytes, to);
    let head = bytes.subrange(0, to);
    if from == to {
        is_char_boundary_start_end_of_seq(head);
    } else {
        assert(head[from] == bytes[from]);
        is_char_boundary_iff_not_is_continuation_byte(bytes, from);
        is_char_boundary_iff_not_is_continuation_byte(head, from);
    }
    valid_utf8_split(head, from);
    assert(head.subrange(from, head.len() as int) =~= bytes.subrange(from, to));
}

/// Reading a key leaves the cursor at the end of a character, where it began
/// at one.
pub proof fn lemma_key_step_boundary(bytes: Seq<u8>, c: Cursor)
    requires
        valid_utf8(bytes),
        c.wf(bytes),
        is_char_boundary(bytes, c.index),
    ensures
        is_char_boundary(bytes, key_step_raw(bytes, c).0.index),
        key_step_raw(bytes, c).1 matches Ok(span) ==> is_char_boundary(bytes, span.start)
            && is_char_boundary(bytes, span.end) && valid_utf8(span.of(bytes)) && 0 <= span.start
            <= span.end <= bytes.len(),
{
    lemma_skip_blanks(bytes, c.index);
    lemma_skip_blanks_boundary(bytes, c.index);
    let start = skip_blanks(bytes, c.index);
    lemma_key_end(bytes, start);
    let end = key_end(bytes, start);
    lemma_boundary_at_ascii(bytes, end);
    if end < bytes.len() {
        lemma_boundary_after_ascii(bytes, end + 1);
    }
    lemma_trimmed_boundary(bytes, start, end);
    lemma_trimmed(bytes, start, end);
}

/// Reading a value leaves the cursor at the end of a character, where it
/// began at one.
pub proof fn lemma_value_stop_boundary(bytes: Seq<u8>, c: Cursor)
    requires
        valid_utf8(bytes),
        0 <= c.index <= bytes.len(),
        is_char_boundary(bytes, c.index),
    ensures
        c.index <= value_stop(bytes, c).index <= bytes.len(),
        is_char_boundary(bytes, value_stop(bytes, c).index),
    decreases bytes.len() - c.index,
{
    if c.index < bytes.len() {
        lemma_skip_blanks(bytes, c.index);
        lemma_skip_blanks_boundary(bytes, c.index);
        let skipped = skip_step(bytes, c);
        if !crate::grammar::ends_value(skipped.state, c.last_key_indent) {
            lemma_line_end(bytes, skipped.index);
            let next = line_end(bytes, skipped.index);
            lemma_boundary_at_ascii(bytes, next);
            lemma_value_stop_boundary(
                bytes,
                Cursor {
                    index: next,
                    state: IndentState::Middle,
                    last_key_indent: c.last_key_indent,
                    last_key_index: c.last_key_index,
                },
            );
        }
    }
}

/// A parser over a document held in memory as text. Keys and values are
/// borrowed from the document.
#[must_use]
pub struct StrParser<'a> {
    data: &'a str,
    delegate: SliceParser<'a>,
}

impl<'a> StrParser<'a> {
    #[verifier::type_invariant]
    spec fn inv(&self) -> bool {
        &&& self.delegate.input() == self.data.spec_bytes()
        &&& self.delegate.cursor().wf(self.delegate.input())
        &&& is_char_boundary(self.data.spec_bytes(), self.delegate.cursor().index)
    }

    /// A parser at the start of `data`.
    pub fn new(data: &'a str) -> (r: Self)
        requires
            data.spec_bytes().len() < usize::MAX,
        ensures
            r.input() == data.spec_bytes(),
            r.cursor() == Cursor::initial(),
    {
        proof {
            encode_utf8_valid_utf8(data@);
            is_char_boundary_start_end_of_seq(data.spec_bytes());
            assert(crate::grammar::leading_spaces(data.spec_bytes(), 0, 0));
        }
        Self { data, delegate: SliceParser::new(data.as_bytes()) }
    }

    /// The text of the document from `start` to `end`.
    fn text(&self, start: usize, end: usize) -> (r: &'a str)
        requires
            start <= end <= self.data.spec_bytes().len(),
            is_char_boundary(self.data.spec_bytes(), start as int),
            is_char_boundary(self.data.spec_bytes(), end as int),
        ensures
            r.spec_bytes() == self.data.spec_bytes().subrange(start as int, end as int),
    {
        proof {
            encode_utf8_valid_utf8(self.data@);
            lemma_between_boundaries(self.data.spec_bytes(), start as int, end as int);
        }
        let (head, _) = self.data.split_at(end);
        let (_, text) = head.split_at(start);
        assert(text.spec_bytes() =~= self.data.spec_bytes().subrange(start as int, end as int));
        text
    }
}

impl<'a> Parser<'a> for StrParser<'a> {
    type Bookmark = usize;

    closed spec fn input(&self) -> Seq<u8> {
        self.delegate.input()
    }

    /// The place of the byte at the offset; an offset beyond the document
    /// stands for its end.
    open spec fn place(data: Seq<u8>, bookmark: usize) -> Position {
        if bookmark <= data.len() {
            position_at(data, bookmark as int)
        } else {
            position_at(data, data.len() as int)
        }
    }

    closed spec fn cursor(&self) -> Cursor {
        self.delegate.cursor()
    }

    fn parse_key<'s>(&'s mut self, scratch: &'s mut Vec<u8>) -> (r: Result<
        (usize, Reference<'a, 's>),
        Error,
    >)
        ensures
            r matches Ok(found) ==> found.1 is Borrowed,
            r matches Err(error) ==> error.spec_code() == ErrorCode::ExpectedEq,
            final(scratch)@ == old(scratch)@,
    {
        proof {
            use_type_invariant(&*self);
            encode_utf8_valid_utf8(self.data@);
            lemma_key_step_boundary(self.delegate.input(), self.delegate.cursor());
        }
        let mut delegate = self.delegate;
        let parsed = delegate.parse_key_raw();
        self.delegate = delegate;
        let (start, key) = parsed?;
        let text = self.text(start, start + key.len());
        Ok((start, Reference::Borrowed(text)))
    }

    fn parse_value<'s>(&'s mut self, scratch: &'s mut Vec<u8>) -> (r: Result<
        (usize, Reference<'a, 's>),
        Error,
    >)
        ensures
            r matches Ok(found) && found.1 is Borrowed,
            final(scratch)@ == old(scratch)@,
    {
        proof {
            use_type_invariant(&*self);
            encode_utf8_valid_utf8(self.data@);
            lemma_value_stop_boundary(self.delegate.input(), self.delegate.cursor());
            lemma_trimmed_boundary(
                self.delegate.input(),
                self.delegate.cursor().index,
                value_stop(self.delegate.input(), self.delegate.cursor()).index,
            );
            lemma_trimmed(
                self.delegate.input(),
                self.delegate.cursor().index,
                value_stop(self.delegate.input(), self.delegate.cursor()).index,
            );
        }
        let mut delegate = self.delegate;
        let (start, value) = delegate.parse_value_raw();
        self.delegate = delegate;
        let text = self.text(start, start + value.len());
        Ok((start, Reference::Borrowed(text)))
    }

    fn skip_whitespace(&mut self, scratch: &mut Vec<u8>) -> (r: IndentState)
        ensures
            final(scratch)@ == old(scratch)@,
    {
        proof {
            use_type_invariant(&*self);
            encode_utf8_valid_utf8(self.data@);
            lemma_skip_blanks_boundary(self.delegate.input(), self.delegate.cursor().index);
        }
        let mut delegate = self.delegate;
        let state = delegate.skip_whitespace_raw();
        self.delegate = delegate;
        state
    }

    fn last_key_indent(&self) -> (r: usize) {
        self.delegate.last_key_indent()
    }

    fn last_key_bookmark(&self) -> (r: usize) {
        self.delegate.last_key_bookmark()
    }

    fn position_of_bookmark(&self, bookmark: usize) -> (r: Position) {
        self.delegate.position_of_bookmark(bookmark)
    }
}

} // verus!
