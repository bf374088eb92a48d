mod read_parser;
mod slice_parser;
mod str_parser;

pub use self::read_parser::ReadParser;
pub use self::slice_parser::{trim, SliceParser};
pub use self::str_parser::StrParser;

use crate::error::Error;
use crate::grammar::{key_step, skip_step, value_step, Cursor};
use crate::position::{position_at, Position};
use vstd::prelude::*;
use vstd::string::StringSliceAdditionalSpecFns;
use vstd::utf8::valid_utf8;

verus! {

/// Where on its line a parser stands.
#[derive(Clone, Copy, Debug, PartialEq, Eq, Structural)]
pub enum IndentState {
    /// At the start of a line, behind this many spaces.
    Start(usize),
    /// Behind content of the line.
    Middle,
    /// At the end of the document.
    Eof,
}

/// The text of a key or a value: borrowed from the document, or copied into
/// the scratch buffer of the call that produced it.
#[derive(Clone, Copy, Debug)]
pub enum Reference<'a, 's> {
    Borrowed(&'a str),
    Copied(&'s str),
}

impl<'a, 's> View for Reference<'a, 's> {
    type V = Seq<char>;

    open spec fn view(&self) -> Seq<char> {
        match self {
            Reference::Borrowed(text) => text@,
            Reference::Copied(text) => text@,
        }
    }
}

impl<'a, 's> Reference<'a, 's> {
    /// The bytes of the text.
    pub open spec fn bytes(&self) -> Seq<u8> {
        match self {
            Reference::Borrowed(text) => text.spec_bytes(),
            Reference::Copied(text) => text.spec_bytes(),
        }
    }

    /// The text, wherever it lies.
    #[must_use]
    pub fn as_str(&self) -> (r: &str)
        ensures
            r@ == self@,
            r.spec_bytes() == self.bytes(),
    {
        match self {
            Reference::Borrowed(text) => text,
            Reference::Copied(text) => text,
        }
    }
}

/// Calls `core::str::from_utf8`: the bytes as text where they are valid
/// UTF-8, and nothing where they are not.
#[verifier::external_body]
pub(crate) fn from_utf8<'b>(bytes: &'b [u8]) -> (r: Option<&'b str>)
    ensures
        r is Some <==> valid_utf8(bytes@),
        r matches Some(text) ==> text.spec_bytes() == bytes@,
{
    match core::str::from_utf8(bytes) {
        Ok(text) => Some(text),
        Err(_) => None,
    }
}

/// A source of keys and values.
///
/// With each key and value a parser hands out a bookmark, from which the
/// place of the text in the document can be had later: a byte offset, or a
/// place that was worked out on the way.
pub trait Parser<'a> {
    /// What this parser hands out to find a place again.
    type Bookmark: Copy;

    /// The whole document.
    spec fn input(&self) -> Seq<u8>;

    /// Where the parser stands in it.
    spec fn cursor(&self) -> Cursor;

    /// The place that a bookmark stands for in a document.
    spec fn place(data: Seq<u8>, bookmark: Self::Bookmark) -> Position;

    /// Reads a key: its text with a bookmark to where it begins, or the fault
    /// at its place.
    fn parse_key<'s>(&'s mut self, scratch: &'s mut Vec<u8>) -> (r: Result<
        (Self::Bookmark, Reference<'a, 's>),
        Error,
    >)
        ensures
            final(self).input() == old(self).input(),
            final(self).cursor().wf(final(self).input()),
            final(self).cursor() == key_step(old(self).input(), old(self).cursor()).0,
            match key_step(old(self).input(), old(self).cursor()).1 {
                Ok(span) => r matches Ok(found) && found.1.bytes() == span.of(old(self).input())
                    && Self::place(old(self).input(), found.0) == position_at(
                    old(self).input(),
                    span.start,
                ),
                Err(fault) => r matches Err(error) && error.spec_code() == fault.code
                    && error.spec_position() == position_at(old(self).input(), fault.at),
            },
    ;

    /// Reads the value of the key that was read last: its text with a
    /// bookmark to where it begins, or the fault at its place.
    fn parse_value<'s>(&'s mut self, scratch: &'s mut Vec<u8>) -> (r: Result<
        (Self::Bookmark, Reference<'a, 's>),
        Error,
    >)
        ensures
            final(self).input() == old(self).input(),
            final(self).cursor().wf(final(self).input()),
            final(self).cursor() == value_step(old(self).input(), old(self).cursor()).0,
            match value_step(old(self).input(), old(self).cursor()).1 {
                Ok(span) => r matches Ok(found) && found.1.bytes() == span.of(old(self).input())
                    && Self::place(old(self).input(), found.0) == position_at(
                    old(self).input(),
                    span.start,
                ),
                Err(fault) => r matches Err(error) && error.spec_code() == fault.code
                    && error.spec_position() == position_at(old(self).input(), fault.at),
            },
    ;

    /// Skips blanks, and says where on its line that leaves the parser.
    fn skip_whitespace(&mut self, scratch: &mut Vec<u8>) -> (r: IndentState)
        ensures
            final(self).input() == old(self).input(),
            final(self).cursor().wf(final(self).input()),
            final(self).cursor() == skip_step(old(self).input(), old(self).cursor()),
            r == final(self).cursor().state,
    ;

    /// The indentation of the line of the key that was read last.
    fn last_key_indent(&self) -> (r: usize)
        ensures
            self.cursor().wf(self.input()),
            r == self.cursor().last_key_indent,
    ;

    /// A bookmark to the key that was read last.
    fn last_key_bookmark(&self) -> (r: Self::Bookmark)
        ensures
            self.cursor().wf(self.input()),
            Self::place(self.input(), r) == position_at(
                self.input(),
                self.cursor().last_key_index,
            ),
    ;

    /// Resolves a bookmark to a line and a column.
    fn position_of_bookmark(&self, bookmark: Self::Bookmark) -> (r: Position)
        ensures
            r == Self::place(self.input(), bookmark),
    ;
}

} // verus!
