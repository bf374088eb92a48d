use crate::error::{Error, ErrorCode};
use crate::grammar::{
    belongs, body_indent, element_step, ends_value, key_step, lemma_advances, lemma_key_end,
    lemma_skip_blanks, lemma_trimmed, skip_blanks, skip_step, text_step, value_step, Cursor,
    ElemType, Fault, Span,
};
use crate::parser::{IndentState, Parser, Reference};
use crate::position::{position_at, Position};
use crate::scalar::FromText;
use vstd::prelude::*;
use vstd::string::StringSliceAdditionalSpecFns;

verus! {

/// Whether what was returned is what the format yields: the text of the
/// stretch with a bookmark to where it begins, or the fault at its place.
pub open spec fn text_found<'a, 's, P: Parser<'a>>(
    data: Seq<u8>,
    expected: Result<Span, Fault>,
    returned: Result<(P::Bookmark, Reference<'a, 's>), Error>,
) -> bool {
    match expected {
        Ok(span) => returned matches Ok(found) && found.1.bytes() == span.of(data) && P::place(
            data,
            found.0,
        ) == position_at(data, span.start),
        Err(fault) => returned matches Err(error) && error.is_exactly(
            fault.code,
            position_at(data, fault.at),
        ),
    }
}

/// What reading the text asked for next as a value of `T` yields: the value
/// that the text stands for; where it stands for none, `code` at the place
/// where the text begins; where there is no text, the fault of reading it.
pub open spec fn scalar_step<T: FromText>(
    data: Seq<u8>,
    c: Cursor,
    next: ElemType,
    code: ErrorCode,
) -> Result<T, (ErrorCode, Position)> {
    match text_step(data, c, next).1 {
        Ok(span) => match T::text_value(span.of(data)) {
            Some(value) => Ok(value),
            None => Err((code, position_at(data, span.start))),
        },
        Err(fault) => Err((fault.code, position_at(data, fault.at))),
    }
}

/// Whether `convert` makes `outcome` of the text with these bytes.
pub open spec fn converted<T, F: FnOnce(&str) -> Option<T>>(
    convert: F,
    bytes: Seq<u8>,
    outcome: Option<T>,
) -> bool {
    exists|text: &str|
        #[trigger] text.spec_bytes() == bytes && call_ensures(convert, (text,), outcome)
}

/// Whether `returned` is the value, or the error with the code and position,
/// that `expected` names.
pub open spec fn reports<T>(
    returned: Result<T, Error>,
    expected: Result<T, (ErrorCode, Position)>,
) -> bool {
    match expected {
        Ok(value) => returned == Ok::<T, Error>(value),
        Err(failure) => returned matches Err(error) && error.is_exactly(failure.0, failure.1),
    }
}

/// The front end of decoding: it reads keys and values from a parser, as it
/// is told which of the two comes next, and reads their text as values of
/// plain types.
#[must_use]
pub struct Deserializer<P> {
    parser: P,
    is_first: bool,
    scratch: Vec<u8>,
    next_to_parse: ElemType,
}

impl<'a, P: Parser<'a>> Deserializer<P> {
    /// The whole document.
    pub closed spec fn input(&self) -> Seq<u8> {
        self.parser.input()
    }

    /// Where the parser stands in it.
    pub closed spec fn cursor(&self) -> Cursor {
        self.parser.cursor()
    }

    /// Whether no body has been entered yet.
    pub closed spec fn is_first(&self) -> bool {
        self.is_first
    }

    /// Which of the two `parse` reads next.
    pub closed spec fn next_to_parse(&self) -> ElemType {
        self.next_to_parse
    }

    /// This is `before` with the cursor moved to `cursor`, and nothing else
    /// changed.
    pub open spec fn moved(self, before: Self, cursor: Cursor) -> bool {
        &&& self.input() == before.input()
        &&& self.cursor() == cursor
        &&& self.cursor().wf(self.input())
        &&& self.is_first() == before.is_first()
        &&& self.next_to_parse() == before.next_to_parse()
    }

    /// A deserializer that reads from `parser`. It expects a key first.
    pub fn new(parser: P) -> (r: Self)
        ensures
            r.input() == parser.input(),
            r.cursor() == parser.cursor(),
            r.is_first(),
            r.next_to_parse() == ElemType::Key,
    {
        Self { parser, is_first: true, scratch: Vec::new(), next_to_parse: ElemType::Key }
    }

    /// Reads a key or a value, whichever was asked for.
    pub fn parse<'s>(&'s mut self) -> (r: Result<(P::Bookmark, Reference<'a, 's>), Error>)
        ensures
            final(self).moved(
                *old(self),
                text_step(old(self).input(), old(self).cursor(), old(self).next_to_parse()).0,
            ),
            text_found::<P>(
                old(self).input(),
                text_step(old(self).input(), old(self).cursor(), old(self).next_to_parse()).1,
                r,
            ),
    {
        match self.next_to_parse {
            ElemType::Key => self.parser.parse_key(&mut self.scratch),
            ElemType::Value => self.parser.parse_value(&mut self.scratch),
        }
    }

    /// Reads a key.
    pub fn parse_key<'s>(&'s mut self) -> (r: Result<(P::Bookmark, Reference<'a, 's>), Error>)
        ensures
            final(self).moved(*old(self), key_step(old(self).input(), old(self).cursor()).0),
            text_found::<P>(
                old(self).input(),
                key_step(old(self).input(), old(self).cursor()).1,
                r,
            ),
    {
        self.parser.parse_key(&mut self.scratch)
    }

    /// Reads the value of the key that was read last.
    pub fn parse_value<'s>(&'s mut self) -> (r: Result<(P::Bookmark, Reference<'a, 's>), Error>)
        ensures
            final(self).moved(*old(self), value_step(old(self).input(), old(self).cursor()).0),
            text_found::<P>(
                old(self).input(),
                value_step(old(self).input(), old(self).cursor()).1,
                r,
            ),
    {
        self.parser.parse_value(&mut self.scratch)
    }

    /// Skips blanks, and says where on its line that leaves the parser.
    pub fn skip_whitespace(&mut self) -> (r: IndentState)
        ensures
            final(self).moved(*old(self), skip_step(old(self).input(), old(self).cursor())),
            r == final(self).cursor().state,
    {
        self.parser.skip_whitespace(&mut self.scratch)
    }

    /// Reads the text asked for next as a value of `T`. Where the text does
    /// not stand for one, the error is `code`, at the place of the text.
    pub fn parse_from_str<T: FromText>(&mut self, code: ErrorCode) -> (r: Result<T, Error>)
        ensures
            final(self).moved(
                *old(self),
                text_step(old(self).input(), old(self).cursor(), old(self).next_to_parse()).0,
            ),
            reports(
                r,
                scalar_step::<T>(
                    old(self).input(),
                    old(self).cursor(),
                    old(self).next_to_parse(),
                    code,
                ),
            ),
    {
        let (bookmark, text) = self.parse()?;
        match T::from_text(text.as_str()) {
            Some(value) => Ok(value),
            None => Err(Error::new(code, self.parser.position_of_bookmark(bookmark))),
        }
    }

    /// Reads the text asked for next as a boolean.
    pub fn parse_bool(&mut self) -> (r: Result<bool, Error>)
        ensures
            final(self).moved(
                *old(self),
                text_step(old(self).input(), old(self).cursor(), old(self).next_to_parse()).0,
            ),
            reports(
                r,
                scalar_step::<bool>(
                    old(self).input(),
                    old(self).cursor(),
                    old(self).next_to_parse(),
                    ErrorCode::InvalidBool,
                ),
            ),
    {
        self.parse_from_str(ErrorCode::InvalidBool)
    }

    /// Reads the text asked for next as an integer.
    pub fn parse_int<T: FromText>(&mut self) -> (r: Result<T, Error>)
        ensures
            final(self).moved(
                *old(self),
                text_step(old(self).input(), old(self).cursor(), old(self).next_to_parse()).0,
            ),
            reports(
                r,
                scalar_step::<T>(
                    old(self).input(),
                    old(self).cursor(),
                    old(self).next_to_parse(),
                    ErrorCode::InvalidInt,
                ),
            ),
    {
        self.parse_from_str(ErrorCode::InvalidInt)
    }

    /// Reads the text asked for next as a floating-point number, which
    /// `convert` makes of the text. Where `convert` makes none of it, the error
    /// is `InvalidFloat`, at the place of the text.
    pub fn parse_float<T, F: FnOnce(&str) -> Option<T>>(&mut self, convert: F) -> (r: Result<
        T,
        Error,
    >)
        requires
            forall|text: &str| call_requires(convert, (text,)),
        ensures
            final(self).moved(
                *old(self),
                text_step(old(self).input(), old(self).cursor(), old(self).next_to_parse()).0,
            ),
            match text_step(old(self).input(), old(self).cursor(), old(self).next_to_parse()).1 {
                Ok(span) => match r {
                    Ok(value) => converted(convert, span.of(old(self).input()), Some(value)),
                    Err(error) => converted(convert, span.of(old(self).input()), None) && error.is_exactly(
                        ErrorCode::InvalidFloat,
                        position_at(old(self).input(), span.start),
                    ),
                },
                Err(fault) => r matches Err(error) && error.is_exactly(
                    fault.code,
                    position_at(old(self).input(), fault.at),
                ),
            },
    {
        let (bookmark, text) = self.parse()?;
        match convert(text.as_str()) {
            Some(value) => Ok(value),
            None => {
                let place = self.parser.position_of_bookmark(bookmark);
                Err(Error::new(ErrorCode::InvalidFloat, place))
            },
        }
    }

    /// Reads the text asked for next as a character.
    pub fn parse_char(&mut self) -> (r: Result<char, Error>)
        ensures
            final(self).moved(
                *old(self),
                text_step(old(self).input(), old(self).cursor(), old(self).next_to_parse()).0,
            ),
            reports(
                r,
                scalar_step::<char>(
                    old(self).input(),
                    old(self).cursor(),
                    old(self).next_to_parse(),
                    ErrorCode::InvalidChar,
                ),
            ),
    {
        self.parse_from_str(ErrorCode::InvalidChar)
    }

    /// Whether the key that was read last has a value: it has one where
    /// content follows on its line, or on a later line that is indented deeper
    /// than the line of the key. The blanks before that content are skipped.
    pub fn is_some(&mut self) -> (r: bool)
        ensures
            final(self).moved(*old(self), skip_step(old(self).input(), old(self).cursor())),
            r == !ends_value(final(self).cursor().state, final(self).cursor().last_key_indent),
    {
        match self.parser.skip_whitespace(&mut self.scratch) {
            IndentState::Start(indent) => indent > self.parser.last_key_indent(),
            IndentState::Middle => true,
            IndentState::Eof => false,
        }
    }

    /// A bookmark to the key that was read last.
    pub fn last_key_bookmark(&self) -> (r: P::Bookmark)
        ensures
            P::place(self.input(), r) == position_at(self.input(), self.cursor().last_key_index),
    {
        self.parser.last_key_bookmark()
    }

    /// Resolves a bookmark to a line and a column.
    pub fn position_of_bookmark(&self, bookmark: P::Bookmark) -> (r: Position)
        ensures
            r == P::place(self.input(), bookmark),
    {
        self.parser.position_of_bookmark(bookmark)
    }

    /// Gives an error that has no position yet the position of the key that
    /// encloses what failed. An error that has a position is left as it is.
    #[must_use]
    pub fn locate_error(&self, error: Error, last_key: P::Bookmark) -> (r: Error)
        ensures
            r.spec_code() == error.spec_code(),
            r.spec_position() == if error.spec_position() == Position::unset() {
                P::place(self.input(), last_key)
            } else {
                error.spec_position()
            },
    {
        if !error.position().is_default() {
            return error;
        }
        error.with_position(self.parser.position_of_bookmark(last_key))
    }
}

/// A cursor over the entries of one body: the fields of a map, the elements
/// of a sequence, or the variant of an enum. What belongs to the body is told
/// by indentation alone.
#[must_use]
#[derive(Clone, Copy, Debug)]
pub struct KeyValueAccess {
    key_indent: usize,
}

impl KeyValueAccess {
    /// The indentation from which on a line belongs to the body.
    pub closed spec fn key_indent(&self) -> int {
        self.key_indent as int
    }

    /// A cursor over the body that follows the key read last, or over the
    /// whole document where none was read yet.
    pub fn new<'a, P: Parser<'a>>(de: &mut Deserializer<P>) -> (r: Self)
        ensures
            r.key_indent() == body_indent(old(de).is_first(), old(de).cursor().last_key_indent),
            final(de).input() == old(de).input(),
            final(de).cursor() == old(de).cursor(),
            final(de).next_to_parse() == old(de).next_to_parse(),
            !final(de).is_first(),
    {
        let key_indent = de.parser.last_key_indent();
        let key_indent = if de.is_first {
            de.is_first = false;
            if key_indent == 0 {
                0
            } else {
                key_indent + 1
            }
        } else {
            key_indent + 1
        };
        Self { key_indent }
    }

    /// Whether the body has another entry. Where it has one, its key is read
    /// next.
    pub fn next_key<'a, P: Parser<'a>>(&self, de: &mut Deserializer<P>) -> (r: bool)
        ensures
            final(de).input() == old(de).input(),
            final(de).is_first() == old(de).is_first(),
            final(de).cursor() == skip_step(old(de).input(), old(de).cursor()),
            final(de).cursor().wf(final(de).input()),
            r == belongs(final(de).cursor().state, self.key_indent()),
            final(de).next_to_parse() == if r {
                ElemType::Key
            } else {
                old(de).next_to_parse()
            },
    {
        let has_next = match de.skip_whitespace() {
            IndentState::Start(indent) => indent >= self.key_indent,
            IndentState::Middle => true,
            IndentState::Eof => false,
        };
        if !has_next {
            return false;
        }
        de.next_to_parse = ElemType::Key;
        true
    }

    /// Asks for the value of the entry whose key was read.
    pub fn next_value<'a, P: Parser<'a>>(&self, de: &mut Deserializer<P>)
        ensures
            final(de).input() == old(de).input(),
            final(de).is_first() == old(de).is_first(),
            final(de).cursor() == old(de).cursor(),
            final(de).next_to_parse() == ElemType::Value,
    {
        de.next_to_parse = ElemType::Value;
    }

    /// Whether the body has another element. Entries with a key are no
    /// elements: they are passed over, values included. Where there is an
    /// element, its value is read next.
    pub fn next_element<'a, P: Parser<'a>>(&self, de: &mut Deserializer<P>) -> (r: Result<
        bool,
        Error,
    >)
        ensures
            final(de).input() == old(de).input(),
            final(de).is_first() == old(de).is_first(),
            final(de).cursor() == element_step(
                old(de).input(),
                old(de).cursor(),
                self.key_indent(),
            ).0,
            match element_step(old(de).input(), old(de).cursor(), self.key_indent()).1 {
                Ok(found) => r == Ok::<bool, Error>(found) && final(de).next_to_parse()
                    == if found {
                    ElemType::Value
                } else {
                    old(de).next_to_parse()
                },
                Err(fault) => r matches Err(error) && error.is_exactly(
                    fault.code,
                    position_at(old(de).input(), fault.at),
                ),
            },
    {
        let ghost data = de.input();
        let ghost indent = self.key_indent();
        loop
            invariant
                de.input() == data,
                old(de).input() == data,
                indent == self.key_indent(),
                de.is_first() == old(de).is_first(),
                de.next_to_parse() == old(de).next_to_parse(),
                element_step(data, de.cursor(), indent) == element_step(
                    data,
                    old(de).cursor(),
                    indent,
                ),
            decreases data.len() - de.cursor().index,
        {
            let ghost before = de.cursor();
            let has_next = match de.skip_whitespace() {
                IndentState::Start(indent) => indent >= self.key_indent,
                IndentState::Middle => true,
                IndentState::Eof => false,
            };
            if !has_next {
                return Ok(false);
            }
            let ghost skipped = de.cursor();
            proof {
                lemma_advances(data, before);
                lemma_advances(data, skipped);
                lemma_skip_blanks(data, skipped.index);
                lemma_key_end(data, skip_blanks(data, skipped.index));
                lemma_trimmed(
                    data,
                    skip_blanks(data, skipped.index),
                    crate::grammar::key_end(data, skip_blanks(data, skipped.index)),
                );
            }
            let is_element = match de.parse_key() {
                Ok(found) => found.1.as_str().len() == 0,
                Err(error) => {
                    return Err(error);
                },
            };
            if is_element {
                de.next_to_parse = ElemType::Value;
                return Ok(true);
            }
            proof {
                lemma_advances(data, de.cursor());
            }
            match de.parse_value() {
                Ok(_) => (),
                Err(error) => {
                    return Err(error);
                },
            }
        }
    }

    /// Asks for the name of the variant, which is written as a key.
    pub fn variant<'a, P: Parser<'a>>(&self, de: &mut Deserializer<P>)
        ensures
            final(de).input() == old(de).input(),
            final(de).is_first() == old(de).is_first(),
            final(de).cursor() == old(de).cursor(),
            final(de).next_to_parse() == ElemType::Key,
    {
        de.next_to_parse = ElemType::Key;
    }

    /// Ends a variant without payload: what is written as its value is read
    /// and dropped.
    pub fn unit_variant<'a, P: Parser<'a>>(&self, de: &mut Deserializer<P>) -> (r: Result<
        (),
        Error,
    >)
        ensures
            final(de).moved(*old(de), value_step(old(de).input(), old(de).cursor()).0),
            match value_step(old(de).input(), old(de).cursor()).1 {
                Ok(_) => r is Ok,
                Err(fault) => r matches Err(error) && error.is_exactly(
                    fault.code,
                    position_at(old(de).input(), fault.at),
                ),
            },
    {
        match de.parse_value() {
            Ok(_) => Ok(()),
            Err(error) => Err(error),
        }
    }

    /// Asks for the payload of a variant that holds one value.
    pub fn newtype_variant<'a, P: Parser<'a>>(&self, de: &mut Deserializer<P>)
        ensures
            final(de).input() == old(de).input(),
            final(de).is_first() == old(de).is_first(),
            final(de).cursor() == old(de).cursor(),
            final(de).next_to_parse() == ElemType::Value,
    {
        de.next_to_parse = ElemType::Value;
    }
}

} // verus!
