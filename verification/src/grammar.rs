//! The format, as functions on bytes.
//!
//! A document is a sequence of lines. A content line is made of leading
//! spaces, a key, `=`, and the rest of the line; the lines that follow it with
//! a deeper indentation continue its value. The functions here say, for a
//! document and a cursor into it, where the cursor stands after each step of
//! reading and which bytes the step yields. The parsers are proved against
//! them.
use crate::error::ErrorCode;
use crate::parser::IndentState;
use crate::position::{lemma_line_start, lemma_line_start_unique, line_start, NEWLINE};
use crate::utf8::valid_up_to;
use vstd::prelude::*;
use vstd::utf8::valid_utf8;

verus! {

/// The byte that indents a line.
pub const SPACE: u8 = 0x20;

/// The byte that parts a key from its value.
pub const EQUALS: u8 = 0x3d;

/// Spaces and newlines carry no content.
pub open spec fn is_blank(byte: u8) -> bool {
    byte == SPACE || byte == NEWLINE
}

/// Where a reader stands in a document, and what it remembers.
pub struct Cursor {
    /// The number of bytes consumed so far.
    pub index: int,
    /// Where on its line the reader stands.
    pub state: IndentState,
    /// The indentation of the line of the key that was read last.
    pub last_key_indent: int,
    /// Where the key that was read last begins.
    pub last_key_index: int,
}

/// A stretch of the document, from `start` up to and without `end`.
pub struct Span {
    pub start: int,
    pub end: int,
}

/// A failure of reading, and the index of the byte it is reported at.
pub struct Fault {
    pub code: ErrorCode,
    pub at: int,
}

impl Cursor {
    /// The cursor before anything was read.
    pub open spec fn initial() -> Cursor {
        Cursor { index: 0, state: IndentState::Start(0), last_key_indent: 0, last_key_index: 0 }
    }

    /// What holds of the cursor of every parser: it lies inside the document,
    /// and an indentation that it reports is the number of spaces between the
    /// start of the line and the cursor, with nothing else in between.
    pub open spec fn wf(self, data: Seq<u8>) -> bool {
        &&& data.len() < usize::MAX
        &&& 0 <= self.index <= data.len()
        &&& 0 <= self.last_key_index <= self.index
        &&& 0 <= self.last_key_indent <= self.index
        &&& self.last_key_indent == 0 || self.last_key_indent < data.len()
        &&& self.state is Eof ==> self.index == data.len()
        &&& self.state matches IndentState::Start(n) ==> leading_spaces(
            data,
            self.index,
            n as int,
        )
    }
}

impl Span {
    /// The bytes of the stretch.
    pub open spec fn of(self, data: Seq<u8>) -> Seq<u8> {
        data.subrange(self.start, self.end)
    }

    pub open spec fn is_empty(self) -> bool {
        self.start == self.end
    }
}

/// The `n` bytes before `index` are spaces, and they begin the line.
pub open spec fn leading_spaces(data: Seq<u8>, index: int, n: int) -> bool {
    &&& 0 <= n <= index
    &&& line_start(data, index) == index - n
    &&& forall|k: int| index - n <= k < index ==> data[k] == SPACE
}

/// The first index at or after `from` that holds a byte with content, or the
/// length of the document where only blanks follow.
pub open spec fn skip_blanks(data: Seq<u8>, from: int) -> int
    decreases data.len() - from,
{
    if 0 <= from < data.len() && is_blank(data[from]) {
        skip_blanks(data, from + 1)
    } else {
        from
    }
}

/// Where on its line a reader stands that was in `state` at `from` and has
/// passed blanks only up to `to`: where it has passed a newline, it is
/// indented by the spaces since the last one; else it is where it was, with
/// the spaces it passed added to an indentation it had.
pub open spec fn indent_at(data: Seq<u8>, from: int, to: int, state: IndentState) -> IndentState {
    if line_start(data, to) > from {
        IndentState::Start((to - line_start(data, to)) as usize)
    } else {
        match state {
            IndentState::Start(n) => IndentState::Start((n + to - from) as usize),
            other => other,
        }
    }
}

/// Where on its line a reader stands that was in `state` at `from` and has
/// skipped the blanks that follow: at the end of the document, or as
/// `indent_at` says.
pub open spec fn indent_after(data: Seq<u8>, from: int, state: IndentState) -> IndentState {
    let to = skip_blanks(data, from);
    if to >= data.len() {
        IndentState::Eof
    } else {
        indent_at(data, from, to, state)
    }
}

/// The cursor after the blanks at it have been skipped.
pub open spec fn skip_step(data: Seq<u8>, c: Cursor) -> Cursor {
    Cursor { index: skip_blanks(data, c.index), state: indent_after(data, c.index, c.state), ..c }
}

/// The first index at or after `from` that holds `=` or a newline, or the
/// length of the document where neither follows.
pub open spec fn key_end(data: Seq<u8>, from: int) -> int
    decreases data.len() - from,
{
    if 0 <= from < data.len() && data[from] != EQUALS && data[from] != NEWLINE {
        key_end(data, from + 1)
    } else {
        from
    }
}

/// The first index at or after `from` that holds a newline, or the length of
/// the document where none follows.
pub open spec fn line_end(data: Seq<u8>, from: int) -> int
    decreases data.len() - from,
{
    if 0 <= from < data.len() && data[from] != NEWLINE {
        line_end(data, from + 1)
    } else {
        from
    }
}

/// The first index in `from..to` that holds a byte with content, or `to`.
pub open spec fn trim_start(data: Seq<u8>, from: int, to: int) -> int
    decreases to - from,
{
    if from < to && is_blank(data[from]) {
        trim_start(data, from + 1, to)
    } else {
        from
    }
}

/// One past the last index in `from..to` that holds a byte with content, or
/// `from`.
pub open spec fn trim_end(data: Seq<u8>, from: int, to: int) -> int
    decreases to - from,
{
    if from < to && is_blank(data[to - 1]) {
        trim_end(data, from, to - 1)
    } else {
        to
    }
}

/// What is left of `from..to` once the blanks at both ends are taken off. A
/// stretch of blanks alone leaves the empty stretch at `to`.
pub open spec fn trimmed(data: Seq<u8>, from: int, to: int) -> Span {
    let start = trim_start(data, from, to);
    Span { start, end: trim_end(data, start, to) }
}

/// A stretch as text: the stretch itself where its bytes are valid UTF-8,
/// else a fault at the first byte that is not.
pub open spec fn as_text(data: Seq<u8>, span: Span) -> Result<Span, Fault> {
    if valid_utf8(span.of(data)) {
        Ok(span)
    } else {
        Err(Fault { code: ErrorCode::InvalidUtf8, at: span.start + valid_up_to(span.of(data)) })
    }
}

/// Reading a key, as bytes. The blanks before it are skipped; where that
/// leaves the reader at the start of a line, the indentation of that line is
/// recorded. The key runs up to the `=` on its line and is trimmed; the reader
/// is left behind the `=`. Where the line or the document ends first, the fault
/// is reported there.
pub open spec fn key_step_raw(data: Seq<u8>, c: Cursor) -> (Cursor, Result<Span, Fault>) {
    let skipped = skip_step(data, c);
    let entered = match skipped.state {
        IndentState::Start(n) => Cursor {
            state: IndentState::Middle,
            last_key_indent: n as int,
            ..skipped
        },
        _ => skipped,
    };
    let end = key_end(data, entered.index);
    if end < data.len() && data[end] == EQUALS {
        let key = trimmed(data, entered.index, end);
        (Cursor { index: end + 1, last_key_index: key.start, ..entered }, Ok(key))
    } else {
        (Cursor { index: end, ..entered }, Err(Fault { code: ErrorCode::ExpectedEq, at: end }))
    }
}

/// Reading a key, as text.
pub open spec fn key_step(data: Seq<u8>, c: Cursor) -> (Cursor, Result<Span, Fault>) {
    let (after, key) = key_step_raw(data, c);
    (
        after,
        match key {
            Ok(span) => as_text(data, span),
            Err(fault) => Err(fault),
        },
    )
}

/// Whether a line that the reader has reached ends the value of the key read
/// last: it does where it is indented no deeper than the key's line.
pub open spec fn ends_value(state: IndentState, key_indent: int) -> bool {
    match state {
        IndentState::Start(n) => n <= key_indent,
        IndentState::Middle => false,
        IndentState::Eof => true,
    }
}

/// The cursor after the value of the key read last. The value takes the rest
/// of the line, and every line after it up to the first one with content that
/// is indented no deeper than the key's line; the reader is left at the
/// content of that line, or at the end of the document.
pub open spec fn value_stop(data: Seq<u8>, c: Cursor) -> Cursor
    decreases data.len() - c.index,
{
    if 0 <= c.index < data.len() {
        let skipped = skip_step(data, c);
        if ends_value(skipped.state, c.last_key_indent) {
            skipped
        } else {
            proof {
                lemma_skip_blanks(data, c.index);
                lemma_line_end(data, skipped.index);
            }
            value_stop(
                data,
                Cursor {
                    index: line_end(data, skipped.index),
                    state: IndentState::Middle,
                    last_key_indent: c.last_key_indent,
                    last_key_index: c.last_key_index,
                },
            )
        }
    } else {
        c
    }
}

/// Reading a value, as bytes: what lies between the cursor and the place
/// where the value stops, trimmed.
pub open spec fn value_step_raw(data: Seq<u8>, c: Cursor) -> (Cursor, Span) {
    let after = value_stop(data, c);
    (after, trimmed(data, c.index, after.index))
}

/// Reading a value, as text.
pub open spec fn value_step(data: Seq<u8>, c: Cursor) -> (Cursor, Result<Span, Fault>) {
    let (after, value) = value_step_raw(data, c);
    (after, as_text(data, value))
}

/// Which of the two a reader is asked for next.
#[derive(Clone, Copy, Debug, PartialEq, Eq, Structural)]
pub enum ElemType {
    Key,
    Value,
}

/// Reading what is asked for next, as text.
pub open spec fn text_step(data: Seq<u8>, c: Cursor, next: ElemType) -> (
    Cursor,
    Result<Span, Fault>,
) {
    match next {
        ElemType::Key => key_step(data, c),
        ElemType::Value => value_step(data, c),
    }
}

/// The indentation from which on a line belongs to the body that follows the
/// key read last: one deeper than the line of that key. The document itself,
/// which is entered before any key was read, begins at indentation 0.
pub open spec fn body_indent(is_first: bool, last_key_indent: int) -> int {
    if is_first && last_key_indent == 0 {
        0
    } else {
        last_key_indent + 1
    }
}

/// Whether the content that the reader has reached belongs to a body whose
/// entries are indented by `indent` or more.
pub open spec fn belongs(state: IndentState, indent: int) -> bool {
    match state {
        IndentState::Start(n) => n >= indent,
        IndentState::Middle => true,
        IndentState::Eof => false,
    }
}

/// Looking for the next element of a sequence whose entries are indented by
/// `indent` or more. Entries with a key are not elements: they are read and
/// passed over, values included. The result says whether an element was
/// found; the reader is then left behind its `=`.
pub open spec fn element_step(data: Seq<u8>, c: Cursor, indent: int) -> (
    Cursor,
    Result<bool, Fault>,
)
    decreases data.len() - c.index,
{
    let skipped = skip_step(data, c);
    if !belongs(skipped.state, indent) {
        (skipped, Ok(false))
    } else {
        let (keyed, key) = key_step(data, skipped);
        match key {
            Err(fault) => (keyed, Err(fault)),
            Ok(span) => if span.is_empty() {
                (keyed, Ok(true))
            } else {
                let (valued, value) = value_step(data, keyed);
                match value {
                    Err(fault) => (valued, Err(fault)),
                    Ok(_) => {
                        proof {
                            lemma_advances(data, c);
                            lemma_advances(data, skipped);
                            lemma_advances(data, keyed);
                        }
                        element_step(data, valued, indent)
                    },
                }
            },
        }
    }
}

/// What going through a map yields whose entries are indented by `indent`
/// or more, where each key and each value is read as text: the keys and
/// values in the order of the document, or nothing where reading fails.
pub open spec fn map_entries(data: Seq<u8>, c: Cursor, indent: int) -> Option<
    Seq<(Seq<u8>, Seq<u8>)>,
>
    decreases data.len() - c.index,
{
    let skipped = skip_step(data, c);
    if !belongs(skipped.state, indent) {
        Some(Seq::empty())
    } else {
        let (keyed, key) = key_step(data, skipped);
        let (valued, value) = value_step(data, keyed);
        match (key, value) {
            (Ok(key), Ok(value)) => {
                proof {
                    lemma_advances(data, c);
                    lemma_advances(data, skipped);
                    lemma_advances(data, keyed);
                }
                match map_entries(data, valued, indent) {
                    Some(rest) => Some(seq![(key.of(data), value.of(data))] + rest),
                    None => None,
                }
            },
            _ => None,
        }
    }
}

/// No step moves the reader back or beyond the end of the document, and a
/// key that was read moves it on.
pub proof fn lemma_advances(data: Seq<u8>, c: Cursor)
    ensures
        skip_step(data, c).index >= c.index,
        key_step_raw(data, c).0.index >= c.index,
        key_step_raw(data, c).1 is Ok ==> c.index < key_step_raw(data, c).0.index <= data.len(),
        value_stop(data, c).index >= c.index,
        c.index <= data.len() ==> value_stop(data, c).index <= data.len(),
    decreases data.len() - c.index,
{
    lemma_scans_advance(data, c.index);
    lemma_scans_advance(data, skip_blanks(data, c.index));
    if 0 <= c.index < data.len() {
        let skipped = skip_step(data, c);
        if !ends_value(skipped.state, c.last_key_indent) {
            lemma_skip_blanks(data, c.index);
            lemma_line_end(data, skipped.index);
            lemma_advances(
                data,
                Cursor {
                    index: line_end(data, skipped.index),
                    state: IndentState::Middle,
                    last_key_indent: c.last_key_indent,
                    last_key_index: c.last_key_index,
                },
            );
        }
    }
}

proof fn lemma_scans_advance(data: Seq<u8>, from: int)
    ensures
        skip_blanks(data, from) >= from,
        key_end(data, from) >= from,
        from <= data.len() ==> skip_blanks(data, from) <= data.len(),
    decreases data.len() - from,
{
    if 0 <= from < data.len() {
        lemma_scans_advance(data, from + 1);
    }
}

/// Where blanks alone lie between `from` and `to`, and content or the end of
/// the document at `to`, skipping blanks from `from` leads to `to`.
pub proof fn lemma_skip_blanks_is(data: Seq<u8>, from: int, to: int)
    requires
        0 <= from <= to <= data.len(),
        forall|k: int| from <= k < to ==> is_blank(data[k]),
        to < data.len() ==> !is_blank(data[to]),
    ensures
        skip_blanks(data, from) == to,
    decreases to - from,
{
    if from < to {
        lemma_skip_blanks_is(data, from + 1, to);
    }
}

/// Where neither `=` nor a newline lies between `from` and `to`, and one of
/// them or the end of the document at `to`, the key that begins at `from`
/// ends at `to`.
pub proof fn lemma_key_end_is(data: Seq<u8>, from: int, to: int)
    requires
        0 <= from <= to <= data.len(),
        forall|k: int| from <= k < to ==> data[k] != EQUALS && data[k] != NEWLINE,
        to < data.len() ==> data[to] == EQUALS || data[to] == NEWLINE,
    ensures
        key_end(data, from) == to,
    decreases to - from,
{
    if from < to {
        lemma_key_end_is(data, from + 1, to);
    }
}

/// Where no newline lies between `from` and `to`, and one or the end of the
/// document at `to`, the line of `from` ends at `to`.
pub proof fn lemma_line_end_is(data: Seq<u8>, from: int, to: int)
    requires
        0 <= from <= to <= data.len(),
        forall|k: int| from <= k < to ==> data[k] != NEWLINE,
        to < data.len() ==> data[to] == NEWLINE,
    ensures
        line_end(data, from) == to,
    decreases to - from,
{
    if from < to {
        lemma_line_end_is(data, from + 1, to);
    }
}

/// A stretch with content at both ends, and blanks alone around it, is what
/// trimming leaves.
pub proof fn lemma_trimmed_is(data: Seq<u8>, from: int, to: int, start: int, end: int)
    requires
        0 <= from <= start <= end <= to <= data.len(),
        forall|k: int| from <= k < start ==> is_blank(data[k]),
        forall|k: int| end <= k < to ==> is_blank(data[k]),
        start < end ==> !is_blank(data[start]) && !is_blank(data[end - 1]),
        start == end ==> start == to,
    ensures
        trimmed(data, from, to) == (Span { start, end }),
{
    lemma_trim_start_is(data, from, to, start);
    lemma_trim_end_is(data, start, to, end);
}

proof fn lemma_trim_start_is(data: Seq<u8>, from: int, to: int, start: int)
    requires
        0 <= from <= start <= to <= data.len(),
        forall|k: int| from <= k < start ==> is_blank(data[k]),
        start < to ==> !is_blank(data[start]),
    ensures
        trim_start(data, from, to) == start,
    decreases start - from,
{
    if from < start {
        lemma_trim_start_is(data, from + 1, to, start);
    }
}

proof fn lemma_trim_end_is(data: Seq<u8>, from: int, to: int, end: int)
    requires
        0 <= from <= end <= to <= data.len(),
        forall|k: int| end <= k < to ==> is_blank(data[k]),
        from < end ==> !is_blank(data[end - 1]),
    ensures
        trim_end(data, from, to) == end,
    decreases to - end,
{
    if end < to {
        lemma_trim_end_is(data, from, to - 1, end);
    }
}

/// The byte at `index` is the first content of its line: spaces alone lie
/// between the start of the line and it.
pub open spec fn begins_content(data: Seq<u8>, index: int) -> bool {
    &&& 0 <= index < data.len()
    &&& !is_blank(data[index])
    &&& forall|k: int| line_start(data, index) <= k < index ==> data[k] == SPACE
}

/// The indentation of the content at `index`: its distance from the start of
/// its line.
pub open spec fn indent_of(data: Seq<u8>, index: int) -> int {
    index - line_start(data, index)
}

/// Skipping blanks keeps a cursor well formed. Where it leads over a newline
/// to content, or began at the start of a line, it reports the indentation of
/// that content; it reports the end of the document only there.
pub proof fn lemma_skip_step(data: Seq<u8>, c: Cursor)
    requires
        c.wf(data),
    ensures
        skip_step(data, c).wf(data),
        c.index <= skip_step(data, c).index,
        forall|k: int| c.index <= k < skip_step(data, c).index ==> is_blank(data[k]),
        skip_step(data, c).state is Eof <==> skip_step(data, c).index == data.len(),
        skip_step(data, c).state matches IndentState::Start(n) ==> begins_content(
            data,
            skip_step(data, c).index,
        ) && n == indent_of(data, skip_step(data, c).index),
        skip_step(data, c).state is Middle ==> c.state is Middle && line_start(
            data,
            skip_step(data, c).index,
        ) <= c.index,
{
    lemma_skip_blanks(data, c.index);
    let to = skip_blanks(data, c.index);
    lemma_line_start(data, to);
    lemma_line_start(data, c.index);
    let start = line_start(data, to);
    if to < data.len() {
        if start > c.index {
            assert forall|k: int| start <= k < to implies data[k] == SPACE by {
                assert(is_blank(data[k]));
            }
        } else if let IndentState::Start(n) = c.state {
            assert forall|k: int| c.index - n <= k < to implies data[k] != NEWLINE by {
                if k >= c.index {
                    assert(is_blank(data[k]));
                    if data[k] == NEWLINE {
                        lemma_line_start_after(data, k + 1, to);
                    }
                }
            }
            lemma_line_start_unique(data, to, c.index - n);
            assert forall|k: int| c.index - n <= k < to implies data[k] == SPACE by {
                if k >= c.index {
                    assert(is_blank(data[k]));
                }
            }
        }
    }
}

/// A line does not begin before a newline that lies before it.
pub proof fn lemma_line_start_after(data: Seq<u8>, behind: int, index: int)
    requires
        0 < behind <= index <= data.len(),
        data[behind - 1] == NEWLINE,
    ensures
        line_start(data, index) >= behind,
    decreases index - behind,
{
    if behind < index && data[index - 1] != NEWLINE {
        lemma_line_start_after(data, behind, index - 1);
    }
}

/// `skip_blanks` stops at the first byte with content, and passes blanks only.
pub proof fn lemma_skip_blanks(data: Seq<u8>, from: int)
    requires
        0 <= from <= data.len(),
    ensures
        from <= skip_blanks(data, from) <= data.len(),
        forall|k: int| from <= k < skip_blanks(data, from) ==> is_blank(data[k]),
        skip_blanks(data, from) < data.len() ==> !is_blank(data[skip_blanks(data, from)]),
    decreases data.len() - from,
{
    if from < data.len() && is_blank(data[from]) {
        lemma_skip_blanks(data, from + 1);
    }
}

/// `key_end` stops at the first `=` or newline.
pub proof fn lemma_key_end(data: Seq<u8>, from: int)
    requires
        0 <= from <= data.len(),
    ensures
        from <= key_end(data, from) <= data.len(),
        forall|k: int|
            from <= k < key_end(data, from) ==> data[k] != EQUALS && data[k] != NEWLINE,
        key_end(data, from) < data.len() ==> data[key_end(data, from)] == EQUALS
            || data[key_end(data, from)] == NEWLINE,
    decreases data.len() - from,
{
    if from < data.len() && data[from] != EQUALS && data[from] != NEWLINE {
        lemma_key_end(data, from + 1);
    }
}

/// `line_end` stops at the first newline.
pub proof fn lemma_line_end(data: Seq<u8>, from: int)
    requires
        0 <= from <= data.len(),
    ensures
        from <= line_end(data, from) <= data.len(),
        forall|k: int| from <= k < line_end(data, from) ==> data[k] != NEWLINE,
        line_end(data, from) < data.len() ==> data[line_end(data, from)] == NEWLINE,
    decreases data.len() - from,
{
    if from < data.len() && data[from] != NEWLINE {
        lemma_line_end(data, from + 1);
    }
}

/// Blanks before a stretch do not change what trimming leaves of it.
pub proof fn lemma_trimmed_after_blanks(data: Seq<u8>, from: int, first: int, to: int)
    requires
        0 <= from <= first <= to <= data.len(),
        forall|k: int| from <= k < first ==> is_blank(data[k]),
    ensures
        trimmed(data, from, to) == trimmed(data, first, to),
    decreases first - from,
{
    if from < first {
        lemma_trimmed_after_blanks(data, from + 1, first, to);
    }
}

/// Trimming a copy of a stretch leaves the copy of what trimming leaves of
/// the stretch.
pub proof fn lemma_trimmed_copy(data: Seq<u8>, from: int, to: int, copy: Seq<u8>)
    requires
        0 <= from <= to <= data.len(),
        copy == data.subrange(from, to),
    ensures
        trimmed(copy, 0, to - from).start == trimmed(data, from, to).start - from,
        trimmed(copy, 0, to - from).end == trimmed(data, from, to).end - from,
{
    lemma_trim_start_copy(data, from, from, to, copy);
    lemma_trim_start(data, from, to);
    let start = trim_start(data, from, to);
    lemma_trim_end_copy(data, from, start, to, copy);
}

proof fn lemma_trim_start_copy(data: Seq<u8>, base: int, from: int, to: int, copy: Seq<u8>)
    requires
        0 <= base <= from <= to <= data.len(),
        copy == data.subrange(base, to),
    ensures
        trim_start(copy, from - base, to - base) == trim_start(data, from, to) - base,
    decreases to - from,
{
    if from < to {
        assert(copy[from - base] == data[from]);
        if is_blank(data[from]) {
            lemma_trim_start_copy(data, base, from + 1, to, copy);
        }
    }
}

proof fn lemma_trim_end_copy(data: Seq<u8>, base: int, from: int, to: int, copy: Seq<u8>)
    requires
        0 <= base <= from <= to <= data.len(),
        copy.len() >= to - base,
        forall|k: int| base <= k < to ==> copy[k - base] == data[k],
    ensures
        trim_end(copy, from - base, to - base) == trim_end(data, from, to) - base,
    decreases to - from,
{
    if from < to {
        assert(copy[to - 1 - base] == data[to - 1]);
        if is_blank(data[to - 1]) {
            lemma_trim_end_copy(data, base, from, to - 1, copy);
        }
    }
}

/// What `trimmed` leaves begins and ends with content, and what it takes off
/// is blank.
pub proof fn lemma_trimmed(data: Seq<u8>, from: int, to: int)
    requires
        0 <= from <= to <= data.len(),
    ensures
        from <= trimmed(data, from, to).start <= trimmed(data, from, to).end <= to,
        forall|k: int| from <= k < trimmed(data, from, to).start ==> is_blank(data[k]),
        forall|k: int| trimmed(data, from, to).end <= k < to ==> is_blank(data[k]),
        !trimmed(data, from, to).is_empty() ==> !is_blank(data[trimmed(data, from, to).start])
            && !is_blank(data[trimmed(data, from, to).end - 1]),
        trimmed(data, from, to).is_empty() ==> trimmed(data, from, to).start == to,
{
    lemma_trim_start(data, from, to);
    lemma_trim_end(data, trim_start(data, from, to), to);
}

proof fn lemma_trim_start(data: Seq<u8>, from: int, to: int)
    requires
        0 <= from <= to <= data.len(),
    ensures
        from <= trim_start(data, from, to) <= to,
        forall|k: int| from <= k < trim_start(data, from, to) ==> is_blank(data[k]),
        trim_start(data, from, to) < to ==> !is_blank(data[trim_start(data, from, to)]),
    decreases to - from,
{
    if from < to && is_blank(data[from]) {
        lemma_trim_start(data, from + 1, to);
    }
}

proof fn lemma_trim_end(data: Seq<u8>, from: int, to: int)
    requires
        0 <= from <= to <= data.len(),
    ensures
        from <= trim_end(data, from, to) <= to,
        forall|k: int| trim_end(data, from, to) <= k < to ==> is_blank(data[k]),
        from < trim_end(data, from, to) ==> !is_blank(data[trim_end(data, from, to) - 1]),
    decreases to - from,
{
    if from < to && is_blank(data[to - 1]) {
        lemma_trim_end(data, from, to - 1);
    }
}

} // verus!
