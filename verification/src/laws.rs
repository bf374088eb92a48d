//! What holds of the format and of the functions that read and write it.
use crate::de::scalar_step;
use crate::error::ErrorCode;
use crate::grammar::{
    begins_content, ends_value, indent_of, is_blank, key_step, key_step_raw, lemma_advances,
    lemma_key_end_is,
    lemma_line_end, lemma_line_end_is, lemma_line_start_after, lemma_skip_blanks,
    lemma_skip_blanks_is, lemma_skip_step, lemma_trimmed, lemma_trimmed_is, line_end, map_entries,
    skip_step, trimmed, value_step, value_step_raw, value_stop, Cursor, ElemType, Fault, Span,
    EQUALS, SPACE,
};
use crate::parser::IndentState;
use crate::position::{
    lemma_count_byte_absent, lemma_count_byte_bound, lemma_line_start, lemma_line_start_unique,
    line_start, position_at, Position, NEWLINE,
};
use crate::scalar::{false_text, integer_in, is_digit, true_text, FromText, MINUS};
use crate::ser::{decimal, indented, indented_from, integer_text, lemma_decimal, spaces};
use vstd::prelude::*;
use vstd::utf8::valid_utf8;

verus! {

/// A key as it is written: it has content at both ends, and holds neither
/// `=` nor a newline.
pub open spec fn is_key_text(key: Seq<u8>) -> bool {
    &&& key.len() > 0
    &&& !is_blank(key[0])
    &&& !is_blank(key.last())
    &&& forall|i: int| 0 <= i < key.len() ==> key[i] != EQUALS && key[i] != NEWLINE
}

/// A value as it is written on the line of its key: it has content at both
/// ends, unless it is empty, and holds no newline.
pub open spec fn is_line_text(value: Seq<u8>) -> bool {
    &&& value.len() > 0 ==> !is_blank(value[0]) && !is_blank(value.last())
    &&& forall|i: int| 0 <= i < value.len() ==> value[i] != NEWLINE
}

/// A document of one entry: `key = value`, and a newline where `newline`
/// says so.
pub open spec fn entry(key: Seq<u8>, value: Seq<u8>, newline: bool) -> Seq<u8> {
    key + seq![SPACE, EQUALS, SPACE] + value + if newline {
        seq![NEWLINE]
    } else {
        Seq::<u8>::empty()
    }
}

/// The cursor behind the `=` of a document of one entry.
pub open spec fn behind_key(key: Seq<u8>) -> Cursor {
    Cursor {
        index: key.len() as int + 2,
        state: IndentState::Middle,
        last_key_indent: 0,
        last_key_index: 0,
    }
}

/// Where the key of a document of one entry lies.
pub open spec fn key_span(key: Seq<u8>) -> Span {
    Span { start: 0, end: key.len() as int }
}

/// Where the value of a document of one entry lies.
pub open spec fn value_span(key: Seq<u8>, value: Seq<u8>) -> Span {
    Span { start: key.len() as int + 3, end: key.len() as int + 3 + value.len() as int }
}

/// Reading a document of one entry yields the key and the value as they were
/// written: the key lies at the start of the document, the value three bytes
/// behind the key, on the first line.
pub proof fn law_entry(key: Seq<u8>, value: Seq<u8>, newline: bool)
    requires
        is_key_text(key),
        is_line_text(value),
        value.len() > 0 || !newline,
        entry(key, value, newline).len() < usize::MAX,
    ensures
        key_step_raw(entry(key, value, newline), Cursor::initial()) == (
            behind_key(key),
            Ok::<Span, Fault>(key_span(key)),
        ),
        key_span(key).of(entry(key, value, newline)) == key,
        value_step_raw(entry(key, value, newline), behind_key(key)).1 == value_span(key, value),
        value_span(key, value).of(entry(key, value, newline)) == value,
        value_step_raw(entry(key, value, newline), behind_key(key)).0.index == entry(
            key,
            value,
            newline,
        ).len(),
        position_at(entry(key, value, newline), value_span(key, value).start) == (Position {
            line: 1,
            column: (key.len() + 4) as usize,
        }),
{
    let data = entry(key, value, newline);
    let kl = key.len() as int;
    let vl = value.len() as int;
    let begin = kl + 3;
    let end = kl + 3 + vl;
    assert(data.len() == end + if newline {
        1int
    } else {
        0int
    });
    assert forall|i: int| 0 <= i < kl implies data[i] == key[i] by {}
    assert(data[kl] == SPACE && data[kl + 1] == EQUALS && data[kl + 2] == SPACE);
    assert forall|i: int| begin <= i < end implies data[i] == value[i - begin] by {}
    assert(newline ==> data[end] == NEWLINE);
    // The key.
    lemma_skip_blanks_is(data, 0, 0);
    lemma_key_end_is(data, 0, kl + 1);
    lemma_trimmed_is(data, 0, kl + 1, 0, kl);
    assert(line_start(data, 0) == 0);
    assert((Span { start: 0, end: kl }).of(data) =~= key);
    // The value.
    let c1 = behind_key(key);
    if vl > 0 {
        lemma_skip_blanks_is(data, kl + 2, begin);
        lemma_line_start_unique(data, begin, 0);
        let skipped = skip_step(data, c1);
        assert(skipped.index == begin);
        assert(skipped.state == IndentState::Middle);
        lemma_line_end_is(data, begin, end);
        let c2 = Cursor {
            index: end,
            state: IndentState::Middle,
            last_key_indent: 0,
            last_key_index: 0,
        };
        assert(value_stop(data, c1) == value_stop(data, c2));
        if newline {
            lemma_skip_blanks_is(data, end, end + 1);
            assert(skip_step(data, c2).state == IndentState::Eof);
            assert(value_stop(data, c2) == skip_step(data, c2));
        } else {
            assert(value_stop(data, c2) == c2);
        }
    } else {
        lemma_skip_blanks_is(data, kl + 2, data.len() as int);
        assert(skip_step(data, c1).state == IndentState::Eof);
        assert(value_stop(data, c1) == skip_step(data, c1));
    }
    assert(value_stop(data, c1).index == data.len());
    lemma_trimmed_is(data, kl + 2, data.len() as int, begin, end);
    assert((Span { start: begin, end }).of(data) =~= value);
    // The place of the value.
    lemma_line_start_unique(data, begin, 0);
    lemma_count_byte_absent(data, 0, begin, NEWLINE);
    assert(data.subrange(0, 0) =~= Seq::<u8>::empty());
}

/// Reading the value of a document `key = text` as a value of a plain type
/// yields the value that the text stands for; where the text stands for none,
/// the error is reported on the first line, in the column where the text
/// begins, and not at the key.
pub proof fn law_scalar_field<T: FromText>(key: Seq<u8>, text: Seq<u8>, code: ErrorCode)
    requires
        is_key_text(key),
        is_line_text(text),
        valid_utf8(text),
        entry(key, text, false).len() < usize::MAX,
    ensures
        scalar_step::<T>(entry(key, text, false), behind_key(key), ElemType::Value, code)
            == match T::text_value(text) {
            Some(value) => Ok::<T, (ErrorCode, Position)>(value),
            None => Err((code, Position { line: 1, column: (key.len() + 4) as usize })),
        },
{
    law_entry(key, text, false);
}

/// A key has a value exactly where reading the value yields text that is
/// not empty: where content follows on the line of the key, or on a later
/// line that is indented deeper.
pub proof fn law_option_presence(data: Seq<u8>, c: Cursor)
    requires
        0 <= c.index <= data.len(),
    ensures
        ends_value(skip_step(data, c).state, c.last_key_indent) <==> value_step_raw(
            data,
            c,
        ).1.is_empty(),
{
    lemma_skip_blanks(data, c.index);
    let skipped = skip_step(data, c);
    if c.index < data.len() {
        if ends_value(skipped.state, c.last_key_indent) {
            assert(value_stop(data, c) == skipped);
            lemma_trimmed_is(data, c.index, skipped.index, skipped.index, skipped.index);
        } else {
            lemma_line_end(data, skipped.index);
            let next = Cursor {
                index: line_end(data, skipped.index),
                state: IndentState::Middle,
                last_key_indent: c.last_key_indent,
                last_key_index: c.last_key_index,
            };
            assert(value_stop(data, c) == value_stop(data, next));
            lemma_advances(data, next);
            let stop = value_stop(data, c).index;
            lemma_trimmed(data, c.index, stop);
            let span = trimmed(data, c.index, stop);
            if span.is_empty() {
                assert(is_blank(data[skipped.index]));
            }
        }
    } else {
        lemma_trimmed_is(data, c.index, c.index, c.index, c.index);
    }
}

/// A document of one entry on each line, each ended by a newline.
pub open spec fn document(entries: Seq<(Seq<u8>, Seq<u8>)>) -> Seq<u8>
    decreases entries.len(),
{
    if entries.len() == 0 {
        Seq::empty()
    } else {
        entry(entries[0].0, entries[0].1, true) + document(entries.drop_first())
    }
}

/// An entry as it is written on one line: a key, and a value that is not
/// empty, both valid UTF-8.
pub open spec fn is_entry(entry: (Seq<u8>, Seq<u8>)) -> bool {
    &&& is_key_text(entry.0)
    &&& is_line_text(entry.1)
    &&& entry.1.len() > 0
    &&& valid_utf8(entry.0)
    &&& valid_utf8(entry.1)
}

/// Text that was written without a note of nesting is left as it is when the
/// indentation is put in.
pub proof fn law_indented_without_notes(text: Seq<u8>)
    ensures
        indented(text, Seq::empty()) == text,
{
    lemma_indented_without_notes(text, 0, 0);
    assert(text.subrange(0, text.len() as int) =~= text);
}

proof fn lemma_indented_without_notes(text: Seq<u8>, from: int, line: int)
    requires
        0 <= from <= text.len(),
    ensures
        indented_from(text, from, line, Seq::empty(), 0, 0) == text.subrange(
            from,
            text.len() as int,
        ),
    decreases text.len() - from,
{
    lemma_line_end(text, from);
    let end = line_end(text, from);
    assert(spaces(0) =~= Seq::<u8>::empty());
    if end < text.len() {
        lemma_indented_without_notes(text, end + 1, line + 1);
        assert(text.subrange(from, end).push(NEWLINE) + text.subrange(end + 1, text.len() as int)
            =~= text.subrange(from, text.len() as int));
        assert(spaces(0) + text.subrange(from, end) =~= text.subrange(from, end));
    } else {
        assert(spaces(0) + text.subrange(from, end) =~= text.subrange(from, text.len() as int));
    }
}

/// What was written entry by entry is read back entry by entry: a document
/// of entries, each on its line, yields its keys and values in their order,
/// also after the indentation was put in.
pub proof fn law_document_round_trip(entries: Seq<(Seq<u8>, Seq<u8>)>)
    requires
        forall|i: int| 0 <= i < entries.len() ==> is_entry(#[trigger] entries[i]),
        document(entries).len() < usize::MAX,
    ensures
        map_entries(document(entries), Cursor::initial(), 0) == Some(entries),
        map_entries(indented(document(entries), Seq::empty()), Cursor::initial(), 0) == Some(
            entries,
        ),
{
    law_indented_without_notes(document(entries));
    assert(Seq::<u8>::empty() + document(entries) =~= document(entries));
    lemma_document_round_trip(Seq::empty(), entries, Cursor::initial());
}

/// The line that begins at `at` holds the entry `key = value`, and what
/// follows it is the end of the document or a line that begins with content.
pub open spec fn holds_entry(data: Seq<u8>, at: int, key: Seq<u8>, value: Seq<u8>) -> bool {
    let begin = at + key.len() + 3;
    let end = begin + value.len();
    &&& 0 <= at
    &&& end < data.len() < usize::MAX
    &&& at > 0 ==> data[at - 1] == NEWLINE
    &&& data.subrange(at, at + key.len()) == key
    &&& data[at + key.len()] == SPACE
    &&& data[at + key.len() + 1] == EQUALS
    &&& data[at + key.len() + 2] == SPACE
    &&& data.subrange(begin, end) == value
    &&& data[end] == NEWLINE
    &&& end + 1 < data.len() ==> !is_blank(data[end + 1])
}

/// The cursor behind the `=` of the entry on the line that begins at `at`.
pub open spec fn behind_key_at(at: int, key: Seq<u8>) -> Cursor {
    Cursor {
        index: at + key.len() + 2,
        state: IndentState::Middle,
        last_key_indent: 0,
        last_key_index: at,
    }
}

/// The cursor behind the entry on the line that begins at `at`.
pub open spec fn behind_entry_at(data: Seq<u8>, at: int, key: Seq<u8>, value: Seq<u8>) -> Cursor {
    let next = at + key.len() + value.len() + 4;
    Cursor {
        index: next,
        state: if next < data.len() {
            IndentState::Start(0)
        } else {
            IndentState::Eof
        },
        last_key_indent: 0,
        last_key_index: at,
    }
}

proof fn lemma_key_at(data: Seq<u8>, at: int, key: Seq<u8>, value: Seq<u8>, c: Cursor)
    requires
        holds_entry(data, at, key, value),
        is_entry((key, value)),
        c.index == at,
        c.state == IndentState::Start(0),
    ensures
        skip_step(data, c) == c,
        key_step(data, c) == (
            behind_key_at(at, key),
            Ok::<Span, Fault>(Span { start: at, end: at + key.len() }),
        ),
        (Span { start: at, end: at + key.len() }).of(data) == key,
{
    let kl = key.len() as int;
    assert forall|i: int| 0 <= i < kl implies data[at + i] == key[i] by {
        assert(data.subrange(at, at + kl)[i] == key[i]);
    }
    assert(data[at] == key[0]);
    assert(data[at + kl - 1] == key[kl - 1]);
    lemma_skip_blanks_is(data, at, at);
    lemma_line_start_unique(data, at, at);
    assert forall|k: int| at <= k < at + kl + 1 implies data[k] != EQUALS && data[k]
        != NEWLINE by {
        if k < at + kl {
            assert(data[k] == key[k - at]);
        }
    }
    lemma_key_end_is(data, at, at + kl + 1);
    lemma_trimmed_is(data, at, at + kl + 1, at, at + kl);
}

proof fn lemma_value_at(data: Seq<u8>, at: int, key: Seq<u8>, value: Seq<u8>)
    requires
        holds_entry(data, at, key, value),
        is_entry((key, value)),
    ensures
        value_step(data, behind_key_at(at, key)) == (
            behind_entry_at(data, at, key, value),
            Ok::<Span, Fault>(
                Span { start: at + key.len() + 3, end: at + key.len() + 3 + value.len() },
            ),
        ),
        (Span { start: at + key.len() + 3, end: at + key.len() + 3 + value.len() }).of(data)
            == value,
{
    let kl = key.len() as int;
    let vl = value.len() as int;
    let begin = at + kl + 3;
    let end = begin + vl;
    let keyed = behind_key_at(at, key);
    assert forall|i: int| 0 <= i < kl implies data[at + i] == key[i] by {
        assert(data.subrange(at, at + kl)[i] == key[i]);
    }
    assert forall|i: int| 0 <= i < vl implies data[begin + i] == value[i] by {
        assert(data.subrange(begin, end)[i] == value[i]);
    }
    assert(data[begin] == value[0]);
    assert(data[end - 1] == value[vl - 1]);
    lemma_skip_blanks_is(data, at + kl + 2, begin);
    assert forall|k: int| at <= k < begin implies data[k] != NEWLINE by {
        if k < at + kl {
            assert(data[k] == key[k - at]);
        }
    }
    lemma_line_start_unique(data, begin, at);
    let reached = skip_step(data, keyed);
    assert(reached.index == begin);
    assert(reached.state == IndentState::Middle);
    assert forall|k: int| begin <= k < end implies data[k] != NEWLINE by {
        assert(data[k] == value[k - begin]);
    }
    lemma_line_end_is(data, begin, end);
    let at_end = Cursor {
        index: end,
        state: IndentState::Middle,
        last_key_indent: 0,
        last_key_index: at,
    };
    assert(value_stop(data, keyed) == value_stop(data, at_end));
    lemma_skip_blanks_is(data, end, end + 1);
    lemma_line_start_unique(data, end + 1, end + 1);
    let valued = skip_step(data, at_end);
    assert(valued == behind_entry_at(data, at, key, value));
    assert(value_stop(data, at_end) == valued);
    lemma_trimmed_is(data, at + kl + 2, end + 1, begin, end);
}

proof fn lemma_document_layout(head: Seq<u8>, entries: Seq<(Seq<u8>, Seq<u8>)>)
    requires
        entries.len() > 0,
        forall|i: int| 0 <= i < entries.len() ==> is_entry(#[trigger] entries[i]),
        head.len() > 0 ==> head.last() == NEWLINE,
        (head + document(entries)).len() < usize::MAX,
    ensures
        holds_entry(head + document(entries), head.len() as int, entries[0].0, entries[0].1),
        head + document(entries) == (head + entry(entries[0].0, entries[0].1, true)) + document(
            entries.drop_first(),
        ),
        (head + entry(entries[0].0, entries[0].1, true)).last() == NEWLINE,
{
    let data = head + document(entries);
    let at = head.len() as int;
    let key = entries[0].0;
    let value = entries[0].1;
    let rest = entries.drop_first();
    let tail = document(rest);
    let line = entry(key, value, true);
    let kl = key.len() as int;
    let vl = value.len() as int;
    assert(is_entry(entries[0]));
    assert(data =~= (head + line) + tail);
    assert(line.len() == kl + vl + 4);
    assert(data.subrange(at, at + kl) =~= key);
    assert(data.subrange(at + kl + 3, at + kl + 3 + vl) =~= value);
    assert(data[at + kl] == line[kl]);
    assert(data[at + kl + 1] == line[kl + 1]);
    assert(data[at + kl + 2] == line[kl + 2]);
    assert(data[at + kl + 3 + vl] == line[kl + 3 + vl]);
    if at > 0 {
        assert(data[at - 1] == head[at - 1]);
    }
    if rest.len() > 0 {
        assert(is_entry(rest[0]));
        assert(rest[0] == entries[1]);
        assert(tail[0] == rest[0].0[0]);
        assert(data[at + kl + vl + 4] == tail[0]);
    } else {
        assert(tail.len() == 0);
    }
}

proof fn lemma_document_round_trip(head: Seq<u8>, entries: Seq<(Seq<u8>, Seq<u8>)>, c: Cursor)
    requires
        forall|i: int| 0 <= i < entries.len() ==> is_entry(#[trigger] entries[i]),
        c.index == head.len(),
        entries.len() > 0 ==> c.state == IndentState::Start(0),
        head.len() > 0 ==> head.last() == NEWLINE,
        (head + document(entries)).len() < usize::MAX,
    ensures
        map_entries(head + document(entries), c, 0) == Some(entries),
    decreases entries.len(),
{
    let data = head + document(entries);
    let at = head.len() as int;
    if entries.len() == 0 {
        assert(data =~= head);
        lemma_skip_blanks_is(data, at, at);
        assert(skip_step(data, c).state == IndentState::Eof);
        assert(entries =~= Seq::empty());
    } else {
        let key = entries[0].0;
        let value = entries[0].1;
        let rest = entries.drop_first();
        assert(is_entry(entries[0]));
        assert forall|i: int| 0 <= i < rest.len() implies is_entry(#[trigger] rest[i]) by {
            assert(rest[i] == entries[i + 1]);
        }
        lemma_document_layout(head, entries);
        lemma_key_at(data, at, key, value, c);
        lemma_value_at(data, at, key, value);
        let valued = behind_entry_at(data, at, key, value);
        let line = entry(key, value, true);
        assert((head + line).len() == valued.index);
        if rest.len() > 0 {
            assert(is_entry(rest[0]));
            assert(document(rest).len() > 0);
        } else {
            assert(document(rest).len() == 0);
        }
        lemma_document_round_trip(head + line, rest, valued);
        assert(map_entries(data, valued, 0) == Some(rest));
        assert(seq![(key, value)] + rest =~= entries);
    }
}

/// The value of a key takes every line that is indented deeper than the
/// line of the key, and ends before the first that is not: reading it leaves
/// the reader at the end of the document, or at the content of a line that is
/// indented no deeper than the key's; and every line with content that the
/// value has passed is indented deeper.
pub proof fn law_value_extent(data: Seq<u8>, c: Cursor)
    requires
        c.wf(data),
        c.state is Middle,
    ensures
        c.index <= value_stop(data, c).index <= data.len(),
        value_stop(data, c).index < data.len() ==> begins_content(
            data,
            value_stop(data, c).index,
        ) && indent_of(data, value_stop(data, c).index) <= c.last_key_indent,
        forall|k: int|
            c.index <= k < value_stop(data, c).index && begins_content(data, k) && line_start(
                data,
                k,
            ) > c.index ==> indent_of(data, k) > c.last_key_indent,
    decreases data.len() - c.index,
{
    if c.index < data.len() {
        lemma_skip_step(data, c);
        let skipped = skip_step(data, c);
        if !ends_value(skipped.state, c.last_key_indent) {
            let to = skipped.index;
            lemma_skip_blanks(data, c.index);
            lemma_line_end(data, to);
            let next = line_end(data, to);
            assert(!is_blank(data[to]));
            assert(next > to);
            let onward = Cursor {
                index: next,
                state: IndentState::Middle,
                last_key_indent: c.last_key_indent,
                last_key_index: c.last_key_index,
            };
            assert(value_stop(data, c) == value_stop(data, onward));
            law_value_extent(data, onward);
            let stop = value_stop(data, c).index;
            assert forall|k: int|
                c.index <= k < stop && begins_content(data, k) && line_start(data, k)
                    > c.index implies indent_of(data, k) > c.last_key_indent by {
                if k == to {
                } else if k < next {
                    assert(to < k);
                    lemma_line_start(data, k);
                    lemma_line_start(data, to);
                    if line_start(data, k) > to {
                        assert(data[line_start(data, k) - 1] == NEWLINE);
                    }
                    assert(line_start(data, k) <= to);
                    assert(data[to] == SPACE);
                } else if k > next {
                    lemma_line_start_after(data, next + 1, k);
                }
            }
        }
    }
}

/// Every byte of a document has a place, and no place is the unset position:
/// an error that was reported at a place is never taken for one without.
pub proof fn law_place_is_set(data: Seq<u8>, index: int)
    requires
        0 <= index <= data.len() < usize::MAX,
    ensures
        position_at(data, index).line >= 1,
        position_at(data, index).column >= 1,
        position_at(data, index) != Position::unset(),
{
    lemma_count_byte_bound(data.subrange(0, index), NEWLINE);
    lemma_line_start(data, index);
}

/// The text that is written for an integer stands for that integer.
pub proof fn law_integer_round_trip(value: int, min: int, max: int)
    requires
        min <= 0 <= max,
        min <= value <= max,
    ensures
        integer_in(integer_text(value), min, max) == Some(value),
{
    if value < 0 {
        let digits = decimal((-value) as nat);
        lemma_decimal((-value) as nat);
        let text = integer_text(value);
        assert(text.skip(1) =~= digits);
        assert(text[0] == MINUS);
    } else {
        lemma_decimal(value as nat);
        let text = integer_text(value);
        assert(is_digit(text[0]));
    }
}

/// The text that is written for a boolean stands for that boolean.
pub proof fn law_bool_round_trip(value: bool)
    ensures
        bool::text_value(
            if value {
                true_text()
            } else {
                false_text()
            },
        ) == Some(value),
{
    assert(true_text().len() != false_text().len());
}

} // verus!
