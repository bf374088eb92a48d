use vstd::prelude::*;
use vstd::slice::slice_subrange;

verus! {

/// The byte that ends a line.
pub const NEWLINE: u8 = 0x0a;

/// A place in a document. Lines and columns are counted from 1; the value
/// with both fields 0 stands for "no place known yet".
#[derive(Clone, Copy, Debug, PartialEq, Eq, Structural)]
pub struct Position {
    pub line: usize,
    pub column: usize,
}

impl Default for Position {
    fn default() -> (r: Self)
        ensures
            r == Position::unset(),
    {
        Position { line: 0, column: 0 }
    }
}

impl Position {
    /// The value that stands for "no place known yet".
    pub open spec fn unset() -> Position {
        Position { line: 0, column: 0 }
    }

    /// Whether this is the unset value.
    #[must_use]
    pub fn is_default(&self) -> (r: bool)
        ensures
            r == (*self == Position::unset()),
    {
        self.line == 0 && self.column == 0
    }
}

/// How many times `byte` occurs in `s`.
pub open spec fn count_byte(s: Seq<u8>, byte: u8) -> nat
    decreases s.len(),
{
    if s.len() == 0 {
        0
    } else {
        count_byte(s.drop_last(), byte) + if s.last() == byte {
            1nat
        } else {
            0nat
        }
    }
}

/// The index at which the line that holds `index` begins: one past the last
/// newline before `index`, or 0 where there is none.
pub open spec fn line_start(data: Seq<u8>, index: int) -> int
    decreases index,
{
    if index <= 0 {
        0
    } else if data[index - 1] == NEWLINE {
        index
    } else {
        line_start(data, index - 1)
    }
}

/// The place of the byte at `index`: one more than the number of newlines
/// before it, and one more than its distance from the start of its line.
pub open spec fn position_at(data: Seq<u8>, index: int) -> Position {
    Position {
        line: (1 + count_byte(data.subrange(0, index), NEWLINE)) as usize,
        column: (1 + index - line_start(data, index)) as usize,
    }
}

/// `line_start` lies between 0 and `index`, directly after a newline unless it
/// is 0, and no newline lies between it and `index`.
pub proof fn lemma_line_start(data: Seq<u8>, index: int)
    requires
        0 <= index <= data.len(),
    ensures
        0 <= line_start(data, index) <= index,
        line_start(data, index) > 0 ==> data[line_start(data, index) - 1] == NEWLINE,
        forall|k: int| line_start(data, index) <= k < index ==> data[k] != NEWLINE,
    decreases index,
{
    if index > 0 && data[index - 1] != NEWLINE {
        lemma_line_start(data, index - 1);
    }
}

/// The start of a line is determined by where its last newline lies.
pub proof fn lemma_line_start_unique(data: Seq<u8>, index: int, start: int)
    requires
        0 <= start <= index <= data.len(),
        start > 0 ==> data[start - 1] == NEWLINE,
        forall|k: int| start <= k < index ==> data[k] != NEWLINE,
    ensures
        line_start(data, index) == start,
    decreases index,
{
    if index > start {
        lemma_line_start_unique(data, index - 1, start);
    }
}

/// A stretch without `byte` adds nothing to the count.
pub proof fn lemma_count_byte_absent(data: Seq<u8>, from: int, to: int, byte: u8)
    requires
        0 <= from <= to <= data.len(),
        forall|k: int| from <= k < to ==> data[k] != byte,
    ensures
        count_byte(data.subrange(0, to), byte) == count_byte(data.subrange(0, from), byte),
    decreases to - from,
{
    if from < to {
        lemma_count_byte_absent(data, from, to - 1, byte);
        assert(data.subrange(0, to).drop_last() =~= data.subrange(0, to - 1));
    }
}

/// The count never exceeds the length.
pub proof fn lemma_count_byte_bound(s: Seq<u8>, byte: u8)
    ensures
        count_byte(s, byte) <= s.len(),
    decreases s.len(),
{
    if s.len() > 0 {
        lemma_count_byte_bound(s.drop_last(), byte);
    }
}

/// Calls `memchr::memrchr`: the index of the last occurrence of `needle` in
/// `haystack`, or `None` where it does not occur.
#[verifier::external_body]
fn last_index_of(needle: u8, haystack: &[u8]) -> (r: Option<usize>)
    ensures
        match r {
            Some(i) => i < haystack@.len() && haystack@[i as int] == needle && forall|j: int|
                i < j < haystack@.len() ==> haystack@[j] != needle,
            None => forall|j: int| 0 <= j < haystack@.len() ==> haystack@[j] != needle,
        },
{
    memchr::memrchr(needle, haystack)
}

/// Calls `memchr::memchr_iter` and counts what it yields: the number of
/// occurrences of `needle` in `haystack`.
#[verifier::external_body]
fn occurrences_of(needle: u8, haystack: &[u8]) -> (r: usize)
    ensures
        r == count_byte(haystack@, needle),
{
    memchr::memchr_iter(needle, haystack).count()
}

/// The place reached from `from` by passing over `bytes`: a newline leads
/// to the first column of the next line, any other byte one column on.
pub open spec fn advanced(from: Position, bytes: Seq<u8>) -> Position
    decreases bytes.len(),
{
    if bytes.len() == 0 {
        from
    } else {
        let before = advanced(from, bytes.drop_last());
        if bytes.last() == NEWLINE {
            Position { line: (before.line + 1) as usize, column: 1 }
        } else {
            Position { line: before.line, column: (before.column + 1) as usize }
        }
    }
}

/// Counting lines and columns byte by byte gives the place that
/// `position_at` states.
pub proof fn lemma_advanced(data: Seq<u8>, from: int, to: int)
    requires
        0 <= from <= to <= data.len() < usize::MAX,
    ensures
        position_at(data, to) == advanced(position_at(data, from), data.subrange(from, to)),
    decreases to - from,
{
    if from < to {
        lemma_advanced(data, from, to - 1);
        assert(data.subrange(from, to).drop_last() =~= data.subrange(from, to - 1));
        assert(data.subrange(0, to).drop_last() =~= data.subrange(0, to - 1));
        lemma_count_byte_bound(data.subrange(0, to - 1), NEWLINE);
        lemma_line_start(data, to - 1);
    } else {
        assert(data.subrange(from, to) =~= Seq::<u8>::empty());
    }
}

/// Resolves a byte offset to a line and a column.
#[must_use]
pub fn position_of_index(data: &[u8], index: usize) -> (r: Position)
    requires
        index <= data@.len() < usize::MAX,
    ensures
        r == position_at(data@, index as int),
{
    let head = slice_subrange(data, 0, index);
    let start_of_line: usize = match last_index_of(NEWLINE, head) {
        Some(found) => found + 1,
        None => 0,
    };
    let lines_before = occurrences_of(NEWLINE, slice_subrange(data, 0, start_of_line));
    proof {
        assert forall|k: int| start_of_line <= k < index implies data@[k] != NEWLINE by {
            assert(head@[k] == data@[k]);
        }
        assert(start_of_line > 0 ==> head@[start_of_line - 1] == data@[start_of_line - 1]);
        lemma_line_start_unique(data@, index as int, start_of_line as int);
        lemma_count_byte_absent(data@, start_of_line as int, index as int, NEWLINE);
        lemma_count_byte_bound(data@.subrange(0, start_of_line as int), NEWLINE);
    }
    Position { line: 1 + lines_before, column: 1 + index - start_of_line }
}

/// The place reached from `start` by passing over `bytes`, where `start` is
/// the place of the byte at `at` in `data` and `bytes` are the bytes that
/// follow there.
pub(crate) fn advance(
    start: Position,
    bytes: &[u8],
    Ghost(data): Ghost<Seq<u8>>,
    Ghost(at): Ghost<int>,
) -> (r: Position)
    requires
        0 <= at,
        at + bytes@.len() <= data.len() < usize::MAX,
        start == position_at(data, at),
        bytes@ == data.subrange(at, at + bytes@.len()),
    ensures
        r == position_at(data, at + bytes@.len()),
{
    let mut place = start;
    let mut passed: usize = 0;
    while passed < bytes.len()
        invariant
            0 <= at,
            at + bytes@.len() <= data.len() < usize::MAX,
            bytes@ == data.subrange(at, at + bytes@.len()),
            passed <= bytes@.len(),
            place == position_at(data, at + passed),
        decreases bytes@.len() - passed,
    {
        proof {
            lemma_advanced(data, at + passed, at + passed + 1);
            lemma_advanced(data, at + passed, at + passed);
            let one = data.subrange(at + passed, at + passed + 1);
            assert(one.drop_last() =~= data.subrange(at + passed, at + passed));
            assert(one.last() == bytes@[passed as int]);
            lemma_count_byte_bound(data.subrange(0, at + passed), NEWLINE);
            lemma_line_start(data, at + passed);
        }
        if bytes[passed] == NEWLINE {
            place = Position { line: place.line + 1, column: 1 };
        } else {
            place = Position { line: place.line, column: place.column + 1 };
        }
        passed += 1;
    }
    place
}

} // verus!
