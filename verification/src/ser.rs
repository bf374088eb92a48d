//! Encoding: the text of a document is written without indentation, with a
//! note of each line at which the nesting changes; the indentation is put in
//! when the document is complete.
use crate::grammar::{line_end, lemma_line_end, EQUALS, SPACE};
use crate::position::NEWLINE;
use crate::scalar::{
    all_digits, digits_value, false_text, is_digit, true_text, unsigned_value, MINUS, ZERO,
};
use vstd::prelude::*;
use vstd::string::StringSliceAdditionalSpecFns;

verus! {

/// The decimal digits of a number, without leading zeros.
pub open spec fn decimal(n: nat) -> Seq<u8>
    decreases n,
{
    if n < 10 {
        seq![(ZERO + n) as u8]
    } else {
        decimal(n / 10).push((ZERO + n % 10) as u8)
    }
}

/// The text of an integer: its decimal digits, behind `-` where it is
/// negative.
pub open spec fn integer_text(value: int) -> Seq<u8> {
    if value < 0 {
        seq![MINUS] + decimal((-value) as nat)
    } else {
        decimal(value as nat)
    }
}

/// Decimal digits stand for the number they were made of.
pub proof fn lemma_decimal(n: nat)
    ensures
        decimal(n).len() > 0,
        all_digits(decimal(n)),
        digits_value(decimal(n)) == n,
        unsigned_value(decimal(n)) == Some(n as int),
    decreases n,
{
    if n < 10 {
        let digits = decimal(n);
        assert(digits.drop_last() =~= Seq::<u8>::empty());
        assert(digits_value(digits.drop_last()) == 0);
    } else {
        lemma_decimal(n / 10);
        let digits = decimal(n);
        let shorter = decimal(n / 10);
        assert(digits.drop_last() =~= shorter);
        assert forall|i: int| 0 <= i < digits.len() implies is_digit(#[trigger] digits[i]) by {
            if i < shorter.len() {
                assert(digits[i] == shorter[i]);
            }
        }
    }
}

/// `n` spaces; none where `n` is not positive.
pub open spec fn spaces(n: int) -> Seq<u8> {
    Seq::new(
        if n > 0 {
            n as nat
        } else {
            0
        },
        |i: int| SPACE,
    )
}

/// The lines of `text` from the one that begins at `from`, each behind its
/// indentation. `line` is the number of that line, `next` the first note that
/// was not used yet, `indent` the nesting before the line. A note that names
/// the line changes the nesting from this line on; each level of nesting is
/// two spaces.
pub open spec fn indented_from(
    text: Seq<u8>,
    from: int,
    line: int,
    notes: Seq<(usize, i8)>,
    next: int,
    indent: int,
) -> Seq<u8>
    decreases text.len() - from,
{
    let changes = 0 <= next < notes.len() && notes[next].0 == line;
    let indent = if changes {
        indent + notes[next].1
    } else {
        indent
    };
    let next = if changes {
        next + 1
    } else {
        next
    };
    let end = line_end(text, from);
    let padded = spaces(2 * indent) + text.subrange(from, end);
    if from <= end < text.len() {
        padded.push(NEWLINE) + indented_from(text, end + 1, line + 1, notes, next, indent)
    } else {
        padded
    }
}

/// The document: every line of `text` behind its indentation.
pub open spec fn indented(text: Seq<u8>, notes: Seq<(usize, i8)>) -> Seq<u8> {
    indented_from(text, 0, 0, notes, 0, 0)
}

/// Writes a document piece by piece.
pub struct Serializer {
    output: Vec<u8>,
    indents: Vec<(usize, i8)>,
    line: usize,
}

impl Default for Serializer {
    fn default() -> (r: Self)
        ensures
            r.wf(),
            r.text() == Seq::<u8>::empty(),
            r.indents() == Seq::<(usize, i8)>::empty(),
            r.line() == 0,
    {
        Serializer { output: Vec::new(), indents: Vec::new(), line: 0 }
    }
}

impl Serializer {
    /// What was written so far, without indentation.
    pub closed spec fn text(&self) -> Seq<u8> {
        self.output@
    }

    /// The notes taken so far: a line, and by how much the nesting changes
    /// from that line on.
    pub closed spec fn indents(&self) -> Seq<(usize, i8)> {
        self.indents@
    }

    /// The number of entries and elements that were written.
    pub closed spec fn line(&self) -> int {
        self.line as int
    }

    /// No more lines were counted than bytes were written.
    pub closed spec fn wf(&self) -> bool {
        self.line <= self.output@.len()
    }

    /// This is `before` with `bytes` written behind its text, and nothing
    /// else changed.
    pub open spec fn wrote(self, before: Self, bytes: Seq<u8>) -> bool {
        &&& self.wf()
        &&& self.text() == before.text() + bytes
        &&& self.indents() == before.indents()
        &&& self.line() == before.line()
    }

    /// This is `before` with a note for the current line, and nothing else
    /// changed.
    pub open spec fn noted(self, before: Self, change: i8) -> bool {
        &&& self.wf()
        &&& self.text() == before.text()
        &&& self.indents() == before.indents().push((before.line() as usize, change))
        &&& self.line() == before.line()
    }

    fn write(&mut self, bytes: &[u8])
        requires
            old(self).wf(),
        ensures
            final(self).wrote(*old(self), bytes@),
    {
        let mut index: usize = 0;
        while index < bytes.len()
            invariant
                index <= bytes@.len(),
                self.output@ == old(self).output@ + bytes@.subrange(0, index as int),
                self.indents == old(self).indents,
                self.line == old(self).line,
                old(self).wf(),
            decreases bytes@.len() - index,
        {
            self.output.push(bytes[index]);
            index += 1;
            proof {
                assert(bytes@.subrange(0, index as int) =~= bytes@.subrange(0, index - 1).push(
                    bytes@[index - 1],
                ));
                assert(self.output@ =~= old(self).output@ + bytes@.subrange(0, index as int));
            }
        }
        proof {
            assert(bytes@.subrange(0, index as int) =~= bytes@);
        }
    }

    /// Writes `true` or `false`.
    pub fn serialize_bool(&mut self, v: bool)
        requires
            old(self).wf(),
        ensures
            final(self).wrote(
                *old(self),
                if v {
                    true_text()
                } else {
                    false_text()
                },
            ),
    {
        if v {
            let word: [u8; 4] = [0x74, 0x72, 0x75, 0x65];
            proof {
                assert(word@ =~= true_text());
            }
            self.write(word.as_slice());
        } else {
            let word: [u8; 5] = [0x66, 0x61, 0x6c, 0x73, 0x65];
            proof {
                assert(word@ =~= false_text());
            }
            self.write(word.as_slice());
        }
    }

    /// Writes a number in decimal digits.
    pub fn serialize_u64(&mut self, v: u64)
        requires
            old(self).wf(),
        ensures
            final(self).wrote(*old(self), decimal(v as nat)),
    {
        let mut digits: Vec<u8> = Vec::new();
        let mut rest = v;
        while rest >= 10
            invariant
                decimal(v as nat) == decimal(rest as nat) + digits@.reverse(),
            decreases rest,
        {
            let ghost before = digits@;
            digits.push(ZERO + (rest % 10) as u8);
            proof {
                assert(digits@.reverse() =~= seq![(ZERO + rest % 10) as u8] + before.reverse());
                assert(decimal(rest as nat) =~= decimal((rest / 10) as nat) + seq![
                    (ZERO + rest % 10) as u8,
                ]);
                assert(decimal((rest / 10) as nat) + digits@.reverse() =~= decimal(rest as nat)
                    + before.reverse());
            }
            rest = rest / 10;
        }
        digits.push(ZERO + rest as u8);
        proof {
            let before = digits@.drop_last();
            assert(digits@.reverse() =~= seq![(ZERO + rest) as u8] + before.reverse());
            assert(decimal(rest as nat) =~= seq![(ZERO + rest) as u8]);
            assert(decimal(v as nat) =~= digits@.reverse());
        }
        let mut index: usize = digits.len();
        while index > 0
            invariant
                index <= digits@.len(),
                self.output@ == old(self).output@ + digits@.reverse().subrange(
                    0,
                    digits@.len() - index,
                ),
                self.indents == old(self).indents,
                self.line == old(self).line,
                old(self).wf(),
            decreases index,
        {
            index -= 1;
            self.output.push(digits[index]);
            proof {
                let turned = digits@.reverse();
                let done = digits@.len() - index;
                assert(turned[done - 1] == digits@[index as int]);
                assert(turned.subrange(0, done) =~= turned.subrange(0, done - 1).push(
                    turned[done - 1],
                ));
                assert(self.output@ =~= old(self).output@ + turned.subrange(0, done));
            }
        }
        proof {
            assert(digits@.reverse().subrange(0, digits@.len() as int) =~= digits@.reverse());
        }
    }

    /// Writes a number in decimal digits, behind `-` where it is negative.
    pub fn serialize_i64(&mut self, v: i64)
        requires
            old(self).wf(),
        ensures
            final(self).wrote(*old(self), integer_text(v as int)),
    {
        if v < 0 {
            self.output.push(MINUS);
            let magnitude: u64 = (-(v + 1)) as u64 + 1;
            self.serialize_u64(magnitude);
            proof {
                assert(self.output@ =~= old(self).output@ + (seq![MINUS] + decimal((-v) as nat)));
            }
        } else {
            self.serialize_u64(v as u64);
        }
    }

    /// Writes text as it is.
    pub fn serialize_str(&mut self, v: &str)
        requires
            old(self).wf(),
        ensures
            final(self).wrote(*old(self), v.spec_bytes()),
    {
        self.write(v.as_bytes());
    }

    /// Begins a sequence: what follows is nested one level deeper.
    pub fn serialize_seq(&mut self)
        requires
            old(self).wf(),
        ensures
            final(self).noted(*old(self), 1i8),
    {
        self.indents.push((self.line, 1));
    }

    /// Begins an element of a sequence: a line that holds `=` alone, and what
    /// follows is nested one level deeper.
    pub fn begin_element(&mut self)
        requires
            old(self).wf(),
        ensures
            final(self).wf(),
            final(self).text() == old(self).text() + seq![EQUALS, NEWLINE],
            final(self).line() == old(self).line() + 1,
            final(self).indents() == old(self).indents().push((final(self).line() as usize, 1)),
    {
        self.output.push(EQUALS);
        self.output.push(NEWLINE);
        proof {
            vstd::std_specs::vec::axiom_spec_len(&self.output);
        }
        self.line += 1;
        self.indents.push((self.line, 1));
        proof {
            assert(self.output@ =~= old(self).output@ + seq![EQUALS, NEWLINE]);
        }
    }

    /// Ends an element of a sequence, or a sequence: what follows is nested
    /// one level less deep.
    pub fn end(&mut self)
        requires
            old(self).wf(),
        ensures
            final(self).noted(*old(self), -1i8),
    {
        self.indents.push((self.line, -1));
    }

    /// Parts the key of an entry from its value.
    pub fn begin_value(&mut self)
        requires
            old(self).wf(),
        ensures
            final(self).wrote(*old(self), seq![SPACE, EQUALS, SPACE]),
    {
        self.output.push(SPACE);
        self.output.push(EQUALS);
        self.output.push(SPACE);
        proof {
            assert(self.output@ =~= old(self).output@ + seq![SPACE, EQUALS, SPACE]);
        }
    }

    /// Ends an entry, and with it the line.
    pub fn end_entry(&mut self)
        requires
            old(self).wf(),
        ensures
            final(self).wf(),
            final(self).text() == old(self).text().push(NEWLINE),
            final(self).line() == old(self).line() + 1,
            final(self).indents() == old(self).indents(),
    {
        self.output.push(NEWLINE);
        proof {
            vstd::std_specs::vec::axiom_spec_len(&self.output);
        }
        self.line += 1;
    }

    /// The document: what was written, each line behind its indentation.
    pub fn finish(self) -> (r: Vec<u8>)
        ensures
            r@ == indented(self.text(), self.indents()),
    {
        let text = self.output;
        let notes = self.indents;
        let mut result: Vec<u8> = Vec::new();
        let mut indent: i128 = 0;
        let mut next: usize = 0;
        let mut line: usize = 0;
        let mut from: usize = 0;
        loop
            invariant_except_break
                from <= text@.len(),
                line <= from,
                next <= notes@.len(),
                -128 * next <= indent <= 128 * next,
                result@ + indented_from(
                    text@,
                    from as int,
                    line as int,
                    notes@,
                    next as int,
                    indent as int,
                ) == indented(text@, notes@),
            ensures
                result@ == indented(text@, notes@),
            decreases text@.len() - from,
        {
            let ghost rest = indented_from(
                text@,
                from as int,
                line as int,
                notes@,
                next as int,
                indent as int,
            );
            let ghost done = result@;
            if next < notes.len() && notes[next].0 == line {
                indent = indent + notes[next].1 as i128;
                next += 1;
            }
            let mut pad: i128 = 0;
            while pad < 2 * indent
                invariant
                    0 <= pad,
                    indent > 0 ==> pad <= 2 * indent,
                    indent <= 0 ==> pad == 0,
                    -128 * 0x1_0000_0000_0000_0000 <= indent <= 128 * 0x1_0000_0000_0000_0000,
                    result@ == done + spaces(pad as int),
                decreases 2 * indent - pad,
            {
                result.push(SPACE);
                pad += 1;
                proof {
                    assert(result@ =~= done + spaces(pad as int));
                }
            }
            proof {
                assert(result@ =~= done + spaces(2 * indent));
                lemma_line_end(text@, from as int);
            }
            let ghost padded = result@;
            let mut at: usize = from;
            while at < text.len() && text[at] != NEWLINE
                invariant
                    from <= at <= text@.len(),
                    line_end(text@, at as int) == line_end(text@, from as int),
                    result@ == padded + text@.subrange(from as int, at as int),
                decreases text@.len() - at,
            {
                result.push(text[at]);
                at += 1;
                proof {
                    assert(result@ =~= padded + text@.subrange(from as int, at as int));
                }
            }
            proof {
                assert(result@ =~= done + (spaces(2 * indent) + text@.subrange(
                    from as int,
                    at as int,
                )));
            }
            if at >= text.len() {
                break;
            }
            result.push(NEWLINE);
            proof {
                let tail = indented_from(
                    text@,
                    at + 1,
                    line + 1,
                    notes@,
                    next as int,
                    indent as int,
                );
                let head = spaces(2 * indent) + text@.subrange(from as int, at as int);
                assert(rest == head.push(NEWLINE) + tail);
                assert(result@ + tail =~= done + rest);
            }
            from = at + 1;
            line += 1;
        }
        result
    }
}

} // verus!
