//! The source text, and where its lines lie.

use crate::ast::lexer::{
    byte_offset, lemma_byte_offset_monotone, lemma_byte_offset_step, utf8_width,
};
use vstd::prelude::*;
use vstd::string::*;

verus! {

/// How many of the leading characters of `s` lie wholly within its first
/// `offset` bytes. For an offset at which a character begins, this is the
/// index of that character.
pub open spec fn chars_within(s: Seq<char>, offset: int) -> int
    decreases s.len(),
{
    if s.len() > 0 && byte_offset(s, s.len() as int) > offset {
        chars_within(s.drop_last(), offset)
    } else {
        s.len() as int
    }
}

/// The number of line breaks in `s`.
pub open spec fn newline_count(s: Seq<char>) -> nat
    decreases s.len(),
{
    if s.len() == 0 {
        0
    } else {
        newline_count(s.drop_last()) + if s.last() == '\n' {
            1nat
        } else {
            0nat
        }
    }
}

/// The index of the character that stands `lines` line breaks after
/// character `from`; the length of `s` where it has fewer.
pub open spec fn skip_lines(s: Seq<char>, from: int, lines: nat) -> int
    decreases s.len() - from,
{
    if lines == 0 || from >= s.len() || from < 0 {
        from
    } else if s[from] == '\n' {
        skip_lines(s, from + 1, (lines - 1) as nat)
    } else {
        skip_lines(s, from + 1, lines)
    }
}

/// The index of the first line break at or after character `from`; the
/// length of `s` where none follows.
pub open spec fn line_end(s: Seq<char>, from: int) -> int
    decreases s.len() - from,
{
    if 0 <= from < s.len() && s[from] != '\n' {
        line_end(s, from + 1)
    } else {
        from
    }
}

/// The index, from zero, of the line that holds the byte at `position`:
/// the number of line breaks that end at or before it.
pub open spec fn line_index_of(s: Seq<char>, position: int) -> nat {
    newline_count(s.take(chars_within(s, position)))
}

/// The index of the character with which line `index` begins.
pub open spec fn line_start_char(s: Seq<char>, index: nat) -> int {
    skip_lines(s, 0, index)
}

/// The byte offset at which line `index` begins.
pub open spec fn line_start_of(s: Seq<char>, index: nat) -> nat {
    byte_offset(s, line_start_char(s, index))
}

/// Line `index` without its line break; empty beyond the last line.
pub open spec fn line_text(s: Seq<char>, index: nat) -> Seq<char> {
    s.subrange(line_start_char(s, index), line_end(s, line_start_char(s, index)))
}

/// `chars_within` is the one index whose character begins at or before
/// the offset while the next begins after it.
pub proof fn lemma_chars_within(s: Seq<char>, offset: int, i: int)
    requires
        0 <= i <= s.len(),
        byte_offset(s, i) <= offset,
        i == s.len() || byte_offset(s, i + 1) > offset,
    ensures
        chars_within(s, offset) == i,
    decreases s.len(),
{
    if s.len() > 0 && byte_offset(s, s.len() as int) > offset {
        if i == s.len() {
            assert(false);
        }
        let shorter = s.drop_last();
        assert(shorter.take(i) =~= s.take(i));
        if i < shorter.len() {
            assert(shorter.take(i + 1) =~= s.take(i + 1));
        }
        lemma_chars_within(shorter, offset, i);
    } else if i < s.len() {
        lemma_byte_offset_monotone(s, i + 1, s.len() as int);
    }
}

/// The characters that lie within the first `offset` bytes take no more
/// than `offset` bytes.
pub proof fn lemma_chars_within_fits(s: Seq<char>, offset: int)
    requires
        0 <= offset,
    ensures
        0 <= chars_within(s, offset) <= s.len(),
        byte_offset(s, chars_within(s, offset)) <= offset,
    decreases s.len(),
{
    if s.len() > 0 && byte_offset(s, s.len() as int) > offset {
        let shorter = s.drop_last();
        lemma_chars_within_fits(shorter, offset);
        assert(shorter.take(chars_within(shorter, offset)) =~= s.take(
            chars_within(shorter, offset),
        ));
    } else if s.len() == 0 {
        assert(s.take(0) =~= s);
    }
}

/// A line break more among the first characters is one more line break.
pub proof fn lemma_newline_count_step(s: Seq<char>, i: int)
    requires
        0 <= i < s.len(),
    ensures
        newline_count(s.take(i + 1)) == newline_count(s.take(i)) + if s[i] == '\n' {
            1nat
        } else {
            0nat
        },
{
    assert(s.take(i + 1).drop_last() =~= s.take(i));
}

/// Skipping no more line breaks than lie between `from` and `to` ends
/// at or before `to`.
pub proof fn lemma_skip_lines_within(s: Seq<char>, from: int, to: int, lines: nat)
    requires
        0 <= from <= to <= s.len(),
        lines <= newline_count(s.take(to)) - newline_count(s.take(from)),
    ensures
        from <= skip_lines(s, from, lines) <= to,
    decreases to - from,
{
    if lines == 0 {
    } else if from == to {
    } else {
        lemma_newline_count_step(s, from);
        if s[from] == '\n' {
            lemma_skip_lines_within(s, from + 1, to, (lines - 1) as nat);
        } else {
            lemma_skip_lines_within(s, from + 1, to, lines);
        }
    }
}

/// A position lies at or behind the start of its line.
pub proof fn lemma_line_starts_before(s: Seq<char>, position: int)
    requires
        0 <= position,
    ensures
        line_start_of(s, line_index_of(s, position)) <= position,
{
    let within = chars_within(s, position);
    lemma_chars_within_fits(s, position);
    assert(s.take(0) =~= Seq::<char>::empty());
    lemma_skip_lines_within(s, 0, within, line_index_of(s, position));
    lemma_byte_offset_monotone(s, line_start_char(s, line_index_of(s, position)), within);
}

/// A source text and the lookups that diagnostics need: which line holds a
/// byte, where a line begins, and what it says.
pub struct SourceText {
    text: String,
}

impl View for SourceText {
    type V = Seq<char>;

    closed spec fn view(&self) -> Seq<char> {
        self.text@
    }
}

impl SourceText {
    /// Wraps the text of a source.
    pub fn new(text: String) -> (source: Self)
        ensures
            source@ == text@,
    {
        Self { text }
    }

    /// The index of the line that holds the byte at `position`.
    pub fn line_index(&self, position: usize) -> (index: usize)
        ensures
            index == line_index_of(self@, position as int),
    {
        let text = self.text.as_str();
        let ghost s = text@;
        let n = text.unicode_len();
        let mut i: usize = 0;
        let mut offset: usize = 0;
        let mut lines: usize = 0;
        proof {
            assert(s.take(0) =~= Seq::<char>::empty());
        }
        while i < n
            invariant
                s == text@,
                n == s.len(),
                i <= n,
                offset == byte_offset(s, i as int),
                offset <= position,
                lines == newline_count(s.take(i as int)),
                lines <= i,
            ensures
                i <= n,
                byte_offset(s, i as int) <= position,
                i == n || byte_offset(s, i as int + 1) > position,
                lines == newline_count(s.take(i as int)),
            decreases n - i,
        {
            let c = text.get_char(i);
            let width = utf8_width(c);
            proof {
                lemma_byte_offset_step(s, i as int);
                assert(s.take(i as int + 1).drop_last() =~= s.take(i as int));
            }
            if width > position - offset {
                break ;
            }
            offset += width;
            if c == '\n' {
                lines += 1;
            }
            i += 1;
        }
        proof {
            lemma_chars_within(s, position as int, i as int);
        }
        lines
    }

    /// The index of the character with which line `index` begins, and the
    /// byte offset of that character.
    fn locate_line(&self, index: usize) -> (place: (usize, usize))
        ensures
            place.0 == line_start_char(self@, index as nat),
            place.1 == line_start_of(self@, index as nat),
            place.0 <= self@.len(),
    {
        let text = self.text.as_str();
        let ghost s = text@;
        let n = text.unicode_len();
        let bytes = text.as_bytes();
        let byte_length = bytes.len();
        let mut i: usize = 0;
        let mut offset: usize = 0;
        let mut remaining: usize = index;
        proof {
            assert(s.take(0) =~= Seq::<char>::empty());
            assert(s.take(s.len() as int) =~= s);
        }
        while i < n && remaining > 0
            invariant
                s == text@,
                n == s.len(),
                i <= n,
                byte_offset(s, n as int) <= usize::MAX,
                offset == byte_offset(s, i as int),
                skip_lines(s, i as int, remaining as nat) == skip_lines(s, 0, index as nat),
            decreases n - i,
        {
            let c = text.get_char(i);
            let width = utf8_width(c);
            proof {
                lemma_byte_offset_step(s, i as int);
                lemma_byte_offset_monotone(s, i as int + 1, n as int);
            }
            if c == '\n' {
                remaining -= 1;
            }
            offset += width;
            i += 1;
        }
        (i, offset)
    }

    /// Line `index` without its line break; empty beyond the last line.
    pub fn get_line(&self, index: usize) -> (line: &str)
        ensures
            line@ == line_text(self@, index as nat),
    {
        let text = self.text.as_str();
        let ghost s = text@;
        let n = text.unicode_len();
        let (start, _) = self.locate_line(index);
        let mut end: usize = start;
        while end < n && text.get_char(end) != '\n'
            invariant
                s == text@,
                n == s.len(),
                start <= end <= n,
                line_end(s, end as int) == line_end(s, start as int),
            decreases n - end,
        {
            end += 1;
        }
        text.substring_char(start, end)
    }

    /// The byte offset at which line `index` begins.
    pub fn line_start(&self, index: usize) -> (offset: usize)
        ensures
            offset == line_start_of(self@, index as nat),
    {
        self.locate_line(index).1
    }
}

} // verus!
