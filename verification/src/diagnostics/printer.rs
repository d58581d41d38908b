//! Diagnostics as blocks of text: the source around the span, an underline
//! and the message.

use crate::ast::lexer::{byte_offset, lemma_byte_offset_step, utf8_width};
use crate::ast::printer::{foreground_code, reset_code, reset_color};
use crate::diagnostics::{Diagnostic, DiagnosticView};
use crate::text::{
    chars_within, lemma_chars_within, lemma_line_starts_before, line_index_of, line_start_of,
    line_text, SourceText,
};
use vstd::prelude::*;
use vstd::string::*;

verus! {

/// How many characters of the line are shown on either side of the span.
pub const PREFIX_LENGTH: usize = 8;

/// `n` spaces.
pub open spec fn spaces(n: nat) -> Seq<char> {
    Seq::new(n, |i: int| ' ')
}

/// `n` carets.
pub open spec fn carets(n: nat) -> Seq<char> {
    Seq::new(n, |i: int| '^')
}

/// The byte column of a span: how far behind the start of its line it begins.
pub open spec fn column_of(source: Seq<char>, diagnostic: DiagnosticView) -> int {
    diagnostic.span.start - line_start_of(
        source,
        line_index_of(source, diagnostic.span.start as int),
    )
}

/// The three parts of `line` that a block shows: up to eight characters
/// before the span, the characters of the span that lie on the line, and up
/// to eight characters after it. The span begins at byte `column` of the line.
pub open spec fn text_spans(line: Seq<char>, column: int, diagnostic: DiagnosticView) -> (
    Seq<char>,
    Seq<char>,
    Seq<char>,
) {
    let length = diagnostic.span.end - diagnostic.span.start;
    let from = chars_within(line, column);
    let to = chars_within(line, column + length);
    let prefix_start = if from > PREFIX_LENGTH {
        from - PREFIX_LENGTH
    } else {
        0
    };
    let suffix_end = if to + PREFIX_LENGTH < line.len() {
        to + PREFIX_LENGTH
    } else {
        line.len() as int
    };
    (line.subrange(prefix_start, from), line.subrange(from, to), line.subrange(to, suffix_end))
}

/// The underline: a caret for each byte of the span, `indent` places in.
pub open spec fn arrow_pointers(diagnostic: DiagnosticView, indent: nat) -> Seq<char> {
    spaces(indent) + carets((diagnostic.span.end - diagnostic.span.start) as nat)
}

/// The message line: `+-- ` and the message, `indent` places in.
pub open spec fn error_message(diagnostic: DiagnosticView, indent: nat) -> Seq<char> {
    spaces(indent) + "+-- "@ + diagnostic.message
}

/// The block for one diagnostic: the line around the span with the span
/// behind `highlight`, the underline, an empty indented line, the message.
pub open spec fn diagnostic_block(source: Seq<char>, diagnostic: DiagnosticView, highlight: Seq<char>) -> Seq<char> {
    let line = line_text(source, line_index_of(source, diagnostic.span.start as int));
    let (prefix, span, suffix) = text_spans(line, column_of(source, diagnostic), diagnostic);
    let indent = prefix.len();
    prefix + highlight + span + reset_code() + suffix + "\n"@ + arrow_pointers(diagnostic, indent)
        + "\n"@ + spaces(indent) + "\n"@ + error_message(diagnostic, indent)
}

/// The escape sequence that marks the span. Formats
/// `termion::color::Fg(termion::color::Red)`, whose `Display` writes the
/// sequence for colour 1, or nothing where the environment switches colours
/// off.
#[verifier::external_body]
fn error_color() -> (code: String)
    ensures
        code@ == foreground_code(seq!['1']) || code@ == Seq::<char>::empty(),
{
    format!("{}", termion::color::Fg(termion::color::Red))
}

/// How many of the leading characters of `line` lie within its first
/// `offset` bytes.
fn char_index(line: &str, offset: usize) -> (index: usize)
    ensures
        index == chars_within(line@, offset as int),
        index <= line@.len(),
{
    let ghost s = line@;
    let n = line.unicode_len();
    let mut i: usize = 0;
    let mut reached: usize = 0;
    proof {
        assert(s.take(0) =~= Seq::<char>::empty());
    }
    while i < n
        invariant
            s == line@,
            n == s.len(),
            i <= n,
            reached == byte_offset(s, i as int),
            reached <= offset,
        ensures
            i <= n,
            byte_offset(s, i as int) <= offset,
            i == n || byte_offset(s, i as int + 1) > offset,
        decreases n - i,
    {
        let width = utf8_width(line.get_char(i));
        proof {
            lemma_byte_offset_step(s, i as int);
        }
        if width > offset - reached {
            break ;
        }
        reached += width;
        i += 1;
    }
    proof {
        lemma_chars_within(s, offset as int, i as int);
    }
    i
}

/// Appends `count` copies of the one-character text `unit` to `out`.
fn push_repeated(out: &mut String, unit: &str, count: usize)
    requires
        unit@.len() == 1,
    ensures
        final(out)@ == old(out)@ + Seq::new(count as nat, |i: int| unit@[0]),
{
    let mut i: usize = 0;
    assert(out@ =~= old(out)@ + Seq::new(0, |i: int| unit@[0]));
    while i < count
        invariant
            i <= count,
            unit@.len() == 1,
            out@ == old(out)@ + Seq::new(i as nat, |i: int| unit@[0]),
        decreases count - i,
    {
        out.append(unit);
        i += 1;
        assert(out@ =~= old(out)@ + Seq::new(i as nat, |i: int| unit@[0]));
    }
}

/// Renders diagnostics against the text they speak of.
pub struct DiagnosticsPrinter<'a> {
    pub text: &'a SourceText,
    pub diagnostics: &'a [Diagnostic],
}

impl<'a> DiagnosticsPrinter<'a> {
    /// A printer for `diagnostics`, which speak of `text`.
    pub fn new(text: &'a SourceText, diagnostics: &'a [Diagnostic]) -> (printer: Self)
        ensures
            printer.text == text,
            printer.diagnostics == diagnostics,
    {
        DiagnosticsPrinter { text, diagnostics }
    }

    /// The block for one diagnostic. The span is marked in red unless the
    /// environment switches colours off.
    pub fn stringify_diagnostic(&self, diagnostic: &Diagnostic) -> (block: String)
        ensures
            block@ == diagnostic_block(self.text@, diagnostic@, foreground_code(seq!['1']))
                || block@ == diagnostic_block(self.text@, diagnostic@, Seq::empty()),
    {
        let highlight = error_color();
        self.stringify_with(diagnostic, highlight.as_str())
    }

    /// The block for one diagnostic, with `highlight` written before the span.
    pub fn stringify_with(&self, diagnostic: &Diagnostic, highlight: &str) -> (block: String)
        ensures
            block@ == diagnostic_block(self.text@, diagnostic@, highlight@),
    {
        let line_index = self.text.line_index(diagnostic.span.start());
        let line = self.text.get_line(line_index);
        let line_start = self.text.line_start(line_index);
        proof {
            lemma_line_starts_before(self.text@, diagnostic@.span.start as int);
        }
        let column = diagnostic.span.start() - line_start;
        let (prefix, span, suffix) = self.get_text_spans(column, diagnostic, line);
        let indent = prefix.unicode_len();
        let (pointers, arrow_line) = self.format_arrow(diagnostic, indent);
        let message = self.format_error_message(diagnostic, indent);
        let reset = reset_color();
        let mut block = prefix.to_owned();
        block.append(highlight);
        block.append(span);
        block.append(reset.as_str());
        block.append(suffix);
        block.append("\n");
        block.append(pointers.as_str());
        block.append("\n");
        block.append(arrow_line.as_str());
        block.append("\n");
        block.append(message.as_str());
        block
    }

    /// The blocks for all the diagnostics, in their order.
    pub fn blocks(&self) -> (blocks: Vec<String>)
        ensures
            blocks@.len() == self.diagnostics@.len(),
            forall|i: int|
                0 <= i < blocks@.len() ==> {
                    ||| (#[trigger] blocks@[i])@ == diagnostic_block(
                        self.text@,
                        self.diagnostics@[i]@,
                        foreground_code(seq!['1']),
                    )
                    ||| blocks@[i]@ == diagnostic_block(
                        self.text@,
                        self.diagnostics@[i]@,
                        Seq::empty(),
                    )
                },
    {
        let mut blocks: Vec<String> = Vec::new();
        let mut i: usize = 0;
        while i < self.diagnostics.len()
            invariant
                i <= self.diagnostics@.len(),
                blocks@.len() == i,
                forall|j: int|
                    0 <= j < i ==> {
                        ||| (#[trigger] blocks@[j])@ == diagnostic_block(
                            self.text@,
                            self.diagnostics@[j]@,
                            foreground_code(seq!['1']),
                        )
                        ||| blocks@[j]@ == diagnostic_block(
                            self.text@,
                            self.diagnostics@[j]@,
                            Seq::empty(),
                        )
                    },
            decreases self.diagnostics@.len() - i,
        {
            let block = self.stringify_diagnostic(&self.diagnostics[i]);
            blocks.push(block);
            i += 1;
        }
        blocks
    }

    /// The parts of `line` before, in and after the span, which begins at
    /// byte `column` of the line.
    fn get_text_spans(&self, column: usize, diagnostic: &Diagnostic, line: &'a str) -> (spans: (
        &'a str,
        &'a str,
        &'a str,
    ))
        requires
            column <= diagnostic@.span.start,
        ensures
            (spans.0@, spans.1@, spans.2@) == text_spans(line@, column as int, diagnostic@),
    {
        let length = diagnostic.span.length();
        let line_length = line.unicode_len();
        let prefix_end = char_index(line, column);
        let suffix_start = char_index(line, column + length);
        let prefix_start = if prefix_end > PREFIX_LENGTH {
            prefix_end - PREFIX_LENGTH
        } else {
            0
        };
        let suffix_end = if line_length - suffix_start > PREFIX_LENGTH {
            suffix_start + PREFIX_LENGTH
        } else {
            line_length
        };
        proof {
            lemma_chars_within_monotone(line@, column as int, column as int + length as int);
        }
        let prefix = line.substring_char(prefix_start, prefix_end);
        let span = line.substring_char(prefix_end, suffix_start);
        let suffix = line.substring_char(suffix_start, suffix_end);
        (prefix, span, suffix)
    }

    /// The underline of the span and the empty line below it, `indent`
    /// places in.
    fn format_arrow(&self, diagnostic: &Diagnostic, indent: usize) -> (arrow: (String, String))
        ensures
            arrow.0@ == arrow_pointers(diagnostic@, indent as nat),
            arrow.1@ == spaces(indent as nat),
    {
        proof {
            reveal_strlit(" ");
            reveal_strlit("^");
        }
        let mut pointers = String::new();
        push_repeated(&mut pointers, " ", indent);
        push_repeated(&mut pointers, "^", diagnostic.span.length());
        let mut arrow_line = String::new();
        push_repeated(&mut arrow_line, " ", indent);
        assert(pointers@ =~= arrow_pointers(diagnostic@, indent as nat));
        assert(arrow_line@ =~= spaces(indent as nat));
        (pointers, arrow_line)
    }

    /// The line with the message, `indent` places in.
    fn format_error_message(&self, diagnostic: &Diagnostic, indent: usize) -> (message: String)
        ensures
            message@ == error_message(diagnostic@, indent as nat),
    {
        proof {
            reveal_strlit(" ");
        }
        let mut message = String::new();
        push_repeated(&mut message, " ", indent);
        message.append("+-- ");
        message.append(diagnostic.message.as_str());
        assert(message@ =~= error_message(diagnostic@, indent as nat));
        message
    }
}

/// A larger offset holds at least as many characters.
pub proof fn lemma_chars_within_monotone(s: Seq<char>, a: int, b: int)
    requires
        0 <= a <= b,
    ensures
        0 <= chars_within(s, a) <= chars_within(s, b) <= s.len(),
    decreases s.len(),
{
    if s.len() > 0 {
        lemma_chars_within_monotone(s.drop_last(), a, b);
    }
    if s.len() > 0 && byte_offset(s, s.len() as int) > b {
    } else if s.len() > 0 && byte_offset(s, s.len() as int) > a {
    } else {
    }
}

} // verus!
