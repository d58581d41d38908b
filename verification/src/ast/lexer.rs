//! Source text to tokens.

use vstd::prelude::*;
use vstd::string::*;
use vstd::utf8::*;

verus! {

/// What a token is. `Number` carries the value of the literal.
#[derive(Debug, PartialEq, Eq, Clone, Copy, Structural)]
pub enum TokenKind {
    Number(i64),
    Plus,
    Minus,
    Asterisk,
    Slash,
    LeftParen,
    RightParen,
    Let,
    Identifier,
    Equals,
    EOF,
    Bad,
    Whitespace,
}

impl TokenKind {
    /// The text by which messages name a token of this kind.
    pub open spec fn spec_text(self) -> Seq<char> {
        match self {
            TokenKind::Number(_) => "Number"@,
            TokenKind::Plus => "+"@,
            TokenKind::Minus => "-"@,
            TokenKind::Asterisk => "*"@,
            TokenKind::Slash => "/"@,
            TokenKind::LeftParen => "("@,
            TokenKind::RightParen => ")"@,
            TokenKind::Let => "let"@,
            TokenKind::Identifier => "Identifier"@,
            TokenKind::Equals => "="@,
            TokenKind::EOF => "EOF"@,
            TokenKind::Bad => "Bad"@,
            TokenKind::Whitespace => "Whitespace"@,
        }
    }

    /// The text by which messages name a token of this kind.
    pub fn text(&self) -> (name: &'static str)
        ensures
            name@ == self.spec_text(),
    {
        match self {
            TokenKind::Number(_) => "Number",
            TokenKind::Plus => "+",
            TokenKind::Minus => "-",
            TokenKind::Asterisk => "*",
            TokenKind::Slash => "/",
            TokenKind::LeftParen => "(",
            TokenKind::RightParen => ")",
            TokenKind::Let => "let",
            TokenKind::Identifier => "Identifier",
            TokenKind::Equals => "=",
            TokenKind::EOF => "EOF",
            TokenKind::Bad => "Bad",
            TokenKind::Whitespace => "Whitespace",
        }
    }
}

/// The mathematical content of a [`TextSpan`].
pub struct SpanView {
    pub start: usize,
    pub end: usize,
    pub literal: Seq<char>,
}

/// A half-open range of byte offsets into the source, with the text it covers.
#[derive(Debug)]
pub struct TextSpan {
    start: usize,
    end: usize,
    literal: String,
}

impl View for TextSpan {
    type V = SpanView;

    closed spec fn view(&self) -> SpanView {
        SpanView { start: self.start, end: self.end, literal: self.literal@ }
    }
}

impl TextSpan {
    /// A span begins at or before its end.
    #[verifier::type_invariant]
    spec fn ordered(self) -> bool {
        self.start <= self.end
    }

    /// The span from `start` up to `end` with the text it covers.
    pub fn new(start: usize, end: usize, literal: String) -> (span: Self)
        requires
            start <= end,
        ensures
            span@ == (SpanView { start, end, literal: literal@ }),
    {
        Self { start, end, literal }
    }

    /// The byte offset at which the span begins.
    pub fn start(&self) -> (start: usize)
        ensures
            start == self@.start,
    {
        self.start
    }

    /// The byte offset just behind the span.
    pub fn end(&self) -> (end: usize)
        ensures
            end == self@.end,
    {
        self.end
    }

    /// The text that the span covers.
    pub fn literal(&self) -> (literal: &str)
        ensures
            literal@ == self@.literal,
    {
        self.literal.as_str()
    }

    /// The number of bytes the span covers.
    pub fn length(&self) -> (n: usize)
        ensures
            self@.start <= self@.end,
            n == self@.end - self@.start,
    {
        proof {
            use_type_invariant(self);
        }
        self.end - self.start
    }
}

impl Clone for TextSpan {
    fn clone(&self) -> (copy: Self)
        ensures
            copy@ == self@,
    {
        proof {
            use_type_invariant(self);
        }
        Self { start: self.start, end: self.end, literal: self.literal.clone() }
    }
}

/// The mathematical content of a [`Token`].
pub struct TokenView {
    pub kind: TokenKind,
    pub span: SpanView,
}

/// The smallest lexical unit: a kind and the span it was read from.
#[derive(Debug)]
pub struct Token {
    pub kind: TokenKind,
    pub span: TextSpan,
}

impl View for Token {
    type V = TokenView;

    open spec fn view(&self) -> TokenView {
        TokenView { kind: self.kind, span: self.span@ }
    }
}

impl Token {
    /// A token of the given kind, read from the given span.
    pub fn new(kind: TokenKind, span: TextSpan) -> (token: Self)
        ensures
            token.kind == kind,
            token.span == span,
    {
        Self { kind, span }
    }
}

impl Clone for Token {
    fn clone(&self) -> (copy: Self)
        ensures
            copy@ == self@,
    {
        Self { kind: self.kind, span: self.span.clone() }
    }
}

/// True of the ten decimal digits.
pub open spec fn is_digit(c: char) -> bool {
    '0' <= c <= '9'
}

/// The number a decimal digit stands for.
pub open spec fn digit_value(c: char) -> nat
    recommends
        is_digit(c),
{
    (c as u32 - '0' as u32) as nat
}

/// True of the characters that Unicode gives the property `White_Space`.
pub open spec fn is_whitespace(c: char) -> bool {
    let u = c as u32;
    ||| 0x09 <= u <= 0x0D
    ||| u == 0x20
    ||| u == 0x85
    ||| u == 0xA0
    ||| u == 0x1680
    ||| 0x2000 <= u <= 0x200A
    ||| u == 0x2028
    ||| u == 0x2029
    ||| u == 0x202F
    ||| u == 0x205F
    ||| u == 0x3000
}

/// True of the characters a name may begin with: ASCII letters and `_`.
pub open spec fn is_identifier_start(c: char) -> bool {
    ||| 'a' <= c <= 'z'
    ||| 'A' <= c <= 'Z'
    ||| c == '_'
}

/// True of the characters a name may go on with.
pub open spec fn is_identifier_part(c: char) -> bool {
    is_identifier_start(c) || is_digit(c)
}

/// Where the longest run of digits that begins at `pos` ends.
pub open spec fn digits_end(s: Seq<char>, pos: int) -> int
    decreases s.len() - pos,
{
    if 0 <= pos < s.len() && is_digit(s[pos]) {
        digits_end(s, pos + 1)
    } else {
        pos
    }
}

/// Where the longest run of name characters that begins at `pos` ends.
pub open spec fn identifier_end(s: Seq<char>, pos: int) -> int
    decreases s.len() - pos,
{
    if 0 <= pos < s.len() && is_identifier_part(s[pos]) {
        identifier_end(s, pos + 1)
    } else {
        pos
    }
}

/// The number that a string of decimal digits denotes.
pub open spec fn decimal_value(digits: Seq<char>) -> nat
    decreases digits.len(),
{
    if digits.len() == 0 {
        0
    } else {
        decimal_value(digits.drop_last()) * 10 + digit_value(digits.last())
    }
}

/// The kind of a token that consists of the one character `c`, where `c`
/// is no digit, no white space and begins no name.
pub open spec fn punctuation_kind(c: char) -> TokenKind {
    if c == '+' {
        TokenKind::Plus
    } else if c == '-' {
        TokenKind::Minus
    } else if c == '/' {
        TokenKind::Slash
    } else if c == '*' {
        TokenKind::Asterisk
    } else if c == '(' {
        TokenKind::LeftParen
    } else if c == ')' {
        TokenKind::RightParen
    } else if c == '=' {
        TokenKind::Equals
    } else {
        TokenKind::Bad
    }
}

/// The keyword `let` as characters.
pub open spec fn let_keyword() -> Seq<char> {
    seq!['l', 'e', 't']
}

/// The index of the character after the token that begins at character `pos`.
pub open spec fn token_end(s: Seq<char>, pos: int) -> int
    recommends
        0 <= pos < s.len(),
{
    if is_digit(s[pos]) {
        digits_end(s, pos)
    } else if is_identifier_start(s[pos]) {
        identifier_end(s, pos)
    } else {
        pos + 1
    }
}

/// The kind of the token that begins at character `pos`. A run of digits
/// whose value does not fit in an `i64` is `Bad`.
pub open spec fn token_kind(s: Seq<char>, pos: int) -> TokenKind
    recommends
        0 <= pos < s.len(),
{
    let c = s[pos];
    if is_digit(c) {
        let value = decimal_value(s.subrange(pos, digits_end(s, pos)));
        if value <= i64::MAX {
            TokenKind::Number(value as i64)
        } else {
            TokenKind::Bad
        }
    } else if is_whitespace(c) {
        TokenKind::Whitespace
    } else if is_identifier_start(c) {
        if s.subrange(pos, identifier_end(s, pos)) == let_keyword() {
            TokenKind::Let
        } else {
            TokenKind::Identifier
        }
    } else {
        punctuation_kind(c)
    }
}

/// The number of bytes that the first `i` characters of `s` take in UTF-8.
pub open spec fn byte_offset(s: Seq<char>, i: int) -> nat {
    encode_utf8(s.take(i)).len()
}

/// The token that begins at character `pos` of `s`.
pub open spec fn token_at(s: Seq<char>, pos: int) -> TokenView
    recommends
        0 <= pos < s.len(),
{
    let end = token_end(s, pos);
    TokenView {
        kind: token_kind(s, pos),
        span: SpanView {
            start: byte_offset(s, pos) as usize,
            end: byte_offset(s, end) as usize,
            literal: s.subrange(pos, end),
        },
    }
}

/// The token that closes the stream: an empty span at the end of `s`.
pub open spec fn end_token(s: Seq<char>) -> TokenView {
    TokenView {
        kind: TokenKind::EOF,
        span: SpanView {
            start: byte_offset(s, s.len() as int) as usize,
            end: byte_offset(s, s.len() as int) as usize,
            literal: Seq::empty(),
        },
    }
}

/// The tokens of `s` from character `pos` on, white space included, with
/// the closing token at their end. (The test on the positions makes the
/// definition well-founded; it never fails, since a token holds at least
/// one character.)
pub open spec fn lex_from(s: Seq<char>, pos: int) -> Seq<TokenView>
    decreases s.len() - pos,
{
    if 0 <= pos < s.len() {
        let end = token_end(s, pos);
        if pos < end <= s.len() {
            seq![token_at(s, pos)] + lex_from(s, end)
        } else {
            seq![token_at(s, pos)]
        }
    } else {
        seq![end_token(s)]
    }
}

/// All the tokens of `s`.
pub open spec fn lex(s: Seq<char>) -> Seq<TokenView> {
    lex_from(s, 0)
}

/// UTF-8 encodes a concatenation piece by piece.
pub proof fn lemma_encode_concat(a: Seq<char>, b: Seq<char>)
    ensures
        encode_utf8(a + b) == encode_utf8(a) + encode_utf8(b),
    decreases a.len(),
{
    if a.len() == 0 {
        assert(a + b =~= b);
        assert(encode_utf8(a) + encode_utf8(b) =~= encode_utf8(b));
    } else {
        lemma_encode_concat(a.drop_first(), b);
        assert((a + b).drop_first() =~= a.drop_first() + b);
        assert(encode_utf8(a + b) =~= encode_utf8(a) + encode_utf8(b));
    }
}

/// A character moves the byte offset on by the length of its encoding.
pub proof fn lemma_byte_offset_step(s: Seq<char>, i: int)
    requires
        0 <= i < s.len(),
    ensures
        byte_offset(s, i + 1) == byte_offset(s, i) + encode_scalar(s[i] as u32).len(),
        1 <= encode_scalar(s[i] as u32).len() <= 4,
{
    let one = seq![s[i]];
    assert(s.take(i + 1) =~= s.take(i) + one);
    lemma_encode_concat(s.take(i), one);
    assert(one.drop_first() =~= Seq::<char>::empty());
    assert(encode_utf8(one) =~= encode_scalar(s[i] as u32)) by {
        reveal_with_fuel(encode_utf8, 2);
    }
}

/// Byte offsets grow with character positions.
pub proof fn lemma_byte_offset_monotone(s: Seq<char>, i: int, j: int)
    requires
        0 <= i <= j <= s.len(),
    ensures
        byte_offset(s, i) <= byte_offset(s, j),
        j - i <= byte_offset(s, j) - byte_offset(s, i),
    decreases j - i,
{
    if i < j {
        lemma_byte_offset_monotone(s, i, j - 1);
        lemma_byte_offset_step(s, j - 1);
    }
}

/// The run of digits that begins at `pos` stays inside `s`, and holds digits only.
pub proof fn lemma_digits_end(s: Seq<char>, pos: int)
    requires
        0 <= pos <= s.len(),
    ensures
        pos <= digits_end(s, pos) <= s.len(),
        forall|k: int| pos <= k < digits_end(s, pos) ==> is_digit(#[trigger] s[k]),
        digits_end(s, pos) < s.len() ==> !is_digit(s[digits_end(s, pos)]),
    decreases s.len() - pos,
{
    if pos < s.len() && is_digit(s[pos]) {
        lemma_digits_end(s, pos + 1);
    }
}

/// The run of name characters that begins at `pos` stays inside `s`.
pub proof fn lemma_identifier_end(s: Seq<char>, pos: int)
    requires
        0 <= pos <= s.len(),
    ensures
        pos <= identifier_end(s, pos) <= s.len(),
        forall|k: int| pos <= k < identifier_end(s, pos) ==> is_identifier_part(#[trigger] s[k]),
        identifier_end(s, pos) < s.len() ==> !is_identifier_part(s[identifier_end(s, pos)]),
    decreases s.len() - pos,
{
    if pos < s.len() && is_identifier_part(s[pos]) {
        lemma_identifier_end(s, pos + 1);
    }
}

/// Every token holds at least one character and ends inside the source.
pub proof fn lemma_token_end(s: Seq<char>, pos: int)
    requires
        0 <= pos < s.len(),
    ensures
        pos < token_end(s, pos) <= s.len(),
{
    lemma_digits_end(s, pos + 1);
    lemma_identifier_end(s, pos + 1);
}

/// The span of a token covers its literal: the bytes of the source between
/// the offsets of the span are the bytes of the literal.
pub proof fn lemma_span_covers_literal(s: Seq<char>, pos: int)
    requires
        0 <= pos < s.len(),
    ensures
        byte_offset(s, pos) <= byte_offset(s, token_end(s, pos)) <= encode_utf8(s).len(),
        encode_utf8(s).subrange(
            byte_offset(s, pos) as int,
            byte_offset(s, token_end(s, pos)) as int,
        ) == encode_utf8(token_at(s, pos).span.literal),
{
    let end = token_end(s, pos);
    lemma_token_end(s, pos);
    let before = s.take(pos);
    let literal = s.subrange(pos, end);
    let after = s.skip(end);
    assert(s.take(end) =~= before + literal);
    assert(s =~= s.take(end) + after);
    lemma_encode_concat(before, literal);
    lemma_encode_concat(s.take(end), after);
    assert(encode_utf8(s).subrange(
        encode_utf8(before).len() as int,
        encode_utf8(s.take(end)).len() as int,
    ) =~= encode_utf8(literal));
}

/// The literals of the tokens, one after the other.
pub open spec fn literals(tokens: Seq<TokenView>) -> Seq<char>
    decreases tokens.len(),
{
    if tokens.len() == 0 {
        Seq::empty()
    } else {
        tokens[0].span.literal + literals(tokens.drop_first())
    }
}

/// Nothing of the source is lost: the literals of its tokens, white space
/// included, are the source again.
pub proof fn lemma_tokens_cover_source(s: Seq<char>, pos: int)
    requires
        0 <= pos <= s.len(),
    ensures
        literals(lex_from(s, pos)) == s.skip(pos),
    decreases s.len() - pos,
{
    let tokens = lex_from(s, pos);
    let nothing = Seq::<TokenView>::empty();
    if pos < s.len() {
        let end = token_end(s, pos);
        lemma_token_end(s, pos);
        lemma_tokens_cover_source(s, end);
        assert(tokens.drop_first() =~= lex_from(s, end));
        assert(s.subrange(pos, end) + s.skip(end) =~= s.skip(pos));
    } else {
        assert(tokens.drop_first() =~= nothing);
        assert(literals(nothing) =~= Seq::<char>::empty());
        assert(literals(tokens) =~= Seq::<char>::empty());
        assert(s.skip(pos) =~= Seq::<char>::empty());
    }
}

/// The number of bytes that `c` takes in UTF-8.
pub fn utf8_width(c: char) -> (n: usize)
    ensures
        n == encode_scalar(c as u32).len(),
        1 <= n <= 4,
{
    let u = c as u32;
    proof {
        char_is_scalar(c);
    }
    if u < 0x80 {
        1
    } else if u < 0x800 {
        2
    } else if u < 0x10000 {
        3
    } else {
        4
    }
}

/// Reads a source text token by token, front to back.
pub struct Lexer<'a> {
    input: &'a str,
    current_pos: usize,
    offset: usize,
    length: usize,
    finished: bool,
}

impl<'a> Lexer<'a> {
    /// The text being read.
    pub closed spec fn source(&self) -> Seq<char> {
        self.input@
    }

    /// The index of the next character to read.
    pub closed spec fn position(&self) -> int {
        self.current_pos as int
    }

    /// Whether the closing token has been handed out.
    pub closed spec fn is_finished(&self) -> bool {
        self.finished
    }

    /// The cursor lies inside the text and the byte offset belongs to it.
    pub closed spec fn wf(&self) -> bool {
        &&& self.length == self.input@.len()
        &&& self.current_pos <= self.length
        &&& self.offset == byte_offset(self.input@, self.current_pos as int)
        &&& byte_offset(self.input@, self.length as int) <= usize::MAX
        &&& self.finished ==> self.current_pos == self.length
    }

    /// A lexer at the start of `input`.
    pub fn new(input: &'a str) -> (lexer: Self)
        ensures
            lexer.wf(),
            lexer.source() == input@,
            lexer.position() == 0,
            !lexer.is_finished(),
    {
        let length = input.unicode_len();
        let bytes = input.as_bytes();
        let byte_length = bytes.len();
        proof {
            assert(input@.take(0) =~= Seq::<char>::empty());
            assert(input@.take(input@.len() as int) =~= input@);
        }
        Self { input, current_pos: 0, offset: 0, length, finished: false }
    }

    /// Whether the closing token has been handed out.
    pub fn is_done(&self) -> (done: bool)
        ensures
            done == self.is_finished(),
    {
        self.finished
    }

    /// The character under the cursor, if the cursor is inside the text.
    fn current_char(&self) -> (c: Option<char>)
        requires
            self.wf(),
        ensures
            c == if self.position() < self.source().len() {
                Some(self.source()[self.position()])
            } else {
                None
            },
    {
        if self.current_pos < self.length {
            Some(self.input.get_char(self.current_pos))
        } else {
            None
        }
    }

    /// Whether a number begins with `c`.
    fn is_number_start(c: &char) -> (b: bool)
        ensures
            b == is_digit(*c),
    {
        *c >= '0' && *c <= '9'
    }

    /// Whether `c` is white space.
    fn is_whitespace(c: char) -> (b: bool)
        ensures
            b == is_whitespace(c),
    {
        let u = c as u32;
        (0x09 <= u && u <= 0x0D) || u == 0x20 || u == 0x85 || u == 0xA0 || u == 0x1680 || (0x2000
            <= u && u <= 0x200A) || u == 0x2028 || u == 0x2029 || u == 0x202F || u == 0x205F || u
            == 0x3000
    }

    /// Whether a name can go on with `c`.
    fn is_identifier_part(c: char) -> (b: bool)
        ensures
            b == is_identifier_part(c),
    {
        (c >= 'a' && c <= 'z') || (c >= 'A' && c <= 'Z') || c == '_' || (c >= '0' && c <= '9')
    }

    /// Steps over the character under the cursor and returns it; at the end
    /// of the text nothing moves.
    fn consume(&mut self) -> (c: Option<char>)
        requires
            old(self).wf(),
        ensures
            final(self).wf(),
            final(self).source() == old(self).source(),
            final(self).is_finished() == old(self).is_finished(),
            old(self).position() < old(self).source().len() ==> c == Some(
                old(self).source()[old(self).position()],
            ) && final(self).position() == old(self).position() + 1,
            old(self).position() >= old(self).source().len() ==> c.is_none() && final(self).position() == old(self).position(),
    {
        if self.current_pos >= self.length {
            return None;
        }
        let c = self.input.get_char(self.current_pos);
        let width = utf8_width(c);
        proof {
            lemma_byte_offset_step(self.input@, self.current_pos as int);
            lemma_byte_offset_monotone(
                self.input@,
                self.current_pos as int + 1,
                self.length as int,
            );
        }
        self.current_pos += 1;
        self.offset += width;
        Some(c)
    }

    /// Reads the run of digits under the cursor. `None` when its value does
    /// not fit in an `i64`; the whole run is read either way.
    fn consume_number(&mut self) -> (number: Option<i64>)
        requires
            old(self).wf(),
        ensures
            final(self).wf(),
            final(self).source() == old(self).source(),
            final(self).is_finished() == old(self).is_finished(),
            final(self).position() == digits_end(old(self).source(), old(self).position()),
            ({
                let value = decimal_value(
                    old(self).source().subrange(old(self).position(), final(self).position()),
                );
                number == if value <= i64::MAX {
                    Some(value as i64)
                } else {
                    None
                }
            }),
    {
        let ghost s = self.input@;
        let ghost start = self.current_pos as int;
        let mut number: Option<i64> = Some(0);
        proof {
            assert(s.subrange(start, start) =~= Seq::<char>::empty());
        }
        loop
            invariant
                self.wf(),
                self.input@ == s,
                self.finished == old(self).finished,
                0 <= start <= self.current_pos <= s.len(),
                digits_end(s, start) == digits_end(s, self.current_pos as int),
                ({
                    let value = decimal_value(s.subrange(start, self.current_pos as int));
                    number == if value <= i64::MAX {
                        Some(value as i64)
                    } else {
                        None
                    }
                }),
            ensures
                self.current_pos as int == digits_end(s, start),
            decreases s.len() - self.current_pos,
        {
            let c = match self.current_char() {
                Some(c) => c,
                None => { break ; },
            };
            if !Self::is_number_start(&c) {
                break ;
            }
            let ghost before = s.subrange(start, self.current_pos as int);
            let ghost after = s.subrange(start, self.current_pos as int + 1);
            proof {
                assert(after.drop_last() =~= before);
                assert(after.last() == c);
            }
            let digit: i64 = (c as u32 - '0' as u32) as i64;
            self.consume();
            number = match number {
                Some(n) => match n.checked_mul(10) {
                    Some(shifted) => shifted.checked_add(digit),
                    None => None,
                },
                None => None,
            };
        }
        number
    }

    /// Reads the name under the cursor and tells whether it is `let`.
    fn consume_identifier(&mut self) -> (kind: TokenKind)
        requires
            old(self).wf(),
            old(self).position() < old(self).source().len(),
        ensures
            final(self).wf(),
            final(self).source() == old(self).source(),
            final(self).is_finished() == old(self).is_finished(),
            final(self).position() == identifier_end(old(self).source(), old(self).position()),
            kind == if old(self).source().subrange(old(self).position(), final(self).position())
                == let_keyword() {
                TokenKind::Let
            } else {
                TokenKind::Identifier
            },
    {
        let ghost s = self.input@;
        let start = self.current_pos;
        loop
            invariant
                self.wf(),
                self.input@ == s,
                self.finished == old(self).finished,
                start <= self.current_pos <= s.len(),
                identifier_end(s, start as int) == identifier_end(s, self.current_pos as int),
            ensures
                self.current_pos as int == identifier_end(s, start as int),
            decreases s.len() - self.current_pos,
        {
            let c = match self.current_char() {
                Some(c) => c,
                None => { break ; },
            };
            if !Self::is_identifier_part(c) {
                break ;
            }
            self.consume();
        }
        let is_let = self.current_pos - start == 3 && self.input.get_char(start) == 'l'
            && self.input.get_char(start + 1) == 'e' && self.input.get_char(start + 2) == 't';
        proof {
            let name = s.subrange(start as int, self.current_pos as int);
            if is_let {
                assert(name =~= let_keyword());
            } else if name == let_keyword() {
                assert(name.len() == 3);
                assert(name[0] == 'l' && name[1] == 'e' && name[2] == 't');
            }
        }
        if is_let {
            TokenKind::Let
        } else {
            TokenKind::Identifier
        }
    }

    /// Reads one character and classifies it.
    fn consume_punctuation(&mut self) -> (kind: TokenKind)
        requires
            old(self).wf(),
            old(self).position() < old(self).source().len(),
        ensures
            final(self).wf(),
            final(self).source() == old(self).source(),
            final(self).is_finished() == old(self).is_finished(),
            final(self).position() == old(self).position() + 1,
            kind == punctuation_kind(old(self).source()[old(self).position()]),
    {
        match self.consume() {
            Some('+') => TokenKind::Plus,
            Some('-') => TokenKind::Minus,
            Some('/') => TokenKind::Slash,
            Some('*') => TokenKind::Asterisk,
            Some('(') => TokenKind::LeftParen,
            Some(')') => TokenKind::RightParen,
            Some('=') => TokenKind::Equals,
            _ => TokenKind::Bad,
        }
    }

    /// The next token of the text. At the end of the text the closing `EOF`
    /// token comes once, and `None` ever after.
    pub fn next_token(&mut self) -> (token: Option<Token>)
        requires
            old(self).wf(),
        ensures
            final(self).wf(),
            final(self).source() == old(self).source(),
            old(self).is_finished() ==> token.is_none() && final(self).is_finished() && final(self).position() == old(self).position(),
            !old(self).is_finished() && old(self).position() == old(self).source().len() ==> {
                &&& token.is_some()
                &&& token.unwrap()@ == end_token(old(self).source())
                &&& final(self).is_finished()
                &&& final(self).position() == old(self).position()
            },
            !old(self).is_finished() && old(self).position() < old(self).source().len() ==> {
                &&& token.is_some()
                &&& token.unwrap()@ == token_at(old(self).source(), old(self).position())
                &&& !final(self).is_finished()
                &&& final(self).position() == token_end(old(self).source(), old(self).position())
                &&& old(self).position() < final(self).position() <= old(self).source().len()
            },
    {
        if self.finished {
            return None;
        }
        let c = match self.current_char() {
            Some(c) => c,
            None => {
                self.finished = true;
                return Some(Token::new(TokenKind::EOF, TextSpan::new(self.offset, self.offset, String::new())));
            },
        };
        let start = self.current_pos;
        let start_offset = self.offset;
        let kind = if Self::is_number_start(&c) {
            match self.consume_number() {
                Some(number) => TokenKind::Number(number),
                None => TokenKind::Bad,
            }
        } else if Self::is_whitespace(c) {
            self.consume();
            TokenKind::Whitespace
        } else if Self::is_identifier_part(c) {
            self.consume_identifier()
        } else {
            self.consume_punctuation()
        };
        proof {
            lemma_token_end(self.input@, start as int);
            lemma_byte_offset_monotone(self.input@, start as int, self.current_pos as int);
        }
        let literal = self.input.substring_char(start, self.current_pos).to_owned();
        Some(Token::new(kind, TextSpan::new(start_offset, self.offset, literal)))
    }
}

} // verus!
