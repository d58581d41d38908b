//! Printing a program and reading the print again gives the program back.

use crate::ast::{precedence_of, ASTBinaryOperatorKind, ExpressionView, OperatorView, StatementView};
use crate::ast::evaluator::{
    after_program, after_statement, evaluate, initial_evaluator, EvaluatorView,
};
use crate::ast::grammar::{
    lemma_parse_binary_extends, lemma_parse_binary_reads, lemma_parse_binary_sound,
    lemma_parse_program_sound, lemma_parse_statement_sound, lemma_spelled, level, spells, width,
};
use crate::ast::lexer::{
    decimal_value, digit_value, digits_end, end_token, identifier_end, is_digit, is_identifier_part,
    is_identifier_start, is_whitespace, lemma_identifier_end, lemma_token_end, let_keyword, lex,
    lex_from, punctuation_kind, token_at, token_end, token_kind, TokenKind, TokenView,
};
use crate::ast::parser::{
    operator_kind, parse_binary, parse_program, parse_statement, significant, token_or_end,
    ParsedStatement,
};
use crate::ast::printer::{
    decimal_digits, decimal_text, digit_char, no_colors, rendered_expression, rendered_program,
    rendered_statement,
};
use crate::diagnostics::{unexpected_token, DiagnosticView};
use vstd::prelude::*;

verus! {

/// The decimal digits of a number are digits, and denote the number.
pub proof fn lemma_decimal_digits(n: nat)
    ensures
        decimal_digits(n).len() >= 1,
        forall|i: int| 0 <= i < decimal_digits(n).len() ==> is_digit(#[trigger] decimal_digits(n)[i]),
        decimal_value(decimal_digits(n)) == n,
    decreases n,
{
    if n < 10 {
        let digits = decimal_digits(n);
        assert(digits.drop_last() =~= Seq::<char>::empty());
        assert(decimal_value(digits.drop_last()) == 0);
        assert(digit_value(digit_char(n)) == n);
    } else {
        lemma_decimal_digits(n / 10);
        let digits = decimal_digits(n);
        assert(digits.drop_last() =~= decimal_digits(n / 10));
        assert(digits.last() == digit_char(n % 10));
        assert(digit_value(digit_char(n % 10)) == n % 10);
    }
}

/// A stretch of digits that no digit follows is the run of digits at its start.
pub proof fn lemma_digits_end_is(s: Seq<char>, pos: int, end: int)
    requires
        0 <= pos <= end <= s.len(),
        forall|k: int| pos <= k < end ==> is_digit(#[trigger] s[k]),
        end == s.len() || !is_digit(s[end]),
    ensures
        digits_end(s, pos) == end,
    decreases end - pos,
{
    if pos < end {
        lemma_digits_end_is(s, pos + 1, end);
    }
}

/// A stretch of name characters that no name character follows is the run
/// of name characters at its start.
pub proof fn lemma_identifier_end_is(s: Seq<char>, pos: int, end: int)
    requires
        0 <= pos <= end <= s.len(),
        forall|k: int| pos <= k < end ==> is_identifier_part(#[trigger] s[k]),
        end == s.len() || !is_identifier_part(s[end]),
    ensures
        identifier_end(s, pos) == end,
    decreases end - pos,
{
    if pos < end {
        lemma_identifier_end_is(s, pos + 1, end);
    }
}

/// The character that an operator is written with.
pub open spec fn operator_char(kind: ASTBinaryOperatorKind) -> char {
    match kind {
        ASTBinaryOperatorKind::Plus => '+',
        ASTBinaryOperatorKind::Minus => '-',
        ASTBinaryOperatorKind::Multiply => '*',
        ASTBinaryOperatorKind::Divide => '/',
    }
}

/// Whether `name` can be read as a name: it begins with a letter or `_`,
/// goes on with letters, digits and `_`, and is not the keyword `let`.
pub open spec fn is_name(name: Seq<char>) -> bool {
    &&& name.len() >= 1
    &&& is_identifier_start(name[0])
    &&& forall|i: int| 0 <= i < name.len() ==> is_identifier_part(#[trigger] name[i])
    &&& name != let_keyword()
}

/// Whether the expression is of the form in which the parser gives
/// expressions: no `Error` node, no negative literal, names that can be
/// read as names, each operator written as its kind says, the left operand
/// of an operator binding at least as tightly as the operator and the right
/// operand more tightly.
pub open spec fn printable(expression: ExpressionView) -> bool
    decreases expression,
{
    match expression {
        ExpressionView::Number(number) => number >= 0,
        ExpressionView::Variable(token) => is_name(token.span.literal),
        ExpressionView::Parenthesized(inner) => printable(*inner),
        ExpressionView::Binary { operator, left, right } => {
            &&& operator.token.span.literal == seq![operator_char(operator.kind)]
            &&& printable(*left)
            &&& printable(*right)
            &&& level(*left) >= precedence_of(operator.kind)
            &&& level(*right) > precedence_of(operator.kind)
        },
        ExpressionView::Error(_) => false,
    }
}

/// The expression as text without escape sequences.
pub open spec fn plain(expression: ExpressionView) -> Seq<char>
    decreases expression,
{
    match expression {
        ExpressionView::Number(number) => decimal_text(number as int),
        ExpressionView::Variable(token) => token.span.literal,
        ExpressionView::Error(span) => span.literal,
        ExpressionView::Binary { operator, left, right } => plain(*left) + seq![' ']
            + operator.token.span.literal + seq![' '] + plain(*right),
        ExpressionView::Parenthesized(inner) => seq!['('] + plain(*inner) + seq![')'],
    }
}

/// A printer without colours writes the plain text.
pub proof fn lemma_plain_rendering(expression: ExpressionView)
    ensures
        rendered_expression(expression, no_colors()) == plain(expression),
    decreases expression,
{
    reveal_strlit(" ");
    reveal_strlit("(");
    reveal_strlit(")");
    let nothing = Seq::<char>::empty();
    assert(" "@ =~= seq![' ']);
    assert("("@ =~= seq!['(']);
    assert(")"@ =~= seq![')']);
    match expression {
        ExpressionView::Number(number) => {
            assert(nothing + decimal_text(number as int) =~= decimal_text(number as int));
        },
        ExpressionView::Variable(token) => {
            assert(nothing + token.span.literal =~= token.span.literal);
        },
        ExpressionView::Error(span) => {
            assert(nothing + span.literal =~= span.literal);
        },
        ExpressionView::Binary { operator, left, right } => {
            lemma_plain_rendering(*left);
            lemma_plain_rendering(*right);
            assert(plain(*left) + seq![' '] + nothing + operator.token.span.literal + seq![' ']
                + plain(*right) =~= plain(expression));
        },
        ExpressionView::Parenthesized(inner) => {
            lemma_plain_rendering(*inner);
            assert(nothing + seq!['('] + plain(*inner) + nothing + seq![')'] =~= plain(
                expression,
            ));
        },
    }
}

/// Whether two expressions differ at most in the spans of their tokens:
/// the same numbers, names and operators in the same tree.
pub open spec fn same_shape(a: ExpressionView, b: ExpressionView) -> bool
    decreases a,
{
    match (a, b) {
        (ExpressionView::Number(x), ExpressionView::Number(y)) => x == y,
        (ExpressionView::Variable(x), ExpressionView::Variable(y)) => x.span.literal
            == y.span.literal,
        (ExpressionView::Parenthesized(x), ExpressionView::Parenthesized(y)) => same_shape(
            *x,
            *y,
        ),
        (
            ExpressionView::Binary { operator: op, left: l, right: r },
            ExpressionView::Binary { operator: other_op, left: other_l, right: other_r },
        ) => op.kind == other_op.kind && same_shape(*l, *other_l) && same_shape(*r, *other_r),
        _ => false,
    }
}

/// Expressions of the same shape have the same value.
pub proof fn lemma_same_shape_same_value(
    a: ExpressionView,
    b: ExpressionView,
    variables: Map<Seq<char>, i64>,
)
    requires
        same_shape(a, b),
    ensures
        evaluate(a, variables) == evaluate(b, variables),
        level(a) == level(b),
    decreases a,
{
    match (a, b) {
        (ExpressionView::Parenthesized(x), ExpressionView::Parenthesized(y)) => {
            lemma_same_shape_same_value(*x, *y, variables);
        },
        (
            ExpressionView::Binary { operator: op, left: l, right: r },
            ExpressionView::Binary { operator: other_op, left: other_l, right: other_r },
        ) => {
            lemma_same_shape_same_value(*l, *other_l, variables);
            lemma_same_shape_same_value(*r, *other_r, variables);
        },
        _ => {},
    }
}

/// The tree that is read back where the text of `expression` stands in
/// `s` at character `pos`: the same tree, its tokens taken from `s`.
pub open spec fn reread(expression: ExpressionView, s: Seq<char>, pos: int) -> ExpressionView
    decreases expression,
{
    match expression {
        ExpressionView::Variable(_) => ExpressionView::Variable(token_at(s, pos)),
        ExpressionView::Parenthesized(inner) => ExpressionView::Parenthesized(
            Box::new(reread(*inner, s, pos + 1)),
        ),
        ExpressionView::Binary { operator, left, right } => {
            let at = pos + plain(*left).len() + 1;
            ExpressionView::Binary {
                operator: OperatorView { kind: operator.kind, token: token_at(s, at) },
                left: Box::new(reread(*left, s, pos)),
                right: Box::new(reread(*right, s, at + 2)),
            }
        },
        _ => expression,
    }
}

/// The tokens, white space aside, of the text of `expression` where it
/// stands in `s` at character `pos`.
pub open spec fn printed_tokens(expression: ExpressionView, s: Seq<char>, pos: int) -> Seq<TokenView>
    decreases expression,
{
    match expression {
        ExpressionView::Parenthesized(inner) => seq![token_at(s, pos)] + printed_tokens(
            *inner,
            s,
            pos + 1,
        ) + seq![token_at(s, pos + 1 + plain(*inner).len())],
        ExpressionView::Binary { operator, left, right } => {
            let at = pos + plain(*left).len() + 1;
            printed_tokens(*left, s, pos) + seq![token_at(s, at)] + printed_tokens(
                *right,
                s,
                at + 2,
            )
        },
        _ => seq![token_at(s, pos)],
    }
}

/// Whether the text of `expression` stands in `s` at character `pos` and
/// no character follows it that could belong to its last token.
pub open spec fn stands_at(expression: ExpressionView, s: Seq<char>, pos: int) -> bool {
    let end = pos + plain(expression).len();
    &&& 0 <= pos
    &&& end <= s.len()
    &&& s.subrange(pos, end) == plain(expression)
    &&& (end == s.len() || !is_identifier_part(s[end]))
}

/// White space is dropped from the front of the tokens, and any other
/// token is kept.
pub proof fn lemma_significant_first(first: TokenView, rest: Seq<TokenView>)
    ensures
        significant(seq![first] + rest) == if first.kind == TokenKind::Whitespace {
            significant(rest)
        } else {
            seq![first] + significant(rest)
        },
{
    let keep = |t: TokenView| t.kind != TokenKind::Whitespace;
    let one = seq![first];
    Seq::filter_distributes_over_add(one, rest, keep);
    assert(one.drop_last() =~= Seq::<TokenView>::empty());
    reveal_with_fuel(Seq::filter, 2);
    if first.kind == TokenKind::Whitespace {
        assert(one.filter(keep) =~= Seq::<TokenView>::empty());
        assert(one.filter(keep) + rest.filter(keep) =~= rest.filter(keep));
    } else {
        assert(one.filter(keep) =~= one);
    }
}

/// The token read where a one-character token stands.
pub proof fn lemma_single_character_token(s: Seq<char>, pos: int)
    requires
        0 <= pos < s.len(),
        !is_digit(s[pos]),
        !is_identifier_start(s[pos]),
    ensures
        token_end(s, pos) == pos + 1,
        token_kind(s, pos) == if is_whitespace(s[pos]) {
            TokenKind::Whitespace
        } else {
            punctuation_kind(s[pos])
        },
        lex_from(s, pos) == seq![token_at(s, pos)] + lex_from(s, pos + 1),
{
}

/// The token read where the digits of a number stand.
pub proof fn lemma_number_token(s: Seq<char>, pos: int, number: i64)
    requires
        number >= 0,
        stands_at(ExpressionView::Number(number), s, pos),
    ensures
        token_end(s, pos) == pos + decimal_digits(number as nat).len(),
        token_kind(s, pos) == TokenKind::Number(number),
        lex_from(s, pos) == seq![token_at(s, pos)] + lex_from(
            s,
            pos + decimal_digits(number as nat).len(),
        ),
        decimal_digits(number as nat).len() >= 1,
{
    let digits = decimal_digits(number as nat);
    let end = pos + digits.len();
    lemma_decimal_digits(number as nat);
    assert(plain(ExpressionView::Number(number)) == digits);
    assert forall|k: int| pos <= k < end implies is_digit(#[trigger] s[k]) by {
        assert(s[k] == s.subrange(pos, end)[k - pos]);
    }
    assert(s[pos] == s.subrange(pos, end)[0]);
    lemma_digits_end_is(s, pos, end);
}

/// The token read where a name stands.
pub proof fn lemma_name_token(s: Seq<char>, pos: int, token: TokenView)
    requires
        is_name(token.span.literal),
        stands_at(ExpressionView::Variable(token), s, pos),
    ensures
        token_end(s, pos) == pos + token.span.literal.len(),
        token_kind(s, pos) == TokenKind::Identifier,
        token_at(s, pos).span.literal == token.span.literal,
        lex_from(s, pos) == seq![token_at(s, pos)] + lex_from(s, pos + token.span.literal.len()),
{
    let name = token.span.literal;
    let end = pos + name.len();
    assert(plain(ExpressionView::Variable(token)) == name);
    assert forall|k: int| pos <= k < end implies is_identifier_part(#[trigger] s[k]) by {
        assert(s[k] == s.subrange(pos, end)[k - pos]);
        assert(is_identifier_part(name[k - pos]));
    }
    assert(s[pos] == s.subrange(pos, end)[0]);
    lemma_identifier_end_is(s, pos, end);
}

/// Where the text of a group stands, its parentheses and the text of its
/// inside stand.
pub proof fn lemma_group_stands(inner: ExpressionView, s: Seq<char>, pos: int)
    requires
        stands_at(ExpressionView::Parenthesized(Box::new(inner)), s, pos),
    ensures
        0 <= pos < pos + 1 + plain(inner).len() < s.len(),
        s[pos] == '(',
        s[pos + 1 + plain(inner).len()] == ')',
        stands_at(inner, s, pos + 1),
        plain(ExpressionView::Parenthesized(Box::new(inner))).len() == plain(inner).len() + 2,
{
    let whole = plain(ExpressionView::Parenthesized(Box::new(inner)));
    let end = pos + whole.len();
    let close = pos + 1 + plain(inner).len();
    assert(whole == seq!['('] + plain(inner) + seq![')']);
    assert(s[pos] == s.subrange(pos, end)[0]);
    assert(s[close] == s.subrange(pos, end)[close - pos]);
    assert forall|k: int| 0 <= k < plain(inner).len() implies s.subrange(pos + 1, close)[k]
        == plain(inner)[k] by {
        assert(s[pos + 1 + k] == s.subrange(pos, end)[k + 1]);
    }
    assert(s.subrange(pos + 1, close) =~= plain(inner));
}

/// Where the text of a binary expression stands, the texts of its operands
/// stand, with the operator between two spaces between them.
pub proof fn lemma_binary_stands(
    operator: OperatorView,
    left: ExpressionView,
    right: ExpressionView,
    s: Seq<char>,
    pos: int,
)
    requires
        stands_at(
            ExpressionView::Binary { operator, left: Box::new(left), right: Box::new(right) },
            s,
            pos,
        ),
        operator.token.span.literal == seq![operator_char(operator.kind)],
    ensures
        ({
            let whole = plain(
                ExpressionView::Binary { operator, left: Box::new(left), right: Box::new(right) },
            );
            let gap = pos + plain(left).len();
            &&& whole.len() == plain(left).len() + 3 + plain(right).len()
            &&& 0 <= pos <= gap
            &&& gap + 3 <= s.len()
            &&& s[gap] == ' '
            &&& s[gap + 1] == operator_char(operator.kind)
            &&& s[gap + 2] == ' '
            &&& stands_at(left, s, pos)
            &&& stands_at(right, s, gap + 3)
        }),
{
    let whole = plain(
        ExpressionView::Binary { operator, left: Box::new(left), right: Box::new(right) },
    );
    let end = pos + whole.len();
    let gap = pos + plain(left).len();
    let from = gap + 3;
    assert(whole == plain(left) + seq![' '] + operator.token.span.literal + seq![' '] + plain(
        right,
    ));
    assert(s[gap] == s.subrange(pos, end)[gap - pos]);
    assert(s[gap + 1] == s.subrange(pos, end)[gap + 1 - pos]);
    assert(s[gap + 2] == s.subrange(pos, end)[gap + 2 - pos]);
    assert forall|k: int| 0 <= k < plain(left).len() implies s.subrange(pos, gap)[k] == plain(
        left,
    )[k] by {
        assert(s[pos + k] == s.subrange(pos, end)[k]);
    }
    assert(s.subrange(pos, gap) =~= plain(left));
    assert forall|k: int| 0 <= k < plain(right).len() implies s.subrange(from, end)[k] == plain(
        right,
    )[k] by {
        assert(s[from + k] == s.subrange(pos, end)[from - pos + k]);
    }
    assert(s.subrange(from, end) =~= plain(right));
}

/// The tokens of `s` from character `pos` on, white space aside.
#[verifier::opaque]
pub open spec fn read_from(s: Seq<char>, pos: int) -> Seq<TokenView> {
    significant(lex_from(s, pos))
}

/// The tokens read where a space or a line break stands are those read
/// behind it.
pub proof fn lemma_skip_space(s: Seq<char>, pos: int)
    requires
        0 <= pos < s.len(),
        s[pos] == ' ' || s[pos] == '\n',
    ensures
        read_from(s, pos) == read_from(s, pos + 1),
{
    reveal(read_from);
    lemma_single_character_token(s, pos);
    lemma_significant_first(token_at(s, pos), lex_from(s, pos + 1));
}

/// The tokens read where a parenthesis, an operator or the sign `=`
/// stands are its token and those read behind it.
pub proof fn lemma_read_punctuation(s: Seq<char>, pos: int)
    requires
        0 <= pos < s.len(),
        s[pos] == '(' || s[pos] == ')' || s[pos] == '+' || s[pos] == '-' || s[pos] == '*' || s[pos]
            == '/' || s[pos] == '=',
    ensures
        read_from(s, pos) == seq![token_at(s, pos)] + read_from(s, pos + 1),
        token_at(s, pos).kind == punctuation_kind(s[pos]),
        !is_identifier_part(s[pos]),
{
    reveal(read_from);
    lemma_single_character_token(s, pos);
    lemma_significant_first(token_at(s, pos), lex_from(s, pos + 1));
}

/// Whether the tokens read at `pos` are those of `expression`, followed
/// by the tokens of what comes after its text.
pub open spec fn reads_as(expression: ExpressionView, s: Seq<char>, pos: int) -> bool {
    &&& read_from(s, pos) == printed_tokens(expression, s, pos) + read_from(s, pos + plain(expression).len())
    &&& printed_tokens(expression, s, pos).len() == width(expression)
    &&& plain(expression).len() >= 1
}

/// A group is read as its parentheses around what its inside is read as.
pub proof fn lemma_group_reads(inner: ExpressionView, s: Seq<char>, pos: int)
    requires
        stands_at(ExpressionView::Parenthesized(Box::new(inner)), s, pos),
        reads_as(inner, s, pos + 1),
    ensures
        reads_as(ExpressionView::Parenthesized(Box::new(inner)), s, pos),
{
    let whole = ExpressionView::Parenthesized(Box::new(inner));
    let close = pos + 1 + plain(inner).len();
    lemma_group_stands(inner, s, pos);
    lemma_read_punctuation(s, pos);
    lemma_read_punctuation(s, close);
    let first = seq![token_at(s, pos)];
    let inside = printed_tokens(inner, s, pos + 1);
    let last = seq![token_at(s, close)];
    let after = read_from(s, close + 1);
    assert(printed_tokens(whole, s, pos) == first + inside + last);
    assert(read_from(s, pos) == first + (inside + (last + after)));
    assert(first + (inside + (last + after)) =~= (first + inside + last) + after);
}

/// A binary expression is read as what its operands are read as, with the
/// token of the operator between them.
pub proof fn lemma_binary_reads(
    operator: OperatorView,
    left: ExpressionView,
    right: ExpressionView,
    s: Seq<char>,
    pos: int,
)
    requires
        stands_at(
            ExpressionView::Binary { operator, left: Box::new(left), right: Box::new(right) },
            s,
            pos,
        ),
        operator.token.span.literal == seq![operator_char(operator.kind)],
        reads_as(left, s, pos),
        reads_as(right, s, pos + plain(left).len() + 3),
    ensures
        reads_as(
            ExpressionView::Binary { operator, left: Box::new(left), right: Box::new(right) },
            s,
            pos,
        ),
{
    let whole = ExpressionView::Binary { operator, left: Box::new(left), right: Box::new(right) };
    let gap = pos + plain(left).len();
    lemma_binary_stands(operator, left, right, s, pos);
    lemma_skip_space(s, gap);
    lemma_read_punctuation(s, gap + 1);
    lemma_skip_space(s, gap + 2);
    let first = printed_tokens(left, s, pos);
    let sign = seq![token_at(s, gap + 1)];
    let second = printed_tokens(right, s, gap + 3);
    let after = read_from(s, pos + plain(whole).len());
    assert(printed_tokens(whole, s, pos) == first + sign + second);
    assert(read_from(s, pos) == first + (sign + (second + after)));
    assert(first + (sign + (second + after)) =~= (first + sign + second) + after);
}

/// A number or a name is read as its one token.
pub proof fn lemma_operand_reads(expression: ExpressionView, s: Seq<char>, pos: int)
    requires
        printable(expression),
        stands_at(expression, s, pos),
        expression is Number || expression is Variable,
    ensures
        reads_as(expression, s, pos),
{
    reveal(read_from);
    let end = pos + plain(expression).len();
    match expression {
        ExpressionView::Number(number) => {
            lemma_number_token(s, pos, number);
            lemma_significant_first(token_at(s, pos), lex_from(s, end));
        },
        ExpressionView::Variable(token) => {
            lemma_name_token(s, pos, token);
            lemma_significant_first(token_at(s, pos), lex_from(s, end));
        },
        _ => {},
    }
}

/// Where the text of a printable expression stands, the tokens read are
/// those of the expression, followed by the tokens of what comes after.
pub proof fn lemma_printed_tokens(expression: ExpressionView, s: Seq<char>, pos: int)
    requires
        printable(expression),
        stands_at(expression, s, pos),
    ensures
        reads_as(expression, s, pos),
    decreases expression,
{
    match expression {
        ExpressionView::Parenthesized(inner) => {
            lemma_group_stands(*inner, s, pos);
            lemma_printed_tokens(*inner, s, pos + 1);
            lemma_group_reads(*inner, s, pos);
        },
        ExpressionView::Binary { operator, left, right } => {
            lemma_binary_stands(operator, *left, *right, s, pos);
            lemma_printed_tokens(*left, s, pos);
            lemma_printed_tokens(*right, s, pos + plain(*left).len() + 3);
            lemma_binary_reads(operator, *left, *right, s, pos);
        },
        _ => {
            lemma_operand_reads(expression, s, pos);
        },
    }
}

/// Whether the tokens from `at` on are those of `expression` as it
/// stands in `s` at `pos`.
pub open spec fn holds_tokens(
    tokens: Seq<TokenView>,
    at: int,
    expression: ExpressionView,
    s: Seq<char>,
    pos: int,
) -> bool {
    &&& 0 <= at
    &&& at + width(expression) <= tokens.len()
    &&& tokens.subrange(at, at + width(expression)) == printed_tokens(expression, s, pos)
}

/// Whether the tokens from `at` on spell the tree that is read back from
/// the text of `expression`, and that tree has the shape of `expression`.
pub open spec fn read_back(
    tokens: Seq<TokenView>,
    at: int,
    expression: ExpressionView,
    s: Seq<char>,
    pos: int,
) -> bool {
    &&& spells(tokens, at, reread(expression, s, pos))
    &&& same_shape(expression, reread(expression, s, pos))
    &&& width(reread(expression, s, pos)) == width(expression)
    &&& level(reread(expression, s, pos)) == level(expression)
}

/// The tokens of a group are its parentheses around the tokens of its inside.
pub proof fn lemma_group_tokens(
    tokens: Seq<TokenView>,
    at: int,
    inner: ExpressionView,
    s: Seq<char>,
    pos: int,
)
    requires
        holds_tokens(tokens, at, ExpressionView::Parenthesized(Box::new(inner)), s, pos),
        printed_tokens(inner, s, pos + 1).len() == width(inner),
    ensures
        tokens[at] == token_at(s, pos),
        tokens[at + 1 + width(inner)] == token_at(s, pos + 1 + plain(inner).len()),
        holds_tokens(tokens, at + 1, inner, s, pos + 1),
{
    let whole = ExpressionView::Parenthesized(Box::new(inner));
    let all = printed_tokens(whole, s, pos);
    let inside = printed_tokens(inner, s, pos + 1);
    let cut = tokens.subrange(at, at + width(whole));
    assert(all == seq![token_at(s, pos)] + inside + seq![
        token_at(s, pos + 1 + plain(inner).len()),
    ]);
    assert(tokens[at] == cut[0]);
    assert(tokens[at + 1 + width(inner)] == cut[1 + width(inner) as int]);
    assert forall|k: int| 0 <= k < width(inner) implies tokens.subrange(
        at + 1,
        at + 1 + width(inner),
    )[k] == inside[k] by {
        assert(tokens[at + 1 + k] == cut[k + 1]);
    }
    assert(tokens.subrange(at + 1, at + 1 + width(inner)) =~= inside);
}

/// The tokens of a binary expression are those of its operands with the
/// token of the operator between them.
pub proof fn lemma_binary_tokens(
    tokens: Seq<TokenView>,
    at: int,
    operator: OperatorView,
    left: ExpressionView,
    right: ExpressionView,
    s: Seq<char>,
    pos: int,
)
    requires
        holds_tokens(
            tokens,
            at,
            ExpressionView::Binary { operator, left: Box::new(left), right: Box::new(right) },
            s,
            pos,
        ),
        printed_tokens(left, s, pos).len() == width(left),
        printed_tokens(right, s, pos + plain(left).len() + 3).len() == width(right),
    ensures
        holds_tokens(tokens, at, left, s, pos),
        tokens[at + width(left)] == token_at(s, pos + plain(left).len() + 1),
        holds_tokens(tokens, at + width(left) + 1, right, s, pos + plain(left).len() + 3),
{
    let whole = ExpressionView::Binary { operator, left: Box::new(left), right: Box::new(right) };
    let first = printed_tokens(left, s, pos);
    let second = printed_tokens(right, s, pos + plain(left).len() + 3);
    let cut = tokens.subrange(at, at + width(whole));
    assert(printed_tokens(whole, s, pos) == first + seq![
        token_at(s, pos + plain(left).len() + 1),
    ] + second);
    assert(tokens[at + width(left)] == cut[width(left) as int]);
    assert forall|k: int| 0 <= k < width(left) implies tokens.subrange(at, at + width(left))[k]
        == first[k] by {
        assert(tokens[at + k] == cut[k]);
    }
    assert(tokens.subrange(at, at + width(left)) =~= first);
    assert forall|k: int| 0 <= k < width(right) implies tokens.subrange(
        at + width(left) + 1,
        at + width(left) + 1 + width(right),
    )[k] == second[k] by {
        assert(tokens[at + width(left) + 1 + k] == cut[width(left) as int + 1 + k]);
    }
    assert(tokens.subrange(at + width(left) + 1, at + width(left) + 1 + width(right))
        =~= second);
}

/// A group is read back where its inside is.
pub proof fn lemma_group_read_back(
    tokens: Seq<TokenView>,
    at: int,
    inner: ExpressionView,
    s: Seq<char>,
    pos: int,
)
    requires
        stands_at(ExpressionView::Parenthesized(Box::new(inner)), s, pos),
        holds_tokens(tokens, at, ExpressionView::Parenthesized(Box::new(inner)), s, pos),
        tokens[at] == token_at(s, pos),
        tokens[at + 1 + width(inner)] == token_at(s, pos + 1 + plain(inner).len()),
        read_back(tokens, at + 1, inner, s, pos + 1),
    ensures
        read_back(tokens, at, ExpressionView::Parenthesized(Box::new(inner)), s, pos),
{
    lemma_group_stands(inner, s, pos);
    lemma_read_punctuation(s, pos);
    lemma_read_punctuation(s, pos + 1 + plain(inner).len());
}

/// A binary expression is read back where its operands are.
pub proof fn lemma_binary_read_back(
    tokens: Seq<TokenView>,
    at: int,
    operator: OperatorView,
    left: ExpressionView,
    right: ExpressionView,
    s: Seq<char>,
    pos: int,
)
    requires
        stands_at(
            ExpressionView::Binary { operator, left: Box::new(left), right: Box::new(right) },
            s,
            pos,
        ),
        operator.token.span.literal == seq![operator_char(operator.kind)],
        level(left) >= precedence_of(operator.kind),
        level(right) > precedence_of(operator.kind),
        holds_tokens(
            tokens,
            at,
            ExpressionView::Binary { operator, left: Box::new(left), right: Box::new(right) },
            s,
            pos,
        ),
        tokens[at + width(left)] == token_at(s, pos + plain(left).len() + 1),
        read_back(tokens, at, left, s, pos),
        read_back(tokens, at + width(left) + 1, right, s, pos + plain(left).len() + 3),
    ensures
        read_back(
            tokens,
            at,
            ExpressionView::Binary { operator, left: Box::new(left), right: Box::new(right) },
            s,
            pos,
        ),
{
    lemma_binary_stands(operator, left, right, s, pos);
    lemma_read_punctuation(s, pos + plain(left).len() + 1);
}

/// Where the tokens of a printable expression stand among tokens, they
/// spell a tree of the same shape.
pub proof fn lemma_read_back(
    tokens: Seq<TokenView>,
    at: int,
    expression: ExpressionView,
    s: Seq<char>,
    pos: int,
)
    requires
        printable(expression),
        stands_at(expression, s, pos),
        holds_tokens(tokens, at, expression, s, pos),
    ensures
        read_back(tokens, at, expression, s, pos),
    decreases expression,
{
    match expression {
        ExpressionView::Number(number) => {
            lemma_number_token(s, pos, number);
            assert(tokens[at] == tokens.subrange(at, at + 1)[0]);
        },
        ExpressionView::Variable(token) => {
            lemma_name_token(s, pos, token);
            assert(tokens[at] == tokens.subrange(at, at + 1)[0]);
        },
        ExpressionView::Parenthesized(inner) => {
            lemma_group_stands(*inner, s, pos);
            lemma_printed_tokens(*inner, s, pos + 1);
            lemma_group_tokens(tokens, at, *inner, s, pos);
            lemma_read_back(tokens, at + 1, *inner, s, pos + 1);
            lemma_group_read_back(tokens, at, *inner, s, pos);
        },
        ExpressionView::Binary { operator, left, right } => {
            lemma_binary_stands(operator, *left, *right, s, pos);
            lemma_printed_tokens(*left, s, pos);
            lemma_printed_tokens(*right, s, pos + plain(*left).len() + 3);
            lemma_binary_tokens(tokens, at, operator, *left, *right, s, pos);
            lemma_read_back(tokens, at, *left, s, pos);
            lemma_read_back(tokens, at + width(*left) + 1, *right, s, pos + plain(*left).len() + 3);
            lemma_binary_read_back(tokens, at, operator, *left, *right, s, pos);
        },
        ExpressionView::Error(_) => {},
    }
}

/// Whether the statement is of the form in which the parser gives
/// statements: a printable expression, or a `let` with a name that can be
/// read as a name and a printable initializer.
pub open spec fn printable_statement(statement: StatementView) -> bool {
    match statement {
        StatementView::Expression(expression) => printable(expression),
        StatementView::Let { identifier, initializer } => is_name(identifier.span.literal)
            && printable(initializer),
    }
}

/// The statement as text without escape sequences and without its line break.
pub open spec fn plain_statement(statement: StatementView) -> Seq<char> {
    match statement {
        StatementView::Expression(expression) => plain(expression),
        StatementView::Let { identifier, initializer } => seq!['l', 'e', 't', ' ']
            + identifier.span.literal + seq![' ', '=', ' '] + plain(initializer),
    }
}

/// The number of tokens that a statement is written with.
pub open spec fn statement_width(statement: StatementView) -> nat {
    match statement {
        StatementView::Expression(expression) => width(expression),
        StatementView::Let { identifier: _, initializer } => 3 + width(initializer),
    }
}

/// The statement that is read back where the text of `statement` stands
/// in `s` at character `pos`.
pub open spec fn reread_statement(statement: StatementView, s: Seq<char>, pos: int) -> StatementView {
    match statement {
        StatementView::Expression(expression) => StatementView::Expression(
            reread(expression, s, pos),
        ),
        StatementView::Let { identifier, initializer } => StatementView::Let {
            identifier: token_at(s, pos + 4),
            initializer: reread(initializer, s, pos + identifier.span.literal.len() + 7),
        },
    }
}

/// The tokens, white space aside, of the text of `statement` where it
/// stands in `s` at character `pos`.
pub open spec fn statement_tokens(statement: StatementView, s: Seq<char>, pos: int) -> Seq<TokenView> {
    match statement {
        StatementView::Expression(expression) => printed_tokens(expression, s, pos),
        StatementView::Let { identifier, initializer } => seq![
            token_at(s, pos),
            token_at(s, pos + 4),
            token_at(s, pos + identifier.span.literal.len() + 5),
        ] + printed_tokens(initializer, s, pos + identifier.span.literal.len() + 7),
    }
}

/// Whether the text of `statement` stands in `s` at character `pos` with
/// a line break behind it.
pub open spec fn line_stands_at(statement: StatementView, s: Seq<char>, pos: int) -> bool {
    let end = pos + plain_statement(statement).len();
    &&& 0 <= pos
    &&& end < s.len()
    &&& s.subrange(pos, end) == plain_statement(statement)
    &&& s[end] == '\n'
}

/// Whether two statements differ at most in the spans of their tokens.
pub open spec fn same_statement_shape(a: StatementView, b: StatementView) -> bool {
    match (a, b) {
        (StatementView::Expression(x), StatementView::Expression(y)) => same_shape(x, y),
        (
            StatementView::Let { identifier: name, initializer: x },
            StatementView::Let { identifier: other_name, initializer: y },
        ) => name.span.literal == other_name.span.literal && same_shape(x, y),
        _ => false,
    }
}

/// The token read where the keyword `let` stands before a space.
pub proof fn lemma_keyword_token(s: Seq<char>, pos: int)
    requires
        0 <= pos,
        pos + 3 < s.len(),
        s[pos] == 'l',
        s[pos + 1] == 'e',
        s[pos + 2] == 't',
        s[pos + 3] == ' ',
    ensures
        token_kind(s, pos) == TokenKind::Let,
        read_from(s, pos) == seq![token_at(s, pos)] + read_from(s, pos + 3),
{
    reveal(read_from);
    assert forall|k: int| pos <= k < pos + 3 implies is_identifier_part(#[trigger] s[k]) by {
        if k == pos {
        } else if k == pos + 1 {
        } else {
            assert(k == pos + 2);
        }
    }
    lemma_identifier_end_is(s, pos, pos + 3);
    assert(s.subrange(pos, pos + 3) =~= let_keyword());
    lemma_significant_first(token_at(s, pos), lex_from(s, pos + 3));
}

/// Where the line of a `let` stands, its keyword, its name, the sign and
/// the text of its initializer stand.
pub proof fn lemma_let_stands(
    identifier: TokenView,
    initializer: ExpressionView,
    s: Seq<char>,
    pos: int,
)
    requires
        line_stands_at(StatementView::Let { identifier, initializer }, s, pos),
    ensures
        ({
            let n = identifier.span.literal.len() as int;
            &&& plain_statement(StatementView::Let { identifier, initializer }).len() == n + 7
                + plain(initializer).len()
            &&& pos + n + 7 + plain(initializer).len() < s.len()
            &&& s[pos] == 'l'
            &&& s[pos + 1] == 'e'
            &&& s[pos + 2] == 't'
            &&& s[pos + 3] == ' '
            &&& stands_at(ExpressionView::Variable(identifier), s, pos + 4)
            &&& s[pos + n + 4] == ' '
            &&& s[pos + n + 5] == '='
            &&& s[pos + n + 6] == ' '
            &&& stands_at(initializer, s, pos + n + 7)
            &&& s[pos + n + 7 + plain(initializer).len()] == '\n'
        }),
{
    let whole = plain_statement(StatementView::Let { identifier, initializer });
    let name = identifier.span.literal;
    let n = name.len() as int;
    let end = pos + whole.len();
    let cut = s.subrange(pos, end);
    assert(whole == seq!['l', 'e', 't', ' '] + name + seq![' ', '=', ' '] + plain(initializer));
    assert(s[pos] == cut[0]);
    assert(s[pos + 1] == cut[1]);
    assert(s[pos + 2] == cut[2]);
    assert(s[pos + 3] == cut[3]);
    assert(s[pos + n + 4] == cut[n + 4]);
    assert(s[pos + n + 5] == cut[n + 5]);
    assert(s[pos + n + 6] == cut[n + 6]);
    assert forall|k: int| 0 <= k < n implies s.subrange(pos + 4, pos + 4 + n)[k] == name[k] by {
        assert(s[pos + 4 + k] == cut[4 + k]);
    }
    assert(s.subrange(pos + 4, pos + 4 + n) =~= name);
    assert forall|k: int| 0 <= k < plain(initializer).len() implies s.subrange(
        pos + n + 7,
        end,
    )[k] == plain(initializer)[k] by {
        assert(s[pos + n + 7 + k] == cut[n + 7 + k]);
    }
    assert(s.subrange(pos + n + 7, end) =~= plain(initializer));
}

/// Whether the tokens read at `pos` are those of `statement`, followed by
/// the tokens of what comes after its line.
pub open spec fn line_reads_as(statement: StatementView, s: Seq<char>, pos: int) -> bool {
    &&& read_from(s, pos) == statement_tokens(statement, s, pos) + read_from(s, pos + plain_statement(statement).len() + 1)
    &&& statement_tokens(statement, s, pos).len() == statement_width(statement)
    &&& statement_width(statement) >= 1
    &&& operator_kind(statement_tokens(statement, s, pos)[0].kind).is_none()
    &&& statement_tokens(statement, s, pos)[0].kind != TokenKind::EOF
}

/// The first token of a printable expression is a number, a name or an
/// opening parenthesis.
pub proof fn lemma_first_token(expression: ExpressionView, s: Seq<char>, pos: int)
    requires
        printable(expression),
        stands_at(expression, s, pos),
    ensures
        printed_tokens(expression, s, pos).len() >= 1,
        operator_kind(printed_tokens(expression, s, pos)[0].kind).is_none(),
        printed_tokens(expression, s, pos)[0].kind != TokenKind::EOF,
        printed_tokens(expression, s, pos)[0].kind != TokenKind::Let,
    decreases expression,
{
    match expression {
        ExpressionView::Number(number) => {
            lemma_number_token(s, pos, number);
        },
        ExpressionView::Variable(token) => {
            lemma_name_token(s, pos, token);
        },
        ExpressionView::Parenthesized(inner) => {
            lemma_group_stands(*inner, s, pos);
            lemma_read_punctuation(s, pos);
        },
        ExpressionView::Binary { operator, left, right } => {
            lemma_binary_stands(operator, *left, *right, s, pos);
            lemma_first_token(*left, s, pos);
        },
        ExpressionView::Error(_) => {},
    }
}

/// The line of an expression is read as the tokens of the expression.
pub proof fn lemma_expression_line_reads(expression: ExpressionView, s: Seq<char>, pos: int)
    requires
        printable(expression),
        line_stands_at(StatementView::Expression(expression), s, pos),
    ensures
        stands_at(expression, s, pos),
        line_reads_as(StatementView::Expression(expression), s, pos),
{
    lemma_printed_tokens(expression, s, pos);
    lemma_first_token(expression, s, pos);
    lemma_skip_space(s, pos + plain(expression).len());
}

/// The line of a `let` is read as the keyword, the name, the sign and the
/// tokens of the initializer.
pub proof fn lemma_let_line_reads(
    identifier: TokenView,
    initializer: ExpressionView,
    s: Seq<char>,
    pos: int,
)
    requires
        is_name(identifier.span.literal),
        printable(initializer),
        line_stands_at(StatementView::Let { identifier, initializer }, s, pos),
    ensures
        line_reads_as(StatementView::Let { identifier, initializer }, s, pos),
        token_at(s, pos).kind == TokenKind::Let,
        token_at(s, pos + 4).kind == TokenKind::Identifier,
        token_at(s, pos + 4).span.literal == identifier.span.literal,
        token_at(s, pos + identifier.span.literal.len() + 5).kind == TokenKind::Equals,
{
    let n = identifier.span.literal.len() as int;
    let statement = StatementView::Let { identifier, initializer };
    let end = pos + n + 7 + plain(initializer).len();
    lemma_let_stands(identifier, initializer, s, pos);
    lemma_keyword_token(s, pos);
    lemma_skip_space(s, pos + 3);
    lemma_name_token(s, pos + 4, identifier);
    lemma_operand_reads(ExpressionView::Variable(identifier), s, pos + 4);
    lemma_skip_space(s, pos + n + 4);
    lemma_read_punctuation(s, pos + n + 5);
    lemma_skip_space(s, pos + n + 6);
    lemma_printed_tokens(initializer, s, pos + n + 7);
    lemma_skip_space(s, end);
    let a = seq![token_at(s, pos)];
    let b = seq![token_at(s, pos + 4)];
    let c = seq![token_at(s, pos + n + 5)];
    let d = printed_tokens(initializer, s, pos + n + 7);
    let after = read_from(s, end + 1);
    assert(read_from(s, pos) == a + (b + (c + (d + after))));
    assert(statement_tokens(statement, s, pos) =~= a + b + c + d);
    assert(a + (b + (c + (d + after))) =~= (a + b + c + d) + after);
}

/// The line of a printable statement is read as the tokens of the statement.
pub proof fn lemma_line_reads(statement: StatementView, s: Seq<char>, pos: int)
    requires
        printable_statement(statement),
        line_stands_at(statement, s, pos),
    ensures
        line_reads_as(statement, s, pos),
{
    match statement {
        StatementView::Expression(expression) => {
            lemma_expression_line_reads(expression, s, pos);
        },
        StatementView::Let { identifier, initializer } => {
            lemma_let_line_reads(identifier, initializer, s, pos);
        },
    }
}

/// Whether the tokens from `at` on are those of `statement` as it stands
/// in `s` at `pos`, and no operator follows them.
pub open spec fn holds_line(
    tokens: Seq<TokenView>,
    at: int,
    statement: StatementView,
    s: Seq<char>,
    pos: int,
) -> bool {
    &&& 0 <= at
    &&& at + statement_width(statement) <= tokens.len()
    &&& tokens.subrange(at, at + statement_width(statement)) == statement_tokens(
        statement,
        s,
        pos,
    )
    &&& operator_kind(token_or_end(tokens, at + statement_width(statement)).kind).is_none()
}

/// What reading the statement back gives.
pub open spec fn read_line(
    statement: StatementView,
    s: Seq<char>,
    pos: int,
    at: int,
    diagnostics: Seq<DiagnosticView>,
) -> ParsedStatement {
    ParsedStatement {
        statement: reread_statement(statement, s, pos),
        position: at + statement_width(statement),
        diagnostics,
    }
}

/// The tokens of the line of an expression are parsed into an expression
/// of the same shape, without a diagnostic.
pub proof fn lemma_expression_line_parses(
    tokens: Seq<TokenView>,
    at: int,
    expression: ExpressionView,
    s: Seq<char>,
    pos: int,
    diagnostics: Seq<DiagnosticView>,
)
    requires
        printable(expression),
        line_stands_at(StatementView::Expression(expression), s, pos),
        holds_line(tokens, at, StatementView::Expression(expression), s, pos),
    ensures
        parse_statement(tokens, at, diagnostics) == Some(
            read_line(StatementView::Expression(expression), s, pos, at, diagnostics),
        ),
        same_shape(expression, reread(expression, s, pos)),
{
    lemma_expression_line_reads(expression, s, pos);
    lemma_first_token(expression, s, pos);
    lemma_read_back(tokens, at, expression, s, pos);
    assert(tokens[at] == tokens.subrange(at, at + width(expression))[0]);
    lemma_parse_binary_reads(tokens, at, diagnostics, reread(expression, s, pos), 0);
}

/// The tokens of the line of a `let` are parsed into a `let` of the same
/// shape, without a diagnostic.
pub proof fn lemma_let_line_parses(
    tokens: Seq<TokenView>,
    at: int,
    identifier: TokenView,
    initializer: ExpressionView,
    s: Seq<char>,
    pos: int,
    diagnostics: Seq<DiagnosticView>,
)
    requires
        is_name(identifier.span.literal),
        printable(initializer),
        line_stands_at(StatementView::Let { identifier, initializer }, s, pos),
        holds_line(tokens, at, StatementView::Let { identifier, initializer }, s, pos),
    ensures
        parse_statement(tokens, at, diagnostics) == Some(
            read_line(StatementView::Let { identifier, initializer }, s, pos, at, diagnostics),
        ),
        same_statement_shape(
            StatementView::Let { identifier, initializer },
            reread_statement(StatementView::Let { identifier, initializer }, s, pos),
        ),
{
    let statement = StatementView::Let { identifier, initializer };
    let n = identifier.span.literal.len() as int;
    let from = pos + n + 7;
    let cut = tokens.subrange(at, at + statement_width(statement));
    let head = seq![token_at(s, pos), token_at(s, pos + 4), token_at(s, pos + n + 5)];
    let tail = printed_tokens(initializer, s, from);
    lemma_let_stands(identifier, initializer, s, pos);
    lemma_let_line_reads(identifier, initializer, s, pos);
    lemma_printed_tokens(initializer, s, from);
    assert(cut == head + tail);
    assert(tokens[at] == cut[0]);
    assert(tokens[at + 1] == cut[1]);
    assert(tokens[at + 2] == cut[2]);
    assert forall|k: int| 0 <= k < width(initializer) implies tokens.subrange(
        at + 3,
        at + 3 + width(initializer),
    )[k] == tail[k] by {
        assert(tokens[at + 3 + k] == cut[3 + k]);
    }
    assert(tokens.subrange(at + 3, at + 3 + width(initializer)) =~= tail);
    lemma_read_back(tokens, at + 3, initializer, s, from);
    lemma_parse_binary_reads(tokens, at + 3, diagnostics, reread(initializer, s, from), 0);
}

/// The tokens of the line of a printable statement are parsed into a
/// statement of the same shape, without a diagnostic.
pub proof fn lemma_line_parses(
    tokens: Seq<TokenView>,
    at: int,
    statement: StatementView,
    s: Seq<char>,
    pos: int,
    diagnostics: Seq<DiagnosticView>,
)
    requires
        printable_statement(statement),
        line_stands_at(statement, s, pos),
        holds_line(tokens, at, statement, s, pos),
    ensures
        parse_statement(tokens, at, diagnostics) == Some(
            read_line(statement, s, pos, at, diagnostics),
        ),
        same_statement_shape(statement, reread_statement(statement, s, pos)),
{
    match statement {
        StatementView::Expression(expression) => {
            lemma_expression_line_parses(tokens, at, expression, s, pos, diagnostics);
        },
        StatementView::Let { identifier, initializer } => {
            lemma_let_line_parses(tokens, at, identifier, initializer, s, pos, diagnostics);
        },
    }
}

/// The program as text without escape sequences: each statement on a
/// line of its own.
pub open spec fn plain_program(statements: Seq<StatementView>) -> Seq<char>
    decreases statements.len(),
{
    if statements.len() == 0 {
        Seq::empty()
    } else {
        plain_statement(statements[0]) + seq!['\n'] + plain_program(statements.drop_first())
    }
}

/// The statements that are read back where the text of `statements`
/// stands in `s` from character `pos` on.
pub open spec fn reread_program(statements: Seq<StatementView>, s: Seq<char>, pos: int) -> Seq<
    StatementView,
>
    decreases statements.len(),
{
    if statements.len() == 0 {
        Seq::empty()
    } else {
        seq![reread_statement(statements[0], s, pos)] + reread_program(
            statements.drop_first(),
            s,
            pos + plain_statement(statements[0]).len() + 1,
        )
    }
}

/// Whether every statement is printable.
pub open spec fn printable_program(statements: Seq<StatementView>) -> bool {
    forall|i: int| 0 <= i < statements.len() ==> printable_statement(#[trigger] statements[i])
}

/// Whether the two programs have as many statements, each of the shape of
/// its counterpart.
pub open spec fn same_program_shape(a: Seq<StatementView>, b: Seq<StatementView>) -> bool {
    &&& a.len() == b.len()
    &&& forall|i: int| 0 <= i < a.len() ==> same_statement_shape(#[trigger] a[i], b[i])
}

/// Whether the text of `statements` is what stands in `s` from `pos` on.
pub open spec fn program_stands_at(statements: Seq<StatementView>, s: Seq<char>, pos: int) -> bool {
    &&& 0 <= pos <= s.len()
    &&& s.subrange(pos, s.len() as int) == plain_program(statements)
}

/// At the end of the text only the closing token is read.
pub proof fn lemma_read_end(s: Seq<char>)
    ensures
        read_from(s, s.len() as int) == seq![end_token(s)],
{
    reveal(read_from);
    let nothing = Seq::<TokenView>::empty();
    assert(lex_from(s, s.len() as int) =~= seq![end_token(s)] + nothing);
    lemma_significant_first(end_token(s), nothing);
    reveal_with_fuel(Seq::filter, 1);
    assert(significant(nothing) =~= nothing);
    assert(seq![end_token(s)] + nothing =~= seq![end_token(s)]);
}

/// Where the text of a program stands, the line of its first statement
/// stands, and behind it the text of the other statements.
pub proof fn lemma_first_line_stands(statements: Seq<StatementView>, s: Seq<char>, pos: int)
    requires
        statements.len() > 0,
        program_stands_at(statements, s, pos),
    ensures
        line_stands_at(statements[0], s, pos),
        program_stands_at(
            statements.drop_first(),
            s,
            pos + plain_statement(statements[0]).len() + 1,
        ),
{
    let line = plain_statement(statements[0]);
    let rest = plain_program(statements.drop_first());
    let cut = s.subrange(pos, s.len() as int);
    let end = pos + line.len();
    assert(cut == line + seq!['\n'] + rest);
    assert(s[end] == cut[line.len() as int]);
    assert forall|k: int| 0 <= k < line.len() implies s.subrange(pos, end)[k] == line[k] by {
        assert(s[pos + k] == cut[k]);
    }
    assert(s.subrange(pos, end) =~= line);
    assert forall|k: int| 0 <= k < rest.len() implies s.subrange(end + 1, s.len() as int)[k]
        == rest[k] by {
        assert(s[end + 1 + k] == cut[line.len() + 1 + k]);
    }
    assert(s.subrange(end + 1, s.len() as int) =~= rest);
}

/// The first token read where the text of a printable program stands is
/// no operator: it begins a statement or is the closing token.
pub proof fn lemma_program_begins(statements: Seq<StatementView>, s: Seq<char>, pos: int)
    requires
        printable_program(statements),
        program_stands_at(statements, s, pos),
    ensures
        read_from(s, pos).len() >= 1,
        operator_kind(read_from(s, pos)[0].kind).is_none(),
        statements.len() == 0 ==> read_from(s, pos) == seq![end_token(s)],
{
    if statements.len() == 0 {
        assert(s.subrange(pos, s.len() as int).len() == 0);
        lemma_read_end(s);
    } else {
        lemma_first_line_stands(statements, s, pos);
        lemma_line_reads(statements[0], s, pos);
    }
}

/// Whether the tokens from `at` on are those read from character `pos` on.
pub open spec fn tokens_continue(tokens: Seq<TokenView>, at: int, s: Seq<char>, pos: int) -> bool {
    &&& 0 <= at <= tokens.len()
    &&& tokens.subrange(at, tokens.len() as int) == read_from(s, pos)
}

/// Where the tokens go on with the line of a statement, they hold its
/// tokens, and go on behind them with what is read behind the line.
pub proof fn lemma_tokens_of_first_line(
    tokens: Seq<TokenView>,
    at: int,
    statements: Seq<StatementView>,
    s: Seq<char>,
    pos: int,
)
    requires
        statements.len() > 0,
        printable_program(statements),
        program_stands_at(statements, s, pos),
        tokens_continue(tokens, at, s, pos),
    ensures
        holds_line(tokens, at, statements[0], s, pos),
        at < at + statement_width(statements[0]) < tokens.len(),
        tokens_continue(
            tokens,
            at + statement_width(statements[0]),
            s,
            pos + plain_statement(statements[0]).len() + 1,
        ),
{
    let first = statements[0];
    let after = pos + plain_statement(first).len() + 1;
    let w = statement_width(first) as int;
    let cut = tokens.subrange(at, tokens.len() as int);
    let mine = statement_tokens(first, s, pos);
    let rest = read_from(s, after);
    lemma_first_line_stands(statements, s, pos);
    lemma_line_reads(first, s, pos);
    assert(printable_program(statements.drop_first())) by {
        assert forall|i: int| 0 <= i < statements.drop_first().len() implies printable_statement(
            #[trigger] statements.drop_first()[i],
        ) by {
            assert(statements.drop_first()[i] == statements[i + 1]);
        }
    }
    lemma_program_begins(statements.drop_first(), s, after);
    assert(cut == mine + rest);
    assert(cut.len() == w + rest.len());
    assert forall|k: int| 0 <= k < w implies tokens.subrange(at, at + w)[k] == mine[k] by {
        assert(tokens[at + k] == cut[k]);
    }
    assert(tokens.subrange(at, at + w) =~= mine);
    assert forall|k: int| 0 <= k < rest.len() implies tokens.subrange(
        at + w,
        tokens.len() as int,
    )[k] == rest[k] by {
        assert(tokens[at + w + k] == cut[w + k]);
    }
    assert(tokens.subrange(at + w, tokens.len() as int) =~= rest);
    assert(tokens[at + w] == cut[w]);
    assert(cut[w] == rest[0]);
}

/// The tokens of the text of a printable program are parsed, without a
/// diagnostic, into a program of the same shape.
pub proof fn lemma_program_parses(
    tokens: Seq<TokenView>,
    at: int,
    statements: Seq<StatementView>,
    s: Seq<char>,
    pos: int,
    diagnostics: Seq<DiagnosticView>,
)
    requires
        printable_program(statements),
        program_stands_at(statements, s, pos),
        tokens_continue(tokens, at, s, pos),
    ensures
        parse_program(tokens, at, diagnostics).statements == reread_program(statements, s, pos),
        parse_program(tokens, at, diagnostics).diagnostics == diagnostics,
        same_program_shape(statements, reread_program(statements, s, pos)),
    decreases statements.len(),
{
    if statements.len() == 0 {
        lemma_program_begins(statements, s, pos);
        assert(tokens[at] == tokens.subrange(at, tokens.len() as int)[0]);
        assert(parse_statement(tokens, at, diagnostics).is_none());
    } else {
        let first = statements[0];
        let others = statements.drop_first();
        let after = pos + plain_statement(first).len() + 1;
        let next = at + statement_width(first);
        lemma_first_line_stands(statements, s, pos);
        lemma_tokens_of_first_line(tokens, at, statements, s, pos);
        lemma_line_parses(tokens, at, first, s, pos, diagnostics);
        assert(printable_program(others)) by {
            assert forall|i: int| 0 <= i < others.len() implies printable_statement(
                #[trigger] others[i],
            ) by {
                assert(others[i] == statements[i + 1]);
            }
        }
        lemma_program_parses(tokens, next, others, s, after, diagnostics);
        let again = reread_program(statements, s, pos);
        let again_others = reread_program(others, s, after);
        assert(again == seq![reread_statement(first, s, pos)] + again_others);
        assert forall|i: int| 0 <= i < statements.len() implies same_statement_shape(
            #[trigger] statements[i],
            again[i],
        ) by {
            if i > 0 {
                assert(statements[i] == others[i - 1]);
                assert(again[i] == again_others[i - 1]);
            }
        }
    }
}

/// Statements of the same shape change the evaluator in the same way.
pub proof fn lemma_same_shape_same_step(a: StatementView, b: StatementView, state: EvaluatorView)
    requires
        same_statement_shape(a, b),
    ensures
        after_statement(state, a) == after_statement(state, b),
{
    match (a, b) {
        (StatementView::Expression(x), StatementView::Expression(y)) => {
            lemma_same_shape_same_value(x, y, state.variables);
        },
        (
            StatementView::Let { identifier: name, initializer: x },
            StatementView::Let { identifier: other_name, initializer: y },
        ) => {
            lemma_same_shape_same_value(x, y, state.variables);
        },
        _ => {},
    }
}

/// Programs of the same shape evaluate to the same.
pub proof fn lemma_same_shape_same_run(
    a: Seq<StatementView>,
    b: Seq<StatementView>,
    state: EvaluatorView,
)
    requires
        same_program_shape(a, b),
    ensures
        after_program(state, a) == after_program(state, b),
    decreases a.len(),
{
    if a.len() > 0 {
        assert(same_program_shape(a.drop_last(), b.drop_last())) by {
            assert forall|i: int| 0 <= i < a.drop_last().len() implies same_statement_shape(
                #[trigger] a.drop_last()[i],
                b.drop_last()[i],
            ) by {
                assert(a.drop_last()[i] == a[i]);
                assert(b.drop_last()[i] == b[i]);
            }
        }
        lemma_same_shape_same_run(a.drop_last(), b.drop_last(), state);
        assert(same_statement_shape(a[a.len() - 1], b[a.len() - 1]));
        lemma_same_shape_same_step(a.last(), b.last(), after_program(state, a.drop_last()));
    }
}

/// A printer without colours writes a statement as its plain text and a
/// line break.
pub proof fn lemma_plain_line(statement: StatementView)
    ensures
        rendered_statement(statement, no_colors()) == plain_statement(statement) + seq!['\n'],
{
    reveal_strlit(" ");
    reveal_strlit("=");
    reveal_strlit("let");
    reveal_strlit("\n");
    let nothing = Seq::<char>::empty();
    assert("\n"@ =~= seq!['\n']);
    match statement {
        StatementView::Expression(expression) => {
            lemma_plain_rendering(expression);
            assert(plain(expression) + nothing + seq!['\n'] =~= plain(expression) + seq!['\n']);
        },
        StatementView::Let { identifier, initializer } => {
            lemma_plain_rendering(initializer);
            assert("let"@ =~= seq!['l', 'e', 't']);
            assert(" "@ =~= seq![' ']);
            assert("="@ =~= seq!['=']);
            assert(nothing + seq!['l', 'e', 't'] + seq![' '] + nothing + identifier.span.literal
                + seq![' '] + nothing + seq!['='] + seq![' '] + plain(initializer) + nothing
                + seq!['\n'] =~= plain_statement(statement) + seq!['\n']);
        },
    }
}

/// The plain text of a program is that of its statements but the last,
/// and then the line of the last.
pub proof fn lemma_plain_program_last(statements: Seq<StatementView>)
    requires
        statements.len() > 0,
    ensures
        plain_program(statements) == plain_program(statements.drop_last()) + (plain_statement(
            statements.last(),
        ) + seq!['\n']),
    decreases statements.len(),
{
    let line = plain_statement(statements[0]) + seq!['\n'];
    let last = plain_statement(statements.last()) + seq!['\n'];
    if statements.len() == 1 {
        assert(statements.drop_first() =~= Seq::<StatementView>::empty());
        assert(statements.drop_last() =~= Seq::<StatementView>::empty());
        assert(plain_program(Seq::<StatementView>::empty()) =~= Seq::<char>::empty());
        assert(plain_program(statements) == plain_statement(statements[0]) + seq!['\n']
            + plain_program(statements.drop_first()));
        assert(plain_program(statements) =~= line);
        assert(plain_program(statements.drop_last()) + last =~= last);
    } else {
        let middle = statements.drop_first().drop_last();
        lemma_plain_program_last(statements.drop_first());
        assert(statements.drop_last().drop_first() =~= middle);
        assert(statements.drop_last()[0] == statements[0]);
        assert(statements.drop_first().last() == statements.last());
        assert(plain_program(statements) =~= line + (plain_program(middle) + last));
        assert(plain_program(statements.drop_last()) =~= line + plain_program(middle));
        assert(line + (plain_program(middle) + last) =~= (line + plain_program(middle)) + last);
    }
}

/// A printer without colours writes the plain text of the program.
pub proof fn lemma_plain_program(statements: Seq<StatementView>)
    ensures
        rendered_program(statements, no_colors()) == plain_program(statements),
    decreases statements.len(),
{
    if statements.len() > 0 {
        lemma_plain_program(statements.drop_last());
        lemma_plain_line(statements.last());
        lemma_plain_program_last(statements);
    }
}

/// Whether the literal of the token is what its kind is written as: a
/// number is not negative, a name can be read as a name, and an operator is
/// its one character.
pub open spec fn written_as_read(token: TokenView) -> bool {
    match token.kind {
        TokenKind::Number(number) => number >= 0,
        TokenKind::Identifier => is_name(token.span.literal),
        TokenKind::Plus => token.span.literal == seq!['+'],
        TokenKind::Minus => token.span.literal == seq!['-'],
        TokenKind::Asterisk => token.span.literal == seq!['*'],
        TokenKind::Slash => token.span.literal == seq!['/'],
        _ => true,
    }
}

/// Whether every token is written as it is read.
pub open spec fn all_written_as_read(tokens: Seq<TokenView>) -> bool {
    forall|i: int| 0 <= i < tokens.len() ==> written_as_read(#[trigger] tokens[i])
}

/// Every token that the lexer reads is written as it is read.
pub proof fn lemma_token_written_as_read(s: Seq<char>, pos: int)
    requires
        0 <= pos < s.len(),
    ensures
        written_as_read(token_at(s, pos)),
{
    let c = s[pos];
    if is_digit(c) {
    } else if is_whitespace(c) {
    } else if is_identifier_start(c) {
        let end = identifier_end(s, pos);
        lemma_identifier_end(s, pos);
        lemma_identifier_end(s, pos + 1);
        let name = s.subrange(pos, end);
        assert(name[0] == s[pos]);
        assert forall|i: int| 0 <= i < name.len() implies is_identifier_part(#[trigger] name[i]) by {
            assert(name[i] == s[pos + i]);
        }
    } else {
        assert(s.subrange(pos, pos + 1) =~= seq![c]);
    }
}

/// Every token of a source text is written as it is read.
pub proof fn lemma_lexed_written_as_read(s: Seq<char>, pos: int)
    requires
        0 <= pos <= s.len(),
    ensures
        all_written_as_read(lex_from(s, pos)),
    decreases s.len() - pos,
{
    if pos < s.len() {
        let end = token_end(s, pos);
        lemma_token_end(s, pos);
        lemma_token_written_as_read(s, pos);
        lemma_lexed_written_as_read(s, end);
        let rest = lex_from(s, end);
        let all = lex_from(s, pos);
        assert(all == seq![token_at(s, pos)] + rest);
        assert forall|i: int| 0 <= i < all.len() implies written_as_read(#[trigger] all[i]) by {
            if i > 0 {
                assert(all[i] == rest[i - 1]);
            }
        }
    }
}

/// The tokens that the parser works on are written as they are read.
pub proof fn lemma_significant_written_as_read(s: Seq<char>)
    ensures
        all_written_as_read(significant(lex(s))),
{
    let all = lex(s);
    let keep = |t: TokenView| t.kind != TokenKind::Whitespace;
    let kept = all.filter(keep);
    lemma_lexed_written_as_read(s, 0);
    assert forall|i: int| 0 <= i < kept.len() implies written_as_read(#[trigger] kept[i]) by {
        assert(kept.contains(kept[i]));
        all.lemma_filter_contains_rev(keep, kept[i]);
        let j = choose|j: int| 0 <= j < all.len() && all[j] == kept[i];
        assert(written_as_read(all[j]));
    }
}

/// An expression spelled by tokens that are written as they are read is
/// printable.
pub proof fn lemma_spelled_is_printable(tokens: Seq<TokenView>, pos: int, expression: ExpressionView)
    requires
        all_written_as_read(tokens),
        spells(tokens, pos, expression),
    ensures
        printable(expression),
    decreases expression,
{
    match expression {
        ExpressionView::Parenthesized(inner) => {
            lemma_spelled_is_printable(tokens, pos + 1, *inner);
        },
        ExpressionView::Binary { operator, left, right } => {
            lemma_spelled_is_printable(tokens, pos, *left);
            lemma_spelled_is_printable(tokens, pos + width(*left) + 1, *right);
            lemma_spelled(tokens, pos, *left);
            assert(written_as_read(tokens[pos + width(*left)]));
        },
        ExpressionView::Number(_) => {
            assert(written_as_read(tokens[pos]));
        },
        ExpressionView::Variable(_) => {
            assert(written_as_read(tokens[pos]));
        },
        ExpressionView::Error(_) => {},
    }
}

/// A statement read without a diagnostic from tokens that are written as
/// they are read is printable.
pub proof fn lemma_clean_statement_is_printable(
    tokens: Seq<TokenView>,
    pos: int,
    diagnostics: Seq<DiagnosticView>,
)
    requires
        0 <= pos,
        all_written_as_read(tokens),
        parse_statement(tokens, pos, diagnostics).is_some(),
        parse_statement(tokens, pos, diagnostics).unwrap().diagnostics.len() == diagnostics.len(),
    ensures
        printable_statement(parse_statement(tokens, pos, diagnostics).unwrap().statement),
{
    let token = token_or_end(tokens, pos);
    if token.kind == TokenKind::Let {
        let name = token_or_end(tokens, pos + 1);
        let first = if name.kind == TokenKind::Identifier {
            diagnostics
        } else {
            diagnostics.push(unexpected_token(TokenKind::Identifier, name))
        };
        let after_name = if name.kind == TokenKind::Identifier {
            pos + 2
        } else {
            pos + 1
        };
        let other = token_or_end(tokens, after_name);
        let second = if other.kind == TokenKind::Equals {
            first
        } else {
            first.push(unexpected_token(TokenKind::Equals, other))
        };
        let after_sign = if other.kind == TokenKind::Equals {
            after_name + 1
        } else {
            after_name
        };
        lemma_parse_binary_extends(tokens, after_sign, second, 0);
        lemma_parse_binary_sound(tokens, after_sign, second, 0);
        let read = parse_binary(tokens, after_sign, second, 0);
        lemma_spelled_is_printable(tokens, after_sign, read.expression);
        assert(written_as_read(tokens[pos + 1]));
    } else {
        lemma_parse_binary_sound(tokens, pos, diagnostics, 0);
        let read = parse_binary(tokens, pos, diagnostics, 0);
        lemma_spelled_is_printable(tokens, pos, read.expression);
    }
}

/// A program read without a diagnostic from tokens that are written as
/// they are read is printable.
pub proof fn lemma_clean_program_is_printable(
    tokens: Seq<TokenView>,
    pos: int,
    diagnostics: Seq<DiagnosticView>,
)
    requires
        0 <= pos,
        all_written_as_read(tokens),
        parse_program(tokens, pos, diagnostics).diagnostics.len() == diagnostics.len(),
    ensures
        printable_program(parse_program(tokens, pos, diagnostics).statements),
    decreases tokens.len() - pos,
{
    lemma_parse_statement_sound(tokens, pos, diagnostics);
    match parse_statement(tokens, pos, diagnostics) {
        None => {},
        Some(first) => {
            if pos < first.position <= tokens.len() {
                lemma_parse_program_sound(tokens, first.position, first.diagnostics);
                lemma_clean_statement_is_printable(tokens, pos, diagnostics);
                lemma_clean_program_is_printable(tokens, first.position, first.diagnostics);
                let rest = parse_program(tokens, first.position, first.diagnostics).statements;
                let all = parse_program(tokens, pos, diagnostics).statements;
                assert(all == seq![first.statement] + rest);
                assert forall|i: int| 0 <= i < all.len() implies printable_statement(
                    #[trigger] all[i],
                ) by {
                    if i > 0 {
                        assert(all[i] == rest[i - 1]);
                    }
                }
            } else {
                lemma_clean_statement_is_printable(tokens, pos, diagnostics);
            }
        },
    }
}

/// The program of every source text that is parsed without a diagnostic
/// is printable, so printing it and parsing the print gives it back.
pub proof fn lemma_parsed_program_is_printable(source: Seq<char>)
    requires
        parse_program(significant(lex(source)), 0, Seq::empty()).diagnostics.len() == 0,
    ensures
        printable_program(parse_program(significant(lex(source)), 0, Seq::empty()).statements),
{
    lemma_significant_written_as_read(source);
    lemma_clean_program_is_printable(significant(lex(source)), 0, Seq::empty());
}

/// Printing a program without colours and parsing the print gives the
/// program back: the print is parsed without a diagnostic into a program of
/// the same shape, which evaluates to what the printed program evaluates to.
/// This holds of every program of the form in which the parser gives
/// programs; a tree built by hand that puts a sum under a product without
/// parentheses prints as a text that means another tree.
pub proof fn lemma_print_then_parse(statements: Seq<StatementView>)
    requires
        printable_program(statements),
    ensures
        ({
            let source = rendered_program(statements, no_colors());
            let again = parse_program(significant(lex(source)), 0, Seq::empty());
            &&& again.diagnostics == Seq::<DiagnosticView>::empty()
            &&& same_program_shape(statements, again.statements)
            &&& after_program(initial_evaluator(), again.statements) == after_program(
                initial_evaluator(),
                statements,
            )
        }),
{
    let source = rendered_program(statements, no_colors());
    let tokens = significant(lex(source));
    let nothing = Seq::<DiagnosticView>::empty();
    lemma_plain_program(statements);
    assert(source.subrange(0, source.len() as int) =~= source);
    assert(tokens.subrange(0, tokens.len() as int) =~= tokens);
    assert(tokens == read_from(source, 0)) by {
        reveal(read_from);
    }
    lemma_program_parses(tokens, 0, statements, source, 0, nothing);
    let again = parse_program(tokens, 0, nothing).statements;
    lemma_same_shape_same_run(statements, again, initial_evaluator());
}

} // verus!
