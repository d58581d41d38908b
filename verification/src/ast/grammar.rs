//! The grammar that the parser implements, stated on its own, and the
//! proof that the parser reads every expression of the grammar as the tree
//! that the grammar gives it.

use crate::ast::{precedence_of, ASTBinaryOperatorKind, ExpressionView, OperatorView, StatementView};
use crate::ast::evaluator::{
    after_expression, after_program, after_statement, arithmetic, evaluate, initial_evaluator,
    EvaluationError,
};
use crate::ast::lexer::{lex, TokenKind, TokenView};
use crate::ast::parser::{
    ends_with_error, operator_kind, parse_binary, parse_operators, parse_primary, parse_program,
    parse_statement, significant, token_or_end, Parsed, ParsedStatement,
};
use crate::ast::symbols::{
    checked_program, lemma_checked_program_finds_its_variables, lemma_checker_adds_errors,
    undeclared_uses, CheckerView,
};
use crate::diagnostics::{
    expected_expression, has_error, unexpected_token, DiagnosticKind, DiagnosticView,
};
use crate::pipeline::compiled;
use vstd::prelude::*;

verus! {

/// The number of tokens that an expression is written with.
pub open spec fn width(expression: ExpressionView) -> nat
    decreases expression,
{
    match expression {
        ExpressionView::Binary { operator: _, left, right } => width(*left) + 1 + width(*right),
        ExpressionView::Parenthesized(inner) => width(*inner) + 2,
        _ => 1,
    }
}

/// How tightly the expression holds together: the precedence of its
/// operator where it is a binary expression, and more than any operator's
/// where it is a single operand.
pub open spec fn level(expression: ExpressionView) -> int {
    match expression {
        ExpressionView::Binary { operator, left: _, right: _ } => precedence_of(
            operator.kind,
        ) as int,
        _ => 3,
    }
}

/// Whether the tokens from `pos` on spell `expression`, and `expression`
/// is the tree that precedence and grouping to the left give them: the left
/// operand of an operator binds at least as tightly as the operator, the
/// right operand more tightly. A tree with an `Error` node is spelled by
/// nothing.
pub open spec fn spells(tokens: Seq<TokenView>, pos: int, expression: ExpressionView) -> bool
    decreases expression,
{
    match expression {
        ExpressionView::Number(number) => 0 <= pos < tokens.len() && tokens[pos].kind
            == TokenKind::Number(number),
        ExpressionView::Variable(token) => 0 <= pos < tokens.len() && tokens[pos] == token
            && token.kind == TokenKind::Identifier,
        ExpressionView::Parenthesized(inner) => {
            &&& 0 <= pos < tokens.len()
            &&& tokens[pos].kind == TokenKind::LeftParen
            &&& spells(tokens, pos + 1, *inner)
            &&& pos + 1 + width(*inner) < tokens.len()
            &&& tokens[pos + 1 + width(*inner)].kind == TokenKind::RightParen
        },
        ExpressionView::Binary { operator, left, right } => {
            let at = pos + width(*left);
            &&& spells(tokens, pos, *left)
            &&& level(*left) >= precedence_of(operator.kind)
            &&& 0 <= at < tokens.len()
            &&& tokens[at] == operator.token
            &&& operator_kind(operator.token.kind) == Some(operator.kind)
            &&& spells(tokens, at + 1, *right)
            &&& level(*right) > precedence_of(operator.kind)
        },
        ExpressionView::Error(_) => false,
    }
}

/// Whether an operator of precedence `min_precedence` or more stands at `pos`.
pub open spec fn continues(tokens: Seq<TokenView>, pos: int, min_precedence: int) -> bool {
    match operator_kind(token_or_end(tokens, pos).kind) {
        Some(kind) => precedence_of(kind) >= min_precedence,
        None => false,
    }
}

/// An expression that tokens spell lies within the tokens and does not end
/// with an `Error` node.
pub proof fn lemma_spelled(tokens: Seq<TokenView>, pos: int, expression: ExpressionView)
    requires
        spells(tokens, pos, expression),
    ensures
        0 <= pos,
        pos + width(expression) <= tokens.len(),
        !ends_with_error(expression),
    decreases expression,
{
    match expression {
        ExpressionView::Parenthesized(inner) => {
            lemma_spelled(tokens, pos + 1, *inner);
        },
        ExpressionView::Binary { operator, left, right } => {
            lemma_spelled(tokens, pos, *left);
            lemma_spelled(tokens, pos + width(*left) + 1, *right);
        },
        _ => {},
    }
}

/// A single operand that the tokens spell is read as itself.
pub proof fn lemma_parse_primary_reads(
    tokens: Seq<TokenView>,
    pos: int,
    diagnostics: Seq<DiagnosticView>,
    expression: ExpressionView,
)
    requires
        spells(tokens, pos, expression),
        level(expression) == 3,
    ensures
        parse_primary(tokens, pos, diagnostics) == (Parsed {
            expression,
            position: pos + width(expression),
            diagnostics,
        }),
    decreases expression, 0int,
{
    match expression {
        ExpressionView::Parenthesized(inner) => {
            lemma_parse_binary_reads(tokens, pos + 1, diagnostics, *inner, 0);
        },
        _ => {},
    }
}

/// Reading at the start of a spelled expression comes to the point where
/// the whole expression has been read and the operators after it are next.
pub proof fn lemma_parse_binary_reaches(
    tokens: Seq<TokenView>,
    pos: int,
    diagnostics: Seq<DiagnosticView>,
    expression: ExpressionView,
    min_precedence: int,
)
    requires
        spells(tokens, pos, expression),
        level(expression) >= min_precedence,
        !continues(tokens, pos + width(expression), level(expression) + 1),
    ensures
        parse_binary(tokens, pos, diagnostics, min_precedence) == parse_operators(
            tokens,
            Parsed { expression, position: pos + width(expression), diagnostics },
            min_precedence,
        ),
    decreases expression, 1int,
{
    lemma_spelled(tokens, pos, expression);
    match expression {
        ExpressionView::Binary { operator, left, right } => {
            let at = pos + width(*left);
            let read_left = Parsed { expression: *left, position: at, diagnostics };
            lemma_spelled(tokens, pos, *left);
            lemma_spelled(tokens, at + 1, *right);
            lemma_parse_binary_reaches(tokens, pos, diagnostics, *left, min_precedence);
            lemma_parse_binary_reads(
                tokens,
                at + 1,
                diagnostics,
                *right,
                precedence_of(operator.kind) + 1,
            );
            assert(operator == (OperatorView { kind: operator.kind, token: operator.token }));
            assert(parse_operators(tokens, read_left, min_precedence) == parse_operators(
                tokens,
                Parsed { expression, position: pos + width(expression), diagnostics },
                min_precedence,
            ));
        },
        _ => {
            lemma_parse_primary_reads(tokens, pos, diagnostics, expression);
        },
    }
}

/// The parser reads a spelled expression as the tree that the grammar gives
/// it, reports nothing and stops behind it, where no operator that it would
/// take follows.
pub proof fn lemma_parse_binary_reads(
    tokens: Seq<TokenView>,
    pos: int,
    diagnostics: Seq<DiagnosticView>,
    expression: ExpressionView,
    min_precedence: int,
)
    requires
        spells(tokens, pos, expression),
        level(expression) >= min_precedence,
        !continues(tokens, pos + width(expression), min_precedence),
    ensures
        parse_binary(tokens, pos, diagnostics, min_precedence) == (Parsed {
            expression,
            position: pos + width(expression),
            diagnostics,
        }),
    decreases expression, 2int,
{
    lemma_parse_binary_reaches(tokens, pos, diagnostics, expression, min_precedence);
}

/// Reading an operand stays within the tokens and steps over at least one
/// token, unless it stands at the end of the tokens.
pub proof fn lemma_parse_primary_advances(
    tokens: Seq<TokenView>,
    pos: int,
    diagnostics: Seq<DiagnosticView>,
)
    requires
        0 <= pos <= tokens.len(),
    ensures
        pos <= parse_primary(tokens, pos, diagnostics).position <= tokens.len(),
        parse_primary(tokens, pos, diagnostics).position == pos ==> token_or_end(tokens, pos).kind
            == TokenKind::EOF && ends_with_error(
            parse_primary(tokens, pos, diagnostics).expression,
        ),
    decreases tokens.len() - pos, 0int,
{
    let token = token_or_end(tokens, pos);
    match token.kind {
        TokenKind::LeftParen => {
            lemma_parse_binary_advances(tokens, pos + 1, diagnostics, 0);
        },
        _ => {},
    }
}

/// Reading an expression stays within the tokens and steps over at least
/// one token, unless it stands at the end of the tokens.
pub proof fn lemma_parse_binary_advances(
    tokens: Seq<TokenView>,
    pos: int,
    diagnostics: Seq<DiagnosticView>,
    min_precedence: int,
)
    requires
        0 <= pos <= tokens.len(),
    ensures
        pos <= parse_binary(tokens, pos, diagnostics, min_precedence).position <= tokens.len(),
        parse_binary(tokens, pos, diagnostics, min_precedence).position == pos ==> token_or_end(
            tokens,
            pos,
        ).kind == TokenKind::EOF,
        parse_binary(tokens, pos, diagnostics, min_precedence) == parse_operators(
            tokens,
            parse_primary(tokens, pos, diagnostics),
            min_precedence,
        ),
    decreases tokens.len() - pos, 1int,
{
    lemma_parse_primary_advances(tokens, pos, diagnostics);
    let first = parse_primary(tokens, pos, diagnostics);
    if pos < first.position <= tokens.len() {
        lemma_parse_operators_advances(tokens, first, min_precedence);
    }
}

/// Reading operators and their operands stays within the tokens and never
/// steps back.
pub proof fn lemma_parse_operators_advances(tokens: Seq<TokenView>, left: Parsed, min_precedence: int)
    requires
        0 <= left.position <= tokens.len(),
    ensures
        left.position <= parse_operators(tokens, left, min_precedence).position <= tokens.len(),
    decreases tokens.len() - left.position, 2int,
{
    let token = token_or_end(tokens, left.position);
    match operator_kind(token.kind) {
        Some(kind) => {
            if !ends_with_error(left.expression) && precedence_of(kind) >= min_precedence && 0
                <= left.position < tokens.len() {
                let right = parse_binary(
                    tokens,
                    left.position + 1,
                    left.diagnostics,
                    precedence_of(kind) + 1,
                );
                lemma_parse_binary_advances(
                    tokens,
                    left.position + 1,
                    left.diagnostics,
                    precedence_of(kind) + 1,
                );
                let folded = Parsed {
                    expression: ExpressionView::Binary {
                        operator: OperatorView { kind, token },
                        left: Box::new(left.expression),
                        right: Box::new(right.expression),
                    },
                    position: right.position,
                    diagnostics: right.diagnostics,
                };
                lemma_parse_operators_advances(tokens, folded, min_precedence);
            }
        },
        None => {},
    }
}

/// Reading a statement stays within the tokens and steps over at least
/// one token.
pub proof fn lemma_parse_statement_advances(
    tokens: Seq<TokenView>,
    pos: int,
    diagnostics: Seq<DiagnosticView>,
)
    requires
        0 <= pos <= tokens.len(),
    ensures
        match parse_statement(tokens, pos, diagnostics) {
            Some(read) => pos < read.position <= tokens.len(),
            None => true,
        },
{
    let token = token_or_end(tokens, pos);
    if token.kind == TokenKind::EOF {
    } else if token.kind == TokenKind::Let {
        let name = token_or_end(tokens, pos + 1);
        let after_name = if name.kind == TokenKind::Identifier {
            pos + 2
        } else {
            pos + 1
        };
        let first = if name.kind == TokenKind::Identifier {
            diagnostics
        } else {
            diagnostics.push(unexpected_token(TokenKind::Identifier, name))
        };
        let sign = token_or_end(tokens, after_name);
        let after_sign = if sign.kind == TokenKind::Equals {
            after_name + 1
        } else {
            after_name
        };
        let second = if sign.kind == TokenKind::Equals {
            first
        } else {
            first.push(unexpected_token(TokenKind::Equals, sign))
        };
        lemma_parse_binary_advances(tokens, after_sign, second, 0);
    } else {
        lemma_parse_binary_advances(tokens, pos, diagnostics, 0);
    }
}

/// Whether `later` is `earlier` with nothing but errors added at its end.
pub open spec fn extends(earlier: Seq<DiagnosticView>, later: Seq<DiagnosticView>) -> bool {
    &&& earlier.len() <= later.len()
    &&& later.take(earlier.len() as int) == earlier
    &&& forall|i: int|
        earlier.len() <= i < later.len() ==> (#[trigger] later[i]).kind == DiagnosticKind::Error
}

/// Adding to what was added is adding.
pub proof fn lemma_extends_transitive(
    a: Seq<DiagnosticView>,
    b: Seq<DiagnosticView>,
    c: Seq<DiagnosticView>,
)
    requires
        extends(a, b),
        extends(b, c),
    ensures
        extends(a, c),
{
    assert(c.take(a.len() as int) =~= c.take(b.len() as int).take(a.len() as int));
    assert forall|i: int| a.len() <= i < c.len() implies (#[trigger] c[i]).kind
        == DiagnosticKind::Error by {
        if i < b.len() {
            assert(c.take(b.len() as int)[i] == c[i]);
            assert(b[i].kind == DiagnosticKind::Error);
        }
    }
}

/// Nothing added is an extension.
pub proof fn lemma_extends_reflexive(a: Seq<DiagnosticView>)
    ensures
        extends(a, a),
{
    assert(a.take(a.len() as int) =~= a);
}

/// One more error extends the diagnostics.
pub proof fn lemma_extends_push(a: Seq<DiagnosticView>, b: Seq<DiagnosticView>, error: DiagnosticView)
    requires
        extends(a, b),
        error.kind == DiagnosticKind::Error,
    ensures
        extends(a, b.push(error)),
{
    assert(b.push(error).take(a.len() as int) =~= b.take(a.len() as int));
}

/// Reading an operand only adds errors to the diagnostics.
pub proof fn lemma_parse_primary_extends(
    tokens: Seq<TokenView>,
    pos: int,
    diagnostics: Seq<DiagnosticView>,
)
    ensures
        extends(diagnostics, parse_primary(tokens, pos, diagnostics).diagnostics),
    decreases tokens.len() - pos, 0int,
{
    let token = token_or_end(tokens, pos);
    lemma_extends_reflexive(diagnostics);
    lemma_extends_push(diagnostics, diagnostics, expected_expression(token));
    match token.kind {
        TokenKind::LeftParen => {
            lemma_parse_binary_extends(tokens, pos + 1, diagnostics, 0);
            let inner = parse_binary(tokens, pos + 1, diagnostics, 0);
            let closing = token_or_end(tokens, inner.position);
            lemma_extends_push(
                diagnostics,
                inner.diagnostics,
                unexpected_token(TokenKind::RightParen, closing),
            );
        },
        _ => {},
    }
}

/// Reading an expression only adds errors to the diagnostics.
pub proof fn lemma_parse_binary_extends(
    tokens: Seq<TokenView>,
    pos: int,
    diagnostics: Seq<DiagnosticView>,
    min_precedence: int,
)
    ensures
        extends(diagnostics, parse_binary(tokens, pos, diagnostics, min_precedence).diagnostics),
    decreases tokens.len() - pos, 1int,
{
    lemma_parse_primary_extends(tokens, pos, diagnostics);
    let first = parse_primary(tokens, pos, diagnostics);
    if pos < first.position <= tokens.len() {
        lemma_parse_operators_extends(tokens, first, min_precedence);
        lemma_extends_transitive(
            diagnostics,
            first.diagnostics,
            parse_operators(tokens, first, min_precedence).diagnostics,
        );
    }
}

/// Reading operators and their operands only adds errors to the diagnostics.
pub proof fn lemma_parse_operators_extends(tokens: Seq<TokenView>, left: Parsed, min_precedence: int)
    ensures
        extends(left.diagnostics, parse_operators(tokens, left, min_precedence).diagnostics),
    decreases tokens.len() - left.position, 2int,
{
    let token = token_or_end(tokens, left.position);
    lemma_extends_reflexive(left.diagnostics);
    match operator_kind(token.kind) {
        Some(kind) => {
            if !ends_with_error(left.expression) && precedence_of(kind) >= min_precedence && 0
                <= left.position < tokens.len() {
                let right = parse_binary(
                    tokens,
                    left.position + 1,
                    left.diagnostics,
                    precedence_of(kind) + 1,
                );
                lemma_parse_binary_extends(
                    tokens,
                    left.position + 1,
                    left.diagnostics,
                    precedence_of(kind) + 1,
                );
                let folded = Parsed {
                    expression: ExpressionView::Binary {
                        operator: OperatorView { kind, token },
                        left: Box::new(left.expression),
                        right: Box::new(right.expression),
                    },
                    position: right.position,
                    diagnostics: right.diagnostics,
                };
                if left.position < right.position <= tokens.len() {
                    lemma_parse_operators_extends(tokens, folded, min_precedence);
                    lemma_extends_transitive(
                        left.diagnostics,
                        right.diagnostics,
                        parse_operators(tokens, folded, min_precedence).diagnostics,
                    );
                }
            }
        },
        None => {},
    }
}

/// Where reading an operand reports nothing, the tokens spell the operand
/// that was read, and reading stopped behind it.
pub proof fn lemma_parse_primary_sound(
    tokens: Seq<TokenView>,
    pos: int,
    diagnostics: Seq<DiagnosticView>,
)
    requires
        parse_primary(tokens, pos, diagnostics).diagnostics.len() == diagnostics.len(),
    ensures
        ({
            let read = parse_primary(tokens, pos, diagnostics);
            &&& spells(tokens, pos, read.expression)
            &&& read.position == pos + width(read.expression)
            &&& level(read.expression) == 3
        }),
    decreases tokens.len() - pos, 0int,
{
    let token = token_or_end(tokens, pos);
    match token.kind {
        TokenKind::LeftParen => {
            lemma_parse_binary_extends(tokens, pos + 1, diagnostics, 0);
            lemma_parse_binary_sound(tokens, pos + 1, diagnostics, 0);
        },
        _ => {},
    }
}

/// Where reading an expression reports nothing, the tokens spell the
/// expression that was read, and reading stopped behind it, before a token
/// that does not continue it.
pub proof fn lemma_parse_binary_sound(
    tokens: Seq<TokenView>,
    pos: int,
    diagnostics: Seq<DiagnosticView>,
    min_precedence: int,
)
    requires
        parse_binary(tokens, pos, diagnostics, min_precedence).diagnostics.len()
            == diagnostics.len(),
        min_precedence <= 3,
    ensures
        ({
            let read = parse_binary(tokens, pos, diagnostics, min_precedence);
            &&& spells(tokens, pos, read.expression)
            &&& read.position == pos + width(read.expression)
            &&& level(read.expression) >= min_precedence
            &&& !continues(tokens, read.position, min_precedence)
        }),
    decreases tokens.len() - pos, 1int,
{
    lemma_parse_primary_extends(tokens, pos, diagnostics);
    let first = parse_primary(tokens, pos, diagnostics);
    if pos < first.position <= tokens.len() {
        lemma_parse_operators_extends(tokens, first, min_precedence);
        lemma_parse_primary_sound(tokens, pos, diagnostics);
        lemma_parse_operators_sound(tokens, first, min_precedence, pos);
    } else {
        lemma_parse_primary_sound(tokens, pos, diagnostics);
        lemma_spelled(tokens, pos, first.expression);
    }
}

/// Where extending a spelled expression by operators reports nothing, the
/// tokens spell the extended expression.
pub proof fn lemma_parse_operators_sound(
    tokens: Seq<TokenView>,
    left: Parsed,
    min_precedence: int,
    start: int,
)
    requires
        spells(tokens, start, left.expression),
        left.position == start + width(left.expression),
        level(left.expression) >= min_precedence,
        !continues(tokens, left.position, level(left.expression) + 1),
        parse_operators(tokens, left, min_precedence).diagnostics.len() == left.diagnostics.len(),
    ensures
        ({
            let read = parse_operators(tokens, left, min_precedence);
            &&& spells(tokens, start, read.expression)
            &&& read.position == start + width(read.expression)
            &&& level(read.expression) >= min_precedence
            &&& !continues(tokens, read.position, min_precedence)
        }),
    decreases tokens.len() - left.position, 2int,
{
    let token = token_or_end(tokens, left.position);
    lemma_spelled(tokens, start, left.expression);
    match operator_kind(token.kind) {
        Some(kind) => {
            if precedence_of(kind) >= min_precedence && 0 <= left.position < tokens.len() {
                let right = parse_binary(
                    tokens,
                    left.position + 1,
                    left.diagnostics,
                    precedence_of(kind) + 1,
                );
                lemma_parse_binary_extends(
                    tokens,
                    left.position + 1,
                    left.diagnostics,
                    precedence_of(kind) + 1,
                );
                let folded = Parsed {
                    expression: ExpressionView::Binary {
                        operator: OperatorView { kind, token },
                        left: Box::new(left.expression),
                        right: Box::new(right.expression),
                    },
                    position: right.position,
                    diagnostics: right.diagnostics,
                };
                if left.position < right.position <= tokens.len() {
                    lemma_parse_operators_extends(tokens, folded, min_precedence);
                }
                lemma_parse_binary_sound(
                    tokens,
                    left.position + 1,
                    left.diagnostics,
                    precedence_of(kind) + 1,
                );
                lemma_spelled(tokens, left.position + 1, right.expression);
                assert(spells(tokens, start, folded.expression));
                lemma_parse_operators_sound(tokens, folded, min_precedence, start);
            }
        },
        None => {},
    }
}

/// Whether the expression holds no `Error` node.
pub open spec fn error_free(expression: ExpressionView) -> bool
    decreases expression,
{
    match expression {
        ExpressionView::Error(_) => false,
        ExpressionView::Parenthesized(inner) => error_free(*inner),
        ExpressionView::Binary { operator: _, left, right } => error_free(*left) && error_free(
            *right,
        ),
        _ => true,
    }
}

/// Whether the expression of the statement holds no `Error` node.
pub open spec fn statement_error_free(statement: StatementView) -> bool {
    match statement {
        StatementView::Expression(expression) => error_free(expression),
        StatementView::Let { identifier: _, initializer } => error_free(initializer),
    }
}

/// An expression that tokens spell holds no `Error` node.
pub proof fn lemma_spelled_is_error_free(tokens: Seq<TokenView>, pos: int, expression: ExpressionView)
    requires
        spells(tokens, pos, expression),
    ensures
        error_free(expression),
    decreases expression,
{
    match expression {
        ExpressionView::Parenthesized(inner) => {
            lemma_spelled_is_error_free(tokens, pos + 1, *inner);
        },
        ExpressionView::Binary { operator, left, right } => {
            lemma_spelled_is_error_free(tokens, pos, *left);
            lemma_spelled_is_error_free(tokens, pos + width(*left) + 1, *right);
        },
        _ => {},
    }
}

/// Evaluating an expression without `Error` nodes never fails for a
/// malformed expression.
pub proof fn lemma_error_free_evaluates(expression: ExpressionView, variables: Map<Seq<char>, i64>)
    requires
        error_free(expression),
    ensures
        evaluate(expression, variables) != Err::<i64, EvaluationError>(
            EvaluationError::MalformedExpression,
        ),
    decreases expression,
{
    match expression {
        ExpressionView::Parenthesized(inner) => {
            lemma_error_free_evaluates(*inner, variables);
        },
        ExpressionView::Binary { operator, left, right } => {
            lemma_error_free_evaluates(*left, variables);
            lemma_error_free_evaluates(*right, variables);
        },
        _ => {},
    }
}

/// Reading a statement only adds errors to the diagnostics, and where it
/// adds none, the statement holds no `Error` node.
pub proof fn lemma_parse_statement_sound(
    tokens: Seq<TokenView>,
    pos: int,
    diagnostics: Seq<DiagnosticView>,
)
    ensures
        match parse_statement(tokens, pos, diagnostics) {
            Some(read) => {
                &&& extends(diagnostics, read.diagnostics)
                &&& read.diagnostics.len() == diagnostics.len() ==> statement_error_free(
                    read.statement,
                )
            },
            None => true,
        },
{
    let token = token_or_end(tokens, pos);
    if token.kind == TokenKind::EOF {
    } else if token.kind == TokenKind::Let {
        let name = token_or_end(tokens, pos + 1);
        let named = name.kind == TokenKind::Identifier;
        let after_name = if named {
            pos + 2
        } else {
            pos + 1
        };
        let first = if named {
            diagnostics
        } else {
            diagnostics.push(unexpected_token(TokenKind::Identifier, name))
        };
        let sign = token_or_end(tokens, after_name);
        let assigned = sign.kind == TokenKind::Equals;
        let after_sign = if assigned {
            after_name + 1
        } else {
            after_name
        };
        let second = if assigned {
            first
        } else {
            first.push(unexpected_token(TokenKind::Equals, sign))
        };
        lemma_extends_reflexive(diagnostics);
        if !named {
            lemma_extends_push(diagnostics, diagnostics, unexpected_token(TokenKind::Identifier, name));
        }
        if !assigned {
            lemma_extends_push(diagnostics, first, unexpected_token(TokenKind::Equals, sign));
        }
        lemma_parse_binary_extends(tokens, after_sign, second, 0);
        let initializer = parse_binary(tokens, after_sign, second, 0);
        lemma_extends_transitive(diagnostics, second, initializer.diagnostics);
        if initializer.diagnostics.len() == diagnostics.len() {
            lemma_parse_binary_sound(tokens, after_sign, second, 0);
            lemma_spelled_is_error_free(tokens, after_sign, initializer.expression);
        }
    } else {
        lemma_parse_binary_extends(tokens, pos, diagnostics, 0);
        let read = parse_binary(tokens, pos, diagnostics, 0);
        if read.diagnostics.len() == diagnostics.len() {
            lemma_parse_binary_sound(tokens, pos, diagnostics, 0);
            lemma_spelled_is_error_free(tokens, pos, read.expression);
        }
    }
}

/// Reading a program only adds errors to the diagnostics, and where it adds
/// none, no statement of the program holds an `Error` node.
pub proof fn lemma_parse_program_sound(
    tokens: Seq<TokenView>,
    pos: int,
    diagnostics: Seq<DiagnosticView>,
)
    ensures
        extends(diagnostics, parse_program(tokens, pos, diagnostics).diagnostics),
        parse_program(tokens, pos, diagnostics).diagnostics.len() == diagnostics.len()
            ==> forall|i: int|
            0 <= i < parse_program(tokens, pos, diagnostics).statements.len()
                ==> statement_error_free(
                #[trigger] parse_program(tokens, pos, diagnostics).statements[i],
            ),
    decreases tokens.len() - pos,
{
    lemma_parse_statement_sound(tokens, pos, diagnostics);
    lemma_extends_reflexive(diagnostics);
    match parse_statement(tokens, pos, diagnostics) {
        None => {},
        Some(first) => {
            if pos < first.position <= tokens.len() {
                lemma_parse_program_sound(tokens, first.position, first.diagnostics);
                let rest = parse_program(tokens, first.position, first.diagnostics);
                lemma_extends_transitive(diagnostics, first.diagnostics, rest.diagnostics);
            }
        },
    }
}

/// A program whose statements hold no `Error` node never fails for a
/// malformed expression when it is evaluated.
pub proof fn lemma_error_free_program_evaluates(statements: Seq<StatementView>)
    requires
        forall|i: int| 0 <= i < statements.len() ==> statement_error_free(#[trigger] statements[i]),
    ensures
        after_program(initial_evaluator(), statements).failure != Some(
            EvaluationError::MalformedExpression,
        ),
    decreases statements.len(),
{
    if statements.len() > 0 {
        let earlier = statements.drop_last();
        assert forall|i: int| 0 <= i < earlier.len() implies statement_error_free(
            #[trigger] earlier[i],
        ) by {
            assert(earlier[i] == statements[i]);
        }
        lemma_error_free_program_evaluates(earlier);
        let evaluated = after_program(initial_evaluator(), earlier);
        assert(after_program(initial_evaluator(), statements) == after_statement(
            evaluated,
            statements.last(),
        ));
        assert(statement_error_free(statements[statements.len() - 1]));
        match statements.last() {
            StatementView::Expression(expression) => {
                lemma_error_free_evaluates(expression, evaluated.variables);
            },
            StatementView::Let { identifier, initializer } => {
                lemma_error_free_evaluates(initializer, evaluated.variables);
            },
        }
    }
}

/// What a token adds to the number of open parentheses.
pub open spec fn opens(kind: TokenKind) -> int {
    match kind {
        TokenKind::LeftParen => 1,
        TokenKind::RightParen => -1,
        _ => 0,
    }
}

/// The number of opening parentheses less the number of closing ones
/// among the tokens from `from` up to `to`.
pub open spec fn paren_balance(tokens: Seq<TokenView>, from: int, to: int) -> int
    decreases to - from,
{
    if from >= to {
        0
    } else {
        paren_balance(tokens, from, to - 1) + opens(tokens[to - 1].kind)
    }
}

/// The balance of a stretch is the sum of the balances of its two parts.
pub proof fn lemma_balance_split(tokens: Seq<TokenView>, from: int, middle: int, to: int)
    requires
        from <= middle <= to,
    ensures
        paren_balance(tokens, from, to) == paren_balance(tokens, from, middle) + paren_balance(
            tokens,
            middle,
            to,
        ),
    decreases to - middle,
{
    if middle < to {
        lemma_balance_split(tokens, from, middle, to - 1);
    }
}

/// Whether the tokens from `from` up to `to` are all tokens of the
/// language: none is `Bad`, white space or the closing token.
pub open spec fn all_known(tokens: Seq<TokenView>, from: int, to: int) -> bool {
    forall|i: int|
        from <= i < to ==> {
            &&& 0 <= i < tokens.len()
            &&& (#[trigger] tokens[i]).kind != TokenKind::Bad
            &&& tokens[i].kind != TokenKind::EOF
            &&& tokens[i].kind != TokenKind::Whitespace
        }
}

/// The tokens of a spelled expression hold as many opening parentheses as
/// closing ones, and are all tokens of the language.
pub proof fn lemma_spelled_is_balanced(tokens: Seq<TokenView>, pos: int, expression: ExpressionView)
    requires
        spells(tokens, pos, expression),
    ensures
        paren_balance(tokens, pos, pos + width(expression)) == 0,
        all_known(tokens, pos, pos + width(expression)),
    decreases expression,
{
    let end = pos + width(expression);
    assert forall|i: int| pos <= i < end implies {
        &&& 0 <= i < tokens.len()
        &&& (#[trigger] tokens[i]).kind != TokenKind::Bad
        &&& tokens[i].kind != TokenKind::EOF
        &&& tokens[i].kind != TokenKind::Whitespace
    } by {
        lemma_spelled_tokens(tokens, pos, expression, i);
    }
    match expression {
        ExpressionView::Parenthesized(inner) => {
            lemma_spelled_is_balanced(tokens, pos + 1, *inner);
            lemma_balance_split(tokens, pos, pos + 1, end);
            lemma_balance_split(tokens, pos + 1, end - 1, end);
            assert(paren_balance(tokens, pos, pos + 1) == 1) by {
                reveal_with_fuel(paren_balance, 2);
            }
            assert(paren_balance(tokens, end - 1, end) == -1) by {
                reveal_with_fuel(paren_balance, 2);
            }
        },
        ExpressionView::Binary { operator, left, right } => {
            let at = pos + width(*left);
            lemma_spelled_is_balanced(tokens, pos, *left);
            lemma_spelled_is_balanced(tokens, at + 1, *right);
            lemma_balance_split(tokens, pos, at, end);
            lemma_balance_split(tokens, at, at + 1, end);
            assert(paren_balance(tokens, at, at + 1) == 0) by {
                reveal_with_fuel(paren_balance, 2);
            }
        },
        _ => {
            assert(paren_balance(tokens, pos, pos + 1) == 0) by {
                reveal_with_fuel(paren_balance, 2);
            }
        },
    }
}

/// Where reading a statement reports nothing, the tokens read are all
/// tokens of the language, with as many opening parentheses as closing ones.
pub proof fn lemma_clean_statement(
    tokens: Seq<TokenView>,
    pos: int,
    diagnostics: Seq<DiagnosticView>,
)
    requires
        0 <= pos,
        parse_statement(tokens, pos, diagnostics).is_some(),
        parse_statement(tokens, pos, diagnostics).unwrap().diagnostics.len() == diagnostics.len(),
    ensures
        ({
            let read = parse_statement(tokens, pos, diagnostics).unwrap();
            &&& pos < read.position <= tokens.len()
            &&& all_known(tokens, pos, read.position)
            &&& paren_balance(tokens, pos, read.position) == 0
        }),
{
    let token = token_or_end(tokens, pos);
    if token.kind == TokenKind::Let {
        let name = token_or_end(tokens, pos + 1);
        let sign = token_or_end(tokens, pos + 2);
        let first = if name.kind == TokenKind::Identifier {
            diagnostics
        } else {
            diagnostics.push(unexpected_token(TokenKind::Identifier, name))
        };
        let after_name = if name.kind == TokenKind::Identifier {
            pos + 2
        } else {
            pos + 1
        };
        let other = token_or_end(tokens, after_name);
        let second = if other.kind == TokenKind::Equals {
            first
        } else {
            first.push(unexpected_token(TokenKind::Equals, other))
        };
        let after_sign = if other.kind == TokenKind::Equals {
            after_name + 1
        } else {
            after_name
        };
        lemma_parse_binary_extends(tokens, after_sign, second, 0);
        lemma_parse_binary_sound(tokens, after_sign, second, 0);
        let read = parse_binary(tokens, after_sign, second, 0);
        lemma_spelled(tokens, pos + 3, read.expression);
        lemma_spelled_is_balanced(tokens, pos + 3, read.expression);
        lemma_balance_split(tokens, pos, pos + 3, read.position);
        assert(paren_balance(tokens, pos, pos + 3) == 0) by {
            reveal_with_fuel(paren_balance, 4);
        }
    } else {
        lemma_parse_binary_sound(tokens, pos, diagnostics, 0);
        let read = parse_binary(tokens, pos, diagnostics, 0);
        lemma_spelled(tokens, pos, read.expression);
        lemma_spelled_is_balanced(tokens, pos, read.expression);
    }
}

/// An unmatched parenthesis and an unknown character are reported: where
/// reading a program reports nothing, the tokens up to the closing token
/// hold as many opening parentheses as closing ones, and none of them is
/// `Bad`.
pub proof fn lemma_clean_program(
    tokens: Seq<TokenView>,
    pos: int,
    diagnostics: Seq<DiagnosticView>,
)
    requires
        0 <= pos,
        parse_program(tokens, pos, diagnostics).diagnostics.len() == diagnostics.len(),
    ensures
        ({
            let read = parse_program(tokens, pos, diagnostics);
            &&& pos <= read.position
            &&& token_or_end(tokens, read.position).kind == TokenKind::EOF
            &&& all_known(tokens, pos, read.position)
            &&& paren_balance(tokens, pos, read.position) == 0
        }),
    decreases tokens.len() - pos,
{
    lemma_parse_statement_sound(tokens, pos, diagnostics);
    match parse_statement(tokens, pos, diagnostics) {
        None => {},
        Some(first) => {
            if pos < first.position <= tokens.len() {
                lemma_parse_program_sound(tokens, first.position, first.diagnostics);
                lemma_clean_statement(tokens, pos, diagnostics);
                lemma_clean_program(tokens, first.position, first.diagnostics);
                let rest = parse_program(tokens, first.position, first.diagnostics);
                lemma_balance_split(tokens, pos, first.position, rest.position);
            } else {
                lemma_clean_statement(tokens, pos, diagnostics);
            }
        },
    }
}

/// What the diagnostics are for: a source text in whose diagnostics there
/// is no error has a program without `Error` nodes that declares each name
/// before it uses it, so that running it can only fail in its arithmetic.
pub proof fn lemma_diagnostics_guard_evaluation(source: Seq<char>)
    requires
        !has_error(compiled(source).diagnostics),
    ensures
        compiled(source).diagnostics == Seq::<DiagnosticView>::empty(),
        ({
            let failure = after_program(initial_evaluator(), compiled(source).statements).failure;
            &&& failure != Some(EvaluationError::MalformedExpression)
            &&& failure != Some(EvaluationError::UndeclaredVariable)
        }),
{
    let tokens = significant(lex(source));
    let nothing = Seq::<DiagnosticView>::empty();
    let program = parse_program(tokens, 0, nothing);
    let start = CheckerView { symbols: Set::empty(), diagnostics: program.diagnostics };
    let checked = checked_program(start, program.statements);
    lemma_parse_program_sound(tokens, 0, nothing);
    lemma_checker_adds_errors(start, program.statements);
    lemma_extends_transitive(nothing, program.diagnostics, checked.diagnostics);
    if checked.diagnostics.len() > 0 {
        assert(checked.diagnostics[0].kind == DiagnosticKind::Error);
        assert(has_error(checked.diagnostics));
    }
    assert(checked.diagnostics =~= nothing);
    lemma_error_free_program_evaluates(program.statements);
    lemma_checked_program_finds_its_variables(program.statements, program.diagnostics);
}

/// The tokens of a spelled expression are numbers, names, operators and
/// parentheses: an unknown character, which gives a `Bad` token, cannot
/// lie in an expression that is read without a diagnostic.
pub proof fn lemma_spelled_tokens(
    tokens: Seq<TokenView>,
    pos: int,
    expression: ExpressionView,
    i: int,
)
    requires
        spells(tokens, pos, expression),
        pos <= i < pos + width(expression),
    ensures
        0 <= i < tokens.len(),
        tokens[i].kind != TokenKind::Bad,
        tokens[i].kind != TokenKind::EOF,
        tokens[i].kind != TokenKind::Whitespace,
    decreases expression,
{
    lemma_spelled(tokens, pos, expression);
    match expression {
        ExpressionView::Parenthesized(inner) => {
            if pos < i < pos + 1 + width(*inner) {
                lemma_spelled_tokens(tokens, pos + 1, *inner, i);
            }
        },
        ExpressionView::Binary { operator, left, right } => {
            if i < pos + width(*left) {
                lemma_spelled_tokens(tokens, pos, *left, i);
            } else if i > pos + width(*left) {
                lemma_spelled_tokens(tokens, pos + width(*left) + 1, *right, i);
            }
        },
        _ => {},
    }
}

/// Whether the expression is made of numbers, operators and parentheses alone.
pub open spec fn numeric(expression: ExpressionView) -> bool
    decreases expression,
{
    match expression {
        ExpressionView::Number(_) => true,
        ExpressionView::Parenthesized(inner) => numeric(*inner),
        ExpressionView::Binary { operator: _, left, right } => numeric(*left) && numeric(*right),
        _ => false,
    }
}

/// The value of a numeric expression in the integers, where nothing
/// overflows; division rounds toward zero.
pub open spec fn exact_value(expression: ExpressionView) -> int
    decreases expression,
{
    match expression {
        ExpressionView::Number(number) => number as int,
        ExpressionView::Parenthesized(inner) => exact_value(*inner),
        ExpressionView::Binary { operator, left, right } => arithmetic(
            operator.kind,
            exact_value(*left),
            exact_value(*right),
        ),
        _ => 0,
    }
}

/// Whether the value of a numeric expression can be computed in 64 bits:
/// nothing is divided by zero, and the value of every part fits.
pub open spec fn computable(expression: ExpressionView) -> bool
    decreases expression,
{
    match expression {
        ExpressionView::Number(_) => true,
        ExpressionView::Parenthesized(inner) => computable(*inner),
        ExpressionView::Binary { operator, left, right } => {
            &&& computable(*left)
            &&& computable(*right)
            &&& !(operator.kind == ASTBinaryOperatorKind::Divide && exact_value(*right) == 0)
            &&& i64::MIN <= exact_value(expression) <= i64::MAX
        },
        _ => false,
    }
}

/// The evaluator gives a numeric expression its value in the integers
/// where that can be computed in 64 bits, and fails with a division by zero
/// or an overflow where it cannot: it never gives another number.
pub proof fn lemma_evaluate_is_exact(expression: ExpressionView, variables: Map<Seq<char>, i64>)
    requires
        numeric(expression),
    ensures
        match evaluate(expression, variables) {
            Ok(value) => computable(expression) && value == exact_value(expression),
            Err(error) => !computable(expression) && (error == EvaluationError::DivisionByZero
                || error == EvaluationError::Overflow),
        },
    decreases expression,
{
    match expression {
        ExpressionView::Parenthesized(inner) => {
            lemma_evaluate_is_exact(*inner, variables);
        },
        ExpressionView::Binary { operator, left, right } => {
            lemma_evaluate_is_exact(*left, variables);
            lemma_evaluate_is_exact(*right, variables);
        },
        _ => {},
    }
}

/// A numeric expression uses no name, so the symbol checker reports nothing.
pub proof fn lemma_numeric_uses_no_name(expression: ExpressionView, declared: Set<Seq<char>>)
    requires
        numeric(expression),
    ensures
        undeclared_uses(expression, declared) == Seq::<DiagnosticView>::empty(),
    decreases expression,
{
    match expression {
        ExpressionView::Parenthesized(inner) => {
            lemma_numeric_uses_no_name(*inner, declared);
        },
        ExpressionView::Binary { operator, left, right } => {
            lemma_numeric_uses_no_name(*left, declared);
            lemma_numeric_uses_no_name(*right, declared);
            assert(Seq::<DiagnosticView>::empty() + Seq::<DiagnosticView>::empty()
                =~= Seq::<DiagnosticView>::empty());
        },
        _ => {},
    }
}

/// A source text whose tokens, white space aside, spell one expression and
/// then end is compiled into that expression as its one statement, without
/// any diagnostic.
pub proof fn lemma_expression_compiles(source: Seq<char>, expression: ExpressionView)
    requires
        spells(significant(lex(source)), 0, expression),
        token_or_end(significant(lex(source)), width(expression) as int).kind == TokenKind::EOF,
    ensures
        parse_program(significant(lex(source)), 0, Seq::empty()).statements
            == seq![StatementView::Expression(expression)],
        parse_program(significant(lex(source)), 0, Seq::empty()).diagnostics
            == Seq::<DiagnosticView>::empty(),
{
    let tokens = significant(lex(source));
    let nothing = Seq::<DiagnosticView>::empty();
    lemma_spelled(tokens, 0, expression);
    lemma_parse_binary_reads(tokens, 0, nothing, expression, 0);
    let first = parse_statement(tokens, 0, nothing);
    assert(first == Some(
        ParsedStatement {
            statement: StatementView::Expression(expression),
            position: width(expression) as int,
            diagnostics: nothing,
        },
    ));
    let rest = parse_program(tokens, width(expression) as int, nothing);
    assert(rest.statements == Seq::<StatementView>::empty());
    assert(seq![StatementView::Expression(expression)] + rest.statements
        =~= seq![StatementView::Expression(expression)]);
}

/// Every source text that consists of integers, the four operators and
/// matched parentheses, such that they spell an expression, compiles
/// without a diagnostic, and running it gives the value that the expression
/// has in the integers under precedence and grouping to the left, where
/// that can be computed in 64 bits, and a failure where it cannot.
pub proof fn lemma_arithmetic_source_runs(source: Seq<char>, expression: ExpressionView)
    requires
        spells(significant(lex(source)), 0, expression),
        token_or_end(significant(lex(source)), width(expression) as int).kind == TokenKind::EOF,
        numeric(expression),
    ensures
        compiled(source).statements == seq![StatementView::Expression(expression)],
        compiled(source).diagnostics == Seq::<DiagnosticView>::empty(),
        ({
            let end = after_program(initial_evaluator(), compiled(source).statements);
            if computable(expression) {
                end.failure.is_none() && end.last_value == Some(exact_value(expression) as i64)
            } else {
                end.last_value.is_none() && (end.failure == Some(EvaluationError::DivisionByZero)
                    || end.failure == Some(EvaluationError::Overflow))
            }
        }),
{
    lemma_expression_compiles(source, expression);
    let nothing = Seq::<DiagnosticView>::empty();
    let statements = seq![StatementView::Expression(expression)];
    assert(statements.drop_last() =~= Seq::<StatementView>::empty());
    assert(statements.last() == StatementView::Expression(expression));
    let start = CheckerView { symbols: Set::empty(), diagnostics: nothing };
    lemma_numeric_uses_no_name(expression, start.symbols);
    assert(nothing + nothing =~= nothing);
    assert(checked_program(start, statements) == start) by {
        reveal_with_fuel(crate::ast::walked, 2);
    }
    lemma_evaluate_is_exact(expression, Map::empty());
    assert(after_program(initial_evaluator(), statements) == after_expression(
        initial_evaluator(),
        expression,
    )) by {
        reveal_with_fuel(crate::ast::walked, 2);
    }
}

} // verus!
