//! Tokens to syntax trees, by precedence climbing.

use crate::ast::{
    precedence_of, ASTBinaryOperator, ASTBinaryOperatorKind, ASTExpression, ASTExpressionKind,
    ASTStatement, ExpressionView, OperatorView, StatementView,
};
use crate::ast::lexer::{SpanView, TextSpan, Token, TokenKind, TokenView};
use crate::diagnostics::{expected_expression, unexpected_token, DiagnosticBag, DiagnosticView};
use vstd::prelude::*;

verus! {

/// The tokens as mathematical values.
pub open spec fn token_views(tokens: Seq<Token>) -> Seq<TokenView> {
    tokens.map_values(|t: Token| t@)
}

/// The tokens that carry meaning: all but white space, in their order.
pub open spec fn significant(tokens: Seq<TokenView>) -> Seq<TokenView> {
    tokens.filter(|t: TokenView| t.kind != TokenKind::Whitespace)
}

/// The token that stands for the end where the tokens have run out: an
/// empty span where the last token ends.
pub open spec fn closing_token(tokens: Seq<TokenView>) -> TokenView {
    let end = if tokens.len() > 0 {
        tokens.last().span.end
    } else {
        0
    };
    TokenView {
        kind: TokenKind::EOF,
        span: SpanView { start: end, end, literal: Seq::empty() },
    }
}

/// The token at `pos`, or the closing token beyond the last one.
pub open spec fn token_or_end(tokens: Seq<TokenView>, pos: int) -> TokenView {
    if 0 <= pos < tokens.len() {
        tokens[pos]
    } else {
        closing_token(tokens)
    }
}

/// The operator that a token of this kind denotes, if it denotes one.
pub open spec fn operator_kind(kind: TokenKind) -> Option<ASTBinaryOperatorKind> {
    match kind {
        TokenKind::Plus => Some(ASTBinaryOperatorKind::Plus),
        TokenKind::Minus => Some(ASTBinaryOperatorKind::Minus),
        TokenKind::Asterisk => Some(ASTBinaryOperatorKind::Multiply),
        TokenKind::Slash => Some(ASTBinaryOperatorKind::Divide),
        _ => None,
    }
}

/// Whether the last thing read into the expression was an `Error` node.
/// Such an expression is not extended by further operators.
pub open spec fn ends_with_error(expression: ExpressionView) -> bool
    decreases expression,
{
    match expression {
        ExpressionView::Error(_) => true,
        ExpressionView::Binary { operator: _, left: _, right } => ends_with_error(*right),
        _ => false,
    }
}

/// What reading an expression gives: the tree, the position of the first
/// token not read, and the diagnostics reported so far.
pub struct Parsed {
    pub expression: ExpressionView,
    pub position: int,
    pub diagnostics: Seq<DiagnosticView>,
}

/// What reading a statement gives.
pub struct ParsedStatement {
    pub statement: StatementView,
    pub position: int,
    pub diagnostics: Seq<DiagnosticView>,
}

/// Reads one operand at `pos`: a number, a name, or an expression in
/// parentheses. A token that begins none of these is reported and stepped
/// over (the end of the tokens is never stepped over), and an `Error` node
/// with its span takes the operand's place. Where the closing parenthesis is
/// missing, the token found instead is reported and left unread, and an
/// `Error` node with its span replaces the group.
pub open spec fn parse_primary(tokens: Seq<TokenView>, pos: int, diagnostics: Seq<DiagnosticView>) -> Parsed
    decreases tokens.len() - pos, 0int,
{
    let token = token_or_end(tokens, pos);
    match token.kind {
        TokenKind::Number(number) => Parsed {
            expression: ExpressionView::Number(number),
            position: pos + 1,
            diagnostics,
        },
        TokenKind::Identifier => Parsed {
            expression: ExpressionView::Variable(token),
            position: pos + 1,
            diagnostics,
        },
        TokenKind::LeftParen => {
            let inner = parse_binary(tokens, pos + 1, diagnostics, 0);
            let closing = token_or_end(tokens, inner.position);
            if closing.kind == TokenKind::RightParen {
                Parsed {
                    expression: ExpressionView::Parenthesized(Box::new(inner.expression)),
                    position: inner.position + 1,
                    diagnostics: inner.diagnostics,
                }
            } else {
                Parsed {
                    expression: ExpressionView::Error(closing.span),
                    position: inner.position,
                    diagnostics: inner.diagnostics.push(
                        unexpected_token(TokenKind::RightParen, closing),
                    ),
                }
            }
        },
        _ => Parsed {
            expression: ExpressionView::Error(token.span),
            position: if token.kind == TokenKind::EOF {
                pos
            } else {
                pos + 1
            },
            diagnostics: diagnostics.push(expected_expression(token)),
        },
    }
}

/// Reads at `pos` the longest expression whose operators outside
/// parentheses all have a precedence of at least `min_precedence`: an
/// operand, and then the operators that follow it. (The test on the
/// positions makes the definition well-founded. Where it fails, the operand
/// is an `Error` node at the end of the tokens, which no operator extends.)
pub open spec fn parse_binary(
    tokens: Seq<TokenView>,
    pos: int,
    diagnostics: Seq<DiagnosticView>,
    min_precedence: int,
) -> Parsed
    decreases tokens.len() - pos, 1int,
{
    let first = parse_primary(tokens, pos, diagnostics);
    if pos < first.position <= tokens.len() {
        parse_operators(tokens, first, min_precedence)
    } else {
        first
    }
}

/// Extends the expression read so far, `left`, by the operators that follow
/// it for as long as their precedence is at least `min_precedence`. The
/// right operand of an operator holds only operators that bind tighter than
/// it, so operators of equal precedence group to the left. (The test on the
/// positions makes the definition well-founded; it never fails, since the
/// operator itself has been read.)
pub open spec fn parse_operators(tokens: Seq<TokenView>, left: Parsed, min_precedence: int) -> Parsed
    decreases tokens.len() - left.position, 2int,
{
    let token = token_or_end(tokens, left.position);
    match operator_kind(token.kind) {
        Some(kind) if !ends_with_error(left.expression) && precedence_of(kind) >= min_precedence
            && 0 <= left.position < tokens.len() => {
            let right = parse_binary(
                tokens,
                left.position + 1,
                left.diagnostics,
                precedence_of(kind) + 1,
            );
            let folded = Parsed {
                expression: ExpressionView::Binary {
                    operator: OperatorView { kind, token },
                    left: Box::new(left.expression),
                    right: Box::new(right.expression),
                },
                position: right.position,
                diagnostics: right.diagnostics,
            };
            if left.position < right.position <= tokens.len() {
                parse_operators(tokens, folded, min_precedence)
            } else {
                folded
            }
        },
        _ => left,
    }
}

/// Reads `let name = expression` at `pos`, where the token at `pos` is the
/// keyword. A missing name or `=` is reported and reading goes on with the
/// token found in its place; that token then stands for the name.
pub open spec fn parse_let(tokens: Seq<TokenView>, pos: int, diagnostics: Seq<DiagnosticView>) -> ParsedStatement {
    let name = token_or_end(tokens, pos + 1);
    let named = name.kind == TokenKind::Identifier;
    let after_name = if named {
        pos + 2
    } else {
        pos + 1
    };
    let diagnostics = if named {
        diagnostics
    } else {
        diagnostics.push(unexpected_token(TokenKind::Identifier, name))
    };
    let sign = token_or_end(tokens, after_name);
    let assigned = sign.kind == TokenKind::Equals;
    let after_sign = if assigned {
        after_name + 1
    } else {
        after_name
    };
    let diagnostics = if assigned {
        diagnostics
    } else {
        diagnostics.push(unexpected_token(TokenKind::Equals, sign))
    };
    let initializer = parse_binary(tokens, after_sign, diagnostics, 0);
    ParsedStatement {
        statement: StatementView::Let { identifier: name, initializer: initializer.expression },
        position: initializer.position,
        diagnostics: initializer.diagnostics,
    }
}

/// Reads the statement at `pos`; `None` at the end of the tokens.
pub open spec fn parse_statement(tokens: Seq<TokenView>, pos: int, diagnostics: Seq<DiagnosticView>) -> Option<ParsedStatement> {
    let token = token_or_end(tokens, pos);
    if token.kind == TokenKind::EOF {
        None
    } else if token.kind == TokenKind::Let {
        Some(parse_let(tokens, pos, diagnostics))
    } else {
        let parsed = parse_binary(tokens, pos, diagnostics, 0);
        Some(
            ParsedStatement {
                statement: StatementView::Expression(parsed.expression),
                position: parsed.position,
                diagnostics: parsed.diagnostics,
            },
        )
    }
}

/// What reading a whole program gives.
pub struct ParsedProgram {
    pub statements: Seq<StatementView>,
    pub position: int,
    pub diagnostics: Seq<DiagnosticView>,
}

/// Reads statements from `pos` on until the end of the tokens. (The test
/// on the positions makes the definition well-founded; it never fails,
/// since a statement holds at least one token.)
pub open spec fn parse_program(tokens: Seq<TokenView>, pos: int, diagnostics: Seq<DiagnosticView>) -> ParsedProgram
    decreases tokens.len() - pos,
{
    match parse_statement(tokens, pos, diagnostics) {
        None => ParsedProgram { statements: Seq::empty(), position: pos, diagnostics },
        Some(first) => {
            if pos < first.position <= tokens.len() {
                let rest = parse_program(tokens, first.position, first.diagnostics);
                ParsedProgram { statements: seq![first.statement] + rest.statements, ..rest }
            } else {
                ParsedProgram {
                    statements: seq![first.statement],
                    position: first.position,
                    diagnostics: first.diagnostics,
                }
            }
        },
    }
}

impl ASTExpression {
    /// Whether the last thing read into the expression was an `Error` node.
    pub fn ends_with_error(&self) -> (b: bool)
        ensures
            b == ends_with_error(self@),
        decreases self,
    {
        match &self.kind {
            ASTExpressionKind::Error(_) => true,
            ASTExpressionKind::Binary(binary) => binary.right.ends_with_error(),
            _ => false,
        }
    }
}

/// Builds statements from tokens, reporting what is malformed to the
/// diagnostics it carries.
pub struct Parser {
    tokens: Vec<Token>,
    current: usize,
    diagnostics_bag: DiagnosticBag,
}

impl Parser {
    /// The tokens being read: those given, without white space.
    pub closed spec fn tokens(&self) -> Seq<TokenView> {
        token_views(self.tokens@)
    }

    /// The index of the next token to read.
    pub closed spec fn position(&self) -> int {
        self.current as int
    }

    /// The diagnostics reported so far, after those the parser began with.
    pub closed spec fn diagnostics(&self) -> Seq<DiagnosticView> {
        self.diagnostics_bag@
    }

    /// The cursor lies within the tokens or just behind them.
    pub closed spec fn wf(&self) -> bool {
        self.current <= self.tokens.len()
    }

    /// A parser at the start of `tokens`, white space dropped, which adds
    /// what it reports to `diagnostics_bag`.
    pub fn new(tokens: Vec<Token>, diagnostics_bag: DiagnosticBag) -> (parser: Self)
        ensures
            parser.wf(),
            parser.tokens() == significant(token_views(tokens@)),
            parser.position() == 0,
            parser.diagnostics() == diagnostics_bag@,
    {
        let ghost keep = |t: TokenView| t.kind != TokenKind::Whitespace;
        let mut kept: Vec<Token> = Vec::new();
        let mut i: usize = 0;
        proof {
            reveal(Seq::filter);
            assert(token_views(tokens@.take(0)) =~= Seq::<TokenView>::empty());
            assert(token_views(kept@) =~= Seq::<TokenView>::empty());
        }
        while i < tokens.len()
            invariant
                i <= tokens.len(),
                keep == |t: TokenView| t.kind != TokenKind::Whitespace,
                token_views(kept@) == token_views(tokens@.take(i as int)).filter(keep),
            decreases tokens.len() - i,
        {
            let ghost before = token_views(tokens@.take(i as int));
            let ghost after = token_views(tokens@.take(i as int + 1));
            proof {
                reveal(Seq::filter);
                assert(after.drop_last() =~= before);
                assert(after.last() == tokens@[i as int]@);
            }
            match tokens[i].kind {
                TokenKind::Whitespace => {},
                _ => {
                    let ghost old_kept = token_views(kept@);
                    kept.push(tokens[i].clone());
                    assert(token_views(kept@) =~= old_kept.push(tokens@[i as int]@));
                },
            }
            i += 1;
        }
        proof {
            assert(tokens@.take(tokens.len() as int) =~= tokens@);
        }
        Self { tokens: kept, current: 0, diagnostics_bag }
    }

    /// The cursor of a well-formed parser lies within the tokens or just
    /// behind them.
    pub proof fn lemma_position_in_bounds(&self)
        requires
            self.wf(),
        ensures
            0 <= self.position() <= self.tokens().len(),
    {
    }

    /// Hands back the diagnostics, with what the parser has added to them.
    pub fn into_diagnostics(self) -> (bag: DiagnosticBag)
        ensures
            bag@ == self.diagnostics(),
    {
        self.diagnostics_bag
    }

    /// The statement at the cursor; `None` at the end of the tokens.
    pub fn next_statement(&mut self) -> (statement: Option<ASTStatement>)
        requires
            old(self).wf(),
        ensures
            final(self).wf(),
            final(self).tokens() == old(self).tokens(),
            match parse_statement(old(self).tokens(), old(self).position(), old(self).diagnostics()) {
                Some(parsed) => {
                    &&& statement.is_some()
                    &&& statement.unwrap()@ == parsed.statement
                    &&& final(self).position() == parsed.position
                    &&& final(self).diagnostics() == parsed.diagnostics
                    &&& final(self).position() > old(self).position()
                },
                None => {
                    &&& statement.is_none()
                    &&& final(self).position() == old(self).position()
                    &&& final(self).diagnostics() == old(self).diagnostics()
                },
            },
    {
        self.parse_statement()
    }

    /// The statement at the cursor; `None` at the end of the tokens.
    fn parse_statement(&mut self) -> (statement: Option<ASTStatement>)
        requires
            old(self).wf(),
        ensures
            final(self).wf(),
            final(self).tokens() == old(self).tokens(),
            match parse_statement(old(self).tokens(), old(self).position(), old(self).diagnostics()) {
                Some(parsed) => {
                    &&& statement.is_some()
                    &&& statement.unwrap()@ == parsed.statement
                    &&& final(self).position() == parsed.position
                    &&& final(self).diagnostics() == parsed.diagnostics
                    &&& final(self).position() > old(self).position()
                },
                None => {
                    &&& statement.is_none()
                    &&& final(self).position() == old(self).position()
                    &&& final(self).diagnostics() == old(self).diagnostics()
                },
            },
    {
        match self.kind_at_cursor() {
            TokenKind::EOF => None,
            TokenKind::Let => Some(self.parse_let_statement()),
            _ => {
                let expr: ASTExpression = self.parse_expression();
                Some(ASTStatement::expression(expr))
            },
        }
    }

    /// Reads `let name = expression`; the cursor stands on the keyword.
    fn parse_let_statement(&mut self) -> (statement: ASTStatement)
        requires
            old(self).wf(),
            token_or_end(old(self).tokens(), old(self).position()).kind == TokenKind::Let,
        ensures
            final(self).wf(),
            final(self).tokens() == old(self).tokens(),
            ({
                let parsed = parse_let(
                    old(self).tokens(),
                    old(self).position(),
                    old(self).diagnostics(),
                );
                &&& statement@ == parsed.statement
                &&& final(self).position() == parsed.position
                &&& final(self).diagnostics() == parsed.diagnostics
                &&& final(self).position() > old(self).position()
            }),
    {
        self.consume();
        let identifier = self.token_at_cursor();
        match identifier.kind {
            TokenKind::Identifier => {
                self.consume();
            },
            _ => {
                self.diagnostics_bag.report_unexpected_token(&TokenKind::Identifier, &identifier);
            },
        }
        let sign = self.token_at_cursor();
        match sign.kind {
            TokenKind::Equals => {
                self.consume();
            },
            _ => {
                self.diagnostics_bag.report_unexpected_token(&TokenKind::Equals, &sign);
            },
        }
        let initializer = self.parse_expression();
        ASTStatement::let_statement(identifier, initializer)
    }

    /// Reads an expression with operators of any precedence.
    fn parse_expression(&mut self) -> (expression: ASTExpression)
        requires
            old(self).wf(),
        ensures
            final(self).wf(),
            final(self).tokens() == old(self).tokens(),
            ({
                let parsed = parse_binary(
                    old(self).tokens(),
                    old(self).position(),
                    old(self).diagnostics(),
                    0,
                );
                &&& expression@ == parsed.expression
                &&& final(self).position() == parsed.position
                &&& final(self).diagnostics() == parsed.diagnostics
            }),
            final(self).position() >= old(self).position(),
            final(self).position() > old(self).position() || token_or_end(
                old(self).tokens(),
                old(self).position(),
            ).kind == TokenKind::EOF,
        decreases old(self).tokens().len() - old(self).position(), 2int,
    {
        self.parse_binary_expression(0)
    }

    /// Reads the longest expression whose operators outside parentheses
    /// all have a precedence of at least `precedence`.
    fn parse_binary_expression(&mut self, precedence: u8) -> (expression: ASTExpression)
        requires
            old(self).wf(),
        ensures
            final(self).wf(),
            final(self).tokens() == old(self).tokens(),
            ({
                let parsed = parse_binary(
                    old(self).tokens(),
                    old(self).position(),
                    old(self).diagnostics(),
                    precedence as int,
                );
                &&& expression@ == parsed.expression
                &&& final(self).position() == parsed.position
                &&& final(self).diagnostics() == parsed.diagnostics
            }),
            final(self).position() >= old(self).position(),
            final(self).position() > old(self).position() || token_or_end(
                old(self).tokens(),
                old(self).position(),
            ).kind == TokenKind::EOF,
        decreases old(self).tokens().len() - old(self).position(), 1int,
    {
        let ghost tokens = self.tokens();
        let ghost start = self.position();
        let ghost first = parse_primary(tokens, start, self.diagnostics());
        let begin = self.current;
        let mut left = self.parse_primary_expression();
        if self.current == begin {
            return left;
        }
        let ghost target = parse_operators(tokens, first, precedence as int);
        loop
            invariant
                self.wf(),
                self.tokens() == tokens,
                tokens == old(self).tokens(),
                start == old(self).position(),
                start < self.position(),
                parse_operators(
                    tokens,
                    Parsed {
                        expression: left@,
                        position: self.position(),
                        diagnostics: self.diagnostics(),
                    },
                    precedence as int,
                ) == target,
            ensures
                self.wf(),
                self.tokens() == tokens,
                start < self.position(),
                target == (Parsed {
                    expression: left@,
                    position: self.position(),
                    diagnostics: self.diagnostics(),
                }),
            decreases tokens.len() - self.position(),
        {
            if left.ends_with_error() {
                break ;
            }
            let operator = match self.parse_binary_operator() {
                Some(operator) => operator,
                None => { break ; },
            };
            let operator_precedence = operator.precedence();
            if operator_precedence < precedence {
                break ;
            }
            self.consume();
            let right = self.parse_binary_expression(operator_precedence + 1);
            left = ASTExpression::binary(operator, left, right);
        }
        left
    }

    /// The operator at the cursor, if an operator stands there. Nothing is read.
    fn parse_binary_operator(&self) -> (operator: Option<ASTBinaryOperator>)
        ensures
            ({
                let token = token_or_end(self.tokens(), self.position());
                match operator_kind(token.kind) {
                    Some(kind) => {
                        &&& operator.is_some()
                        &&& operator.unwrap()@ == (OperatorView { kind, token })
                        &&& 0 <= self.position() < self.tokens().len()
                    },
                    None => operator.is_none(),
                }
            }),
    {
        let token = self.peek(0)?;
        let kind = match token.kind {
            TokenKind::Plus => Some(ASTBinaryOperatorKind::Plus),
            TokenKind::Minus => Some(ASTBinaryOperatorKind::Minus),
            TokenKind::Asterisk => Some(ASTBinaryOperatorKind::Multiply),
            TokenKind::Slash => Some(ASTBinaryOperatorKind::Divide),
            _ => None,
        };
        match kind {
            Some(kind) => Some(ASTBinaryOperator::new(kind, token.clone())),
            None => None,
        }
    }

    /// Reads one operand: a number, a name, or an expression in parentheses.
    fn parse_primary_expression(&mut self) -> (expression: ASTExpression)
        requires
            old(self).wf(),
        ensures
            final(self).wf(),
            final(self).tokens() == old(self).tokens(),
            ({
                let parsed = parse_primary(
                    old(self).tokens(),
                    old(self).position(),
                    old(self).diagnostics(),
                );
                &&& expression@ == parsed.expression
                &&& final(self).position() == parsed.position
                &&& final(self).diagnostics() == parsed.diagnostics
            }),
            final(self).position() >= old(self).position(),
            final(self).position() > old(self).position() || token_or_end(
                old(self).tokens(),
                old(self).position(),
            ).kind == TokenKind::EOF,
        decreases old(self).tokens().len() - old(self).position(), 0int,
    {
        let token = self.token_at_cursor();
        match token.kind {
            TokenKind::Number(number) => {
                self.consume();
                ASTExpression::number(number)
            },
            TokenKind::Identifier => {
                self.consume();
                ASTExpression::identifier(token)
            },
            TokenKind::LeftParen => {
                self.consume();
                let expr = self.parse_expression();
                let right_token = self.token_at_cursor();
                match right_token.kind {
                    TokenKind::RightParen => {
                        self.consume();
                        ASTExpression::parenthesized(expr)
                    },
                    _ => {
                        self.diagnostics_bag.report_unexpected_token(
                            &TokenKind::RightParen,
                            &right_token,
                        );
                        ASTExpression::error(right_token.span)
                    },
                }
            },
            TokenKind::EOF => {
                self.diagnostics_bag.report_expected_expression(&token);
                ASTExpression::error(token.span)
            },
            _ => {
                self.consume();
                self.diagnostics_bag.report_expected_expression(&token);
                ASTExpression::error(token.span)
            },
        }
    }

    /// The token `offset` places from the cursor, if there is one.
    fn peek(&self, offset: isize) -> (token: Option<&Token>)
        ensures
            0 <= self.position() + offset < self.tokens().len() ==> token.is_some()
                && token.unwrap()@ == self.tokens()[self.position() + offset],
            !(0 <= self.position() + offset < self.tokens().len()) ==> token.is_none(),
    {
        let target: i128 = self.current as i128 + offset as i128;
        if target < 0 || target >= self.tokens.len() as i128 {
            None
        } else {
            Some(&self.tokens[target as usize])
        }
    }

    /// The token at the cursor, if there is one.
    fn current(&self) -> (token: Option<&Token>)
        ensures
            0 <= self.position() < self.tokens().len() ==> token.is_some() && token.unwrap()@
                == self.tokens()[self.position()],
            self.position() >= self.tokens().len() ==> token.is_none(),
    {
        self.peek(0)
    }

    /// A copy of the token at the cursor, or the closing token.
    fn token_at_cursor(&self) -> (token: Token)
        ensures
            token@ == token_or_end(self.tokens(), self.position()),
    {
        match self.current() {
            Some(token) => token.clone(),
            None => {
                let end = if self.tokens.len() > 0 {
                    self.tokens[self.tokens.len() - 1].span.end()
                } else {
                    0
                };
                Token::new(TokenKind::EOF, TextSpan::new(end, end, String::new()))
            },
        }
    }

    /// The kind of the token at the cursor, `EOF` beyond the last one.
    fn kind_at_cursor(&self) -> (kind: TokenKind)
        ensures
            kind == token_or_end(self.tokens(), self.position()).kind,
    {
        match self.current() {
            Some(token) => token.kind,
            None => TokenKind::EOF,
        }
    }

    /// Steps over the token at the cursor and returns a copy of it; beyond
    /// the last token nothing moves.
    fn consume(&mut self) -> (token: Option<Token>)
        requires
            old(self).wf(),
        ensures
            final(self).wf(),
            final(self).tokens() == old(self).tokens(),
            final(self).diagnostics() == old(self).diagnostics(),
            old(self).position() < old(self).tokens().len() ==> token.is_some()
                && token.unwrap()@ == old(self).tokens()[old(self).position()] && final(self).position() == old(self).position() + 1,
            old(self).position() >= old(self).tokens().len() ==> token.is_none() && final(self).position() == old(self).position(),
    {
        if self.current < self.tokens.len() {
            let token = self.tokens[self.current].clone();
            self.current += 1;
            Some(token)
        } else {
            None
        }
    }
}

} // verus!
