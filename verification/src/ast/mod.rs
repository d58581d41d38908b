//! Tokens, syntax trees and the passes that walk them.

use crate::ast::lexer::{SpanView, TextSpan, Token, TokenView};
use crate::ast::printer::{
    colors, lemma_walked_printer, printer_start, rendered_program, ASTPrinter,
};
use vstd::prelude::*;

pub mod evaluator;
pub mod grammar;
pub mod lexer;
pub mod parser;
pub mod printer;
pub mod roundtrip;
pub mod symbols;

verus! {

/// The four arithmetic operators.
#[derive(Debug, PartialEq, Eq, Clone, Copy, Structural)]
pub enum ASTBinaryOperatorKind {
    Plus,
    Minus,
    Multiply,
    Divide,
}

/// How tightly an operator binds; a higher number binds tighter.
pub open spec fn precedence_of(kind: ASTBinaryOperatorKind) -> u8 {
    match kind {
        ASTBinaryOperatorKind::Plus | ASTBinaryOperatorKind::Minus => 1,
        ASTBinaryOperatorKind::Multiply | ASTBinaryOperatorKind::Divide => 2,
    }
}

/// The mathematical content of an [`ASTBinaryOperator`].
pub struct OperatorView {
    pub kind: ASTBinaryOperatorKind,
    pub token: TokenView,
}

/// An operator together with the token it was read from.
#[derive(Debug)]
pub struct ASTBinaryOperator {
    pub kind: ASTBinaryOperatorKind,
    pub token: Token,
}

impl View for ASTBinaryOperator {
    type V = OperatorView;

    open spec fn view(&self) -> OperatorView {
        OperatorView { kind: self.kind, token: self.token@ }
    }
}

impl ASTBinaryOperator {
    /// An operator of the given kind, read from the given token.
    pub fn new(kind: ASTBinaryOperatorKind, token: Token) -> (operator: Self)
        ensures
            operator.kind == kind,
            operator.token == token,
    {
        ASTBinaryOperator { kind, token }
    }

    /// How tightly the operator binds; a higher number binds tighter.
    pub fn precedence(&self) -> (p: u8)
        ensures
            p == precedence_of(self.kind),
    {
        match self.kind {
            ASTBinaryOperatorKind::Plus | ASTBinaryOperatorKind::Minus => 1,
            ASTBinaryOperatorKind::Multiply | ASTBinaryOperatorKind::Divide => 2,
        }
    }
}

/// An expression as a mathematical tree.
pub enum ExpressionView {
    Number(i64),
    Binary { operator: OperatorView, left: Box<ExpressionView>, right: Box<ExpressionView> },
    Parenthesized(Box<ExpressionView>),
    Variable(TokenView),
    Error(SpanView),
}

/// A statement as a mathematical tree.
pub enum StatementView {
    Expression(ExpressionView),
    Let { identifier: TokenView, initializer: ExpressionView },
}

/// A reference to a variable; the token's literal is the name.
#[derive(Debug)]
pub struct ASTVariableExpression {
    pub token: Token,
}

impl ASTVariableExpression {
    /// The token that names the variable.
    pub fn identifier(&self) -> (token: &Token)
        ensures
            token == self.token,
    {
        &self.token
    }
}

/// A number literal.
#[derive(Debug)]
pub struct ASTNumberExpression {
    pub number: i64,
}

/// An expression in parentheses.
#[derive(Debug)]
pub struct ASTParenthesizedExpression {
    pub expression: Box<ASTExpression>,
}

/// Two operands joined by an operator.
#[derive(Debug)]
pub struct ASTBinaryExpression {
    pub operator: ASTBinaryOperator,
    pub left: Box<ASTExpression>,
    pub right: Box<ASTExpression>,
}

/// The forms an expression can take. `Error` stands where no expression
/// could be read, and carries the span of what was found there.
#[derive(Debug)]
pub enum ASTExpressionKind {
    Number(ASTNumberExpression),
    Binary(ASTBinaryExpression),
    Parenthesized(ASTParenthesizedExpression),
    Variable(ASTVariableExpression),
    Error(TextSpan),
}

/// A node of the expression tree. Each node owns its children.
#[derive(Debug)]
pub struct ASTExpression {
    pub kind: ASTExpressionKind,
}

/// The tree that an expression node stands for.
pub open spec fn expression_view(expression: &ASTExpression) -> ExpressionView
    decreases expression,
{
    match &expression.kind {
        ASTExpressionKind::Number(number) => ExpressionView::Number(number.number),
        ASTExpressionKind::Binary(binary) => ExpressionView::Binary {
            operator: binary.operator@,
            left: Box::new(expression_view(&*binary.left)),
            right: Box::new(expression_view(&*binary.right)),
        },
        ASTExpressionKind::Parenthesized(parenthesized) => ExpressionView::Parenthesized(
            Box::new(expression_view(&*parenthesized.expression)),
        ),
        ASTExpressionKind::Variable(variable) => ExpressionView::Variable(variable.token@),
        ASTExpressionKind::Error(span) => ExpressionView::Error(span@),
    }
}

impl View for ASTExpression {
    type V = ExpressionView;

    open spec fn view(&self) -> ExpressionView {
        expression_view(self)
    }
}

impl ASTExpression {
    /// A node of the given form.
    pub fn new(kind: ASTExpressionKind) -> (expression: Self)
        ensures
            expression.kind == kind,
    {
        ASTExpression { kind }
    }

    /// A number literal.
    pub fn number(number: i64) -> (expression: Self)
        ensures
            expression@ == ExpressionView::Number(number),
    {
        ASTExpression::new(ASTExpressionKind::Number(ASTNumberExpression { number }))
    }

    /// The node that stands where no expression could be read.
    pub fn error(span: TextSpan) -> (expression: Self)
        ensures
            expression@ == ExpressionView::Error(span@),
    {
        ASTExpression::new(ASTExpressionKind::Error(span))
    }

    /// Two operands joined by an operator.
    pub fn binary(operator: ASTBinaryOperator, left: ASTExpression, right: ASTExpression) -> (expression: Self)
        ensures
            expression@ == (ExpressionView::Binary {
                operator: operator@,
                left: Box::new(left@),
                right: Box::new(right@),
            }),
    {
        ASTExpression::new(
            ASTExpressionKind::Binary(
                ASTBinaryExpression { operator, left: Box::new(left), right: Box::new(right) },
            ),
        )
    }

    /// A reference to the variable that the token names.
    pub fn identifier(token: Token) -> (expression: Self)
        ensures
            expression@ == ExpressionView::Variable(token@),
    {
        ASTExpression::new(ASTExpressionKind::Variable(ASTVariableExpression { token }))
    }

    /// An expression in parentheses.
    pub fn parenthesized(expression: ASTExpression) -> (wrapped: Self)
        ensures
            wrapped@ == ExpressionView::Parenthesized(Box::new(expression@)),
    {
        ASTExpression::new(
            ASTExpressionKind::Parenthesized(
                ASTParenthesizedExpression { expression: Box::new(expression) },
            ),
        )
    }
}

/// `let identifier = initializer`.
#[derive(Debug)]
pub struct ASTLetStatement {
    pub identifier: Token,
    pub initializer: ASTExpression,
}

/// The forms a statement can take.
#[derive(Debug)]
pub enum ASTStatementKind {
    Expression(ASTExpression),
    LetStatement(ASTLetStatement),
}

/// One statement of a program.
#[derive(Debug)]
pub struct ASTStatement {
    pub kind: ASTStatementKind,
}

impl View for ASTStatement {
    type V = StatementView;

    open spec fn view(&self) -> StatementView {
        match &self.kind {
            ASTStatementKind::Expression(expression) => StatementView::Expression(expression@),
            ASTStatementKind::LetStatement(statement) => StatementView::Let {
                identifier: statement.identifier@,
                initializer: statement.initializer@,
            },
        }
    }
}

impl ASTStatement {
    /// A statement of the given form.
    pub fn new(kind: ASTStatementKind) -> (statement: Self)
        ensures
            statement.kind == kind,
    {
        ASTStatement { kind }
    }

    /// A statement that is an expression.
    pub fn expression(expr: ASTExpression) -> (statement: Self)
        ensures
            statement@ == StatementView::Expression(expr@),
    {
        ASTStatement::new(ASTStatementKind::Expression(expr))
    }

    /// The statement `let identifier = initializer`.
    pub fn let_statement(identifier: Token, initializer: ASTExpression) -> (statement: Self)
        ensures
            statement@ == (StatementView::Let {
                identifier: identifier@,
                initializer: initializer@,
            }),
    {
        ASTStatement::new(
            ASTStatementKind::LetStatement(ASTLetStatement { identifier, initializer }),
        )
    }
}

/// A pass over a program, statement by statement. `State` is what the pass
/// has gathered, and `step` says what one statement adds to it.
pub trait ASTVisitor {
    type State;

    /// What the pass has gathered so far.
    spec fn state(&self) -> Self::State;

    /// What the pass has gathered once it has walked one more statement.
    spec fn step(state: Self::State, statement: StatementView) -> Self::State;

    /// Walks one statement.
    fn visit_statement(&mut self, statement: &ASTStatement)
        ensures
            final(self).state() == Self::step(old(self).state(), statement@),
    ;
}

/// What a pass has gathered once it has walked the statements in order.
pub open spec fn walked<V: ASTVisitor>(state: V::State, statements: Seq<StatementView>) -> V::State
    decreases statements.len(),
{
    if statements.len() == 0 {
        state
    } else {
        V::step(walked::<V>(state, statements.drop_last()), statements.last())
    }
}

/// A program: its statements in source order.
#[derive(Debug)]
pub struct Ast {
    pub statements: Vec<ASTStatement>,
}

impl View for Ast {
    type V = Seq<StatementView>;

    open spec fn view(&self) -> Seq<StatementView> {
        self.statements@.map_values(|s: ASTStatement| s@)
    }
}

impl Ast {
    /// A program without statements.
    pub fn new() -> (ast: Self)
        ensures
            ast@ == Seq::<StatementView>::empty(),
    {
        let ast = Self { statements: Vec::new() };
        assert(ast@ =~= Seq::<StatementView>::empty());
        ast
    }

    /// Walks the statements in source order.
    pub fn visit<V: ASTVisitor>(&self, visitor: &mut V)
        ensures
            final(visitor).state() == walked::<V>(old(visitor).state(), self@),
    {
        let mut i: usize = 0;
        assert(self@.take(0) =~= Seq::<StatementView>::empty());
        while i < self.statements.len()
            invariant
                i <= self.statements.len(),
                visitor.state() == walked::<V>(old(visitor).state(), self@.take(i as int)),
            decreases self.statements.len() - i,
        {
            visitor.visit_statement(&self.statements[i]);
            assert(self@.take(i as int + 1).drop_last() =~= self@.take(i as int));
            assert(self@.take(i as int + 1).last() == self.statements[i as int]@);
            i += 1;
        }
        assert(self@.take(self.statements.len() as int) =~= self@);
    }

    /// The program as coloured text, one line for each statement.
    pub fn visualize(&self) -> (text: String)
        ensures
            text@ == rendered_program(self@, colors()),
    {
        let mut printer = ASTPrinter::new();
        self.visit(&mut printer);
        proof {
            lemma_walked_printer(printer_start(true), self@);
        }
        printer.result
    }

    /// Appends a statement to the program.
    pub fn add_statement(&mut self, statement: ASTStatement)
        ensures
            final(self)@ == old(self)@.push(statement@),
    {
        self.statements.push(statement);
        assert(self@ =~= old(self)@.push(statement@));
    }
}

} // verus!
