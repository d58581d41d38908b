//! Computing the value of a program.

use crate::ast::{
    walked, ASTBinaryExpression, ASTBinaryOperatorKind, ASTExpression, ASTExpressionKind,
    ASTLetStatement, ASTNumberExpression, ASTParenthesizedExpression, ASTStatement,
    ASTStatementKind, ASTVariableExpression, ASTVisitor, ExpressionView, StatementView,
};
use crate::ast::lexer::TextSpan;
use vstd::hash_map::StringHashMap;
use vstd::prelude::*;

verus! {

/// Why a program has no value.
#[derive(Debug, PartialEq, Eq, Clone, Copy, Structural)]
pub enum EvaluationError {
    /// The right operand of a division was zero.
    DivisionByZero,
    /// A result does not fit in 64 bits.
    Overflow,
    /// A name was read that no `let` had bound.
    UndeclaredVariable,
    /// The tree holds an `Error` node.
    MalformedExpression,
}

/// The quotient of `a` by `b`, rounded toward zero.
pub open spec fn truncated_quotient(a: int, b: int) -> int
    recommends
        b != 0,
{
    if a >= 0 && b > 0 {
        a / b
    } else if a >= 0 {
        -(a / (-b))
    } else if b > 0 {
        -((-a) / b)
    } else {
        (-a) / (-b)
    }
}

/// The exact result of applying an operator to two integers.
pub open spec fn arithmetic(kind: ASTBinaryOperatorKind, a: int, b: int) -> int
    recommends
        kind == ASTBinaryOperatorKind::Divide ==> b != 0,
{
    match kind {
        ASTBinaryOperatorKind::Plus => a + b,
        ASTBinaryOperatorKind::Minus => a - b,
        ASTBinaryOperatorKind::Multiply => a * b,
        ASTBinaryOperatorKind::Divide => truncated_quotient(a, b),
    }
}

/// An operator applied to two values: the exact result where it fits in
/// 64 bits; division by zero and results out of range are errors.
pub open spec fn apply(kind: ASTBinaryOperatorKind, a: i64, b: i64) -> Result<i64, EvaluationError> {
    if kind == ASTBinaryOperatorKind::Divide && b == 0 {
        Err(EvaluationError::DivisionByZero)
    } else {
        let exact = arithmetic(kind, a as int, b as int);
        if i64::MIN <= exact <= i64::MAX {
            Ok(exact as i64)
        } else {
            Err(EvaluationError::Overflow)
        }
    }
}

/// The value of an expression where the variables have the given values.
/// Operands are taken left to right, and the first error ends the evaluation.
pub open spec fn evaluate(expression: ExpressionView, variables: Map<Seq<char>, i64>) -> Result<i64, EvaluationError>
    decreases expression,
{
    match expression {
        ExpressionView::Number(number) => Ok(number),
        ExpressionView::Variable(token) => if variables.contains_key(token.span.literal) {
            Ok(variables[token.span.literal])
        } else {
            Err(EvaluationError::UndeclaredVariable)
        },
        ExpressionView::Parenthesized(inner) => evaluate(*inner, variables),
        ExpressionView::Binary { operator, left, right } => match evaluate(*left, variables) {
            Err(error) => Err(error),
            Ok(a) => match evaluate(*right, variables) {
                Err(error) => Err(error),
                Ok(b) => apply(operator.kind, a, b),
            },
        },
        ExpressionView::Error(_) => Err(EvaluationError::MalformedExpression),
    }
}

/// The mathematical content of an [`ASTEvaluator`].
pub struct EvaluatorView {
    pub last_value: Option<i64>,
    pub variables: Map<Seq<char>, i64>,
    pub failure: Option<EvaluationError>,
}

/// The evaluator before it has seen anything.
pub open spec fn initial_evaluator() -> EvaluatorView {
    EvaluatorView { last_value: None, variables: Map::empty(), failure: None }
}

/// The state after an expression has been walked. An evaluator that has
/// failed stays as it is; an error leaves no value behind.
pub open spec fn after_expression(state: EvaluatorView, expression: ExpressionView) -> EvaluatorView {
    if state.failure.is_some() {
        state
    } else {
        match evaluate(expression, state.variables) {
            Ok(value) => EvaluatorView { last_value: Some(value), ..state },
            Err(error) => EvaluatorView { last_value: None, failure: Some(error), ..state },
        }
    }
}

/// The state after a statement has been walked. A `let` binds its name to
/// the value of its initializer, in place of any earlier binding.
pub open spec fn after_statement(state: EvaluatorView, statement: StatementView) -> EvaluatorView {
    match statement {
        StatementView::Expression(expression) => after_expression(state, expression),
        StatementView::Let { identifier, initializer } => {
            let computed = after_expression(state, initializer);
            match computed.last_value {
                Some(value) if computed.failure.is_none() => EvaluatorView {
                    variables: computed.variables.insert(identifier.span.literal, value),
                    ..computed
                },
                _ => computed,
            }
        },
    }
}

/// The state after the statements have been walked in order.
pub open spec fn after_program(state: EvaluatorView, statements: Seq<StatementView>) -> EvaluatorView {
    walked::<ASTEvaluator>(state, statements)
}

/// Walks a program and computes its value: the value of its last statement.
pub struct ASTEvaluator {
    pub last_value: Option<i64>,
    pub variables: StringHashMap<i64>,
    pub failure: Option<EvaluationError>,
}

impl View for ASTEvaluator {
    type V = EvaluatorView;

    open spec fn view(&self) -> EvaluatorView {
        EvaluatorView {
            last_value: self.last_value,
            variables: self.variables@,
            failure: self.failure,
        }
    }
}

impl ASTEvaluator {
    /// An evaluator that has seen nothing and knows no name.
    pub fn new() -> (evaluator: Self)
        ensures
            evaluator@ == initial_evaluator(),
    {
        Self { last_value: None, variables: StringHashMap::new(), failure: None }
    }

    /// Records an error: the value is gone and the evaluator halts.
    fn fail(&mut self, error: EvaluationError)
        ensures
            final(self)@ == (EvaluatorView {
                last_value: None,
                failure: Some(error),
                ..old(self)@
            }),
    {
        self.last_value = None;
        self.failure = Some(error);
    }

    /// Evaluates the initializer and binds the name to its value.
    pub fn visit_let_statement(&mut self, let_statement: &ASTLetStatement)
        ensures
            final(self)@ == after_statement(
                old(self)@,
                StatementView::Let {
                    identifier: let_statement.identifier@,
                    initializer: let_statement.initializer@,
                },
            ),
    {
        self.visit_expression(&let_statement.initializer);
        if self.failure.is_some() {
            return ;
        }
        match self.last_value {
            Some(value) => {
                let name = let_statement.identifier.span.literal().to_owned();
                self.variables.insert(name, value);
            },
            None => {},
        }
    }

    /// Evaluates the expression; its value becomes the last value.
    pub fn visit_expression(&mut self, expression: &ASTExpression)
        ensures
            final(self)@ == after_expression(old(self)@, expression@),
        decreases expression,
    {
        if self.failure.is_some() {
            return ;
        }
        match &expression.kind {
            ASTExpressionKind::Number(number) => self.visit_number_expression(number),
            ASTExpressionKind::Binary(binary) => self.visit_binary_expression(binary),
            ASTExpressionKind::Parenthesized(parenthesized) => {
                self.visit_parenthesized_expression(parenthesized)
            },
            ASTExpressionKind::Error(span) => self.visit_error(span),
            ASTExpressionKind::Variable(expr) => self.visit_variable_expression(expr),
        }
    }

    /// Looks the name up; an unbound name is an error.
    pub fn visit_variable_expression(&mut self, expr: &ASTVariableExpression)
        ensures
            final(self)@ == after_expression(old(self)@, ExpressionView::Variable(expr.token@)),
    {
        if self.failure.is_some() {
            return ;
        }
        match self.variables.get(expr.token.span.literal()) {
            Some(value) => {
                self.last_value = Some(*value);
            },
            None => {
                self.fail(EvaluationError::UndeclaredVariable);
            },
        }
    }

    /// Evaluates what stands in the parentheses.
    pub fn visit_parenthesized_expression(&mut self, expr: &ASTParenthesizedExpression)
        ensures
            final(self)@ == after_expression(
                old(self)@,
                ExpressionView::Parenthesized(Box::new(expr.expression@)),
            ),
        decreases expr,
    {
        if self.failure.is_some() {
            return ;
        }
        self.visit_expression(&expr.expression);
    }

    /// The value of a literal is its number.
    pub fn visit_number_expression(&mut self, number: &ASTNumberExpression)
        ensures
            final(self)@ == after_expression(old(self)@, ExpressionView::Number(number.number)),
    {
        if self.failure.is_some() {
            return ;
        }
        self.last_value = Some(number.number);
    }

    /// Evaluates the left operand, then the right one, and applies the
    /// operator to their values.
    pub fn visit_binary_expression(&mut self, expr: &ASTBinaryExpression)
        ensures
            final(self)@ == after_expression(
                old(self)@,
                ExpressionView::Binary {
                    operator: expr.operator@,
                    left: Box::new(expr.left@),
                    right: Box::new(expr.right@),
                },
            ),
        decreases expr,
    {
        if self.failure.is_some() {
            return ;
        }
        let ghost whole = ExpressionView::Binary {
            operator: expr.operator@,
            left: Box::new(expr.left@),
            right: Box::new(expr.right@),
        };
        assert(evaluate(whole, self.variables@) == match evaluate(expr.left@, self.variables@) {
            Err(error) => Err(error),
            Ok(a) => match evaluate(expr.right@, self.variables@) {
                Err(error) => Err(error),
                Ok(b) => apply(expr.operator.kind, a, b),
            },
        });
        self.visit_expression(&expr.left);
        if self.failure.is_some() {
            return ;
        }
        let left = match self.last_value {
            Some(left) => left,
            None => { return ; },
        };
        self.visit_expression(&expr.right);
        if self.failure.is_some() {
            return ;
        }
        let right = match self.last_value {
            Some(right) => right,
            None => { return ; },
        };
        let result = match expr.operator.kind {
            ASTBinaryOperatorKind::Plus => left.checked_add(right),
            ASTBinaryOperatorKind::Minus => left.checked_sub(right),
            ASTBinaryOperatorKind::Multiply => left.checked_mul(right),
            ASTBinaryOperatorKind::Divide => {
                if right == 0 {
                    self.fail(EvaluationError::DivisionByZero);
                    return ;
                }
                left.checked_div(right)
            },
        };
        match result {
            Some(value) => {
                self.last_value = Some(value);
            },
            None => {
                self.fail(EvaluationError::Overflow);
            },
        }
    }

    /// An `Error` node has no value.
    pub fn visit_error(&mut self, span: &TextSpan)
        ensures
            final(self)@ == after_expression(old(self)@, ExpressionView::Error(span@)),
    {
        if self.failure.is_some() {
            return ;
        }
        self.fail(EvaluationError::MalformedExpression);
    }
}

impl ASTVisitor for ASTEvaluator {
    type State = EvaluatorView;

    open spec fn state(&self) -> EvaluatorView {
        self@
    }

    open spec fn step(state: EvaluatorView, statement: StatementView) -> EvaluatorView {
        after_statement(state, statement)
    }

    /// Evaluates one statement.
    fn visit_statement(&mut self, statement: &ASTStatement) {
        match &statement.kind {
            ASTStatementKind::Expression(expr) => self.visit_expression(expr),
            ASTStatementKind::LetStatement(let_statement) => self.visit_let_statement(
                let_statement,
            ),
        }
    }
}

} // verus!
