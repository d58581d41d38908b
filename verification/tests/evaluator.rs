use exprlang::ast::evaluator::{ASTEvaluator, EvaluationError};
use exprlang::ast::lexer::{TextSpan, Token, TokenKind};
use exprlang::ast::{
    ASTBinaryOperator, ASTBinaryOperatorKind, ASTExpression, ASTStatement, ASTVisitor, Ast,
};
use exprlang::diagnostics::DiagnosticBag;
use exprlang::pipeline::{parse, tokenize};

fn operator(kind: ASTBinaryOperatorKind) -> ASTBinaryOperator {
    let (token_kind, text) = match kind {
        ASTBinaryOperatorKind::Plus => (TokenKind::Plus, "+"),
        ASTBinaryOperatorKind::Minus => (TokenKind::Minus, "-"),
        ASTBinaryOperatorKind::Multiply => (TokenKind::Asterisk, "*"),
        ASTBinaryOperatorKind::Divide => (TokenKind::Slash, "/"),
    };
    ASTBinaryOperator::new(kind, Token::new(token_kind, TextSpan::new(0, 1, text.to_string())))
}

fn binary(kind: ASTBinaryOperatorKind, left: i64, right: i64) -> ASTExpression {
    ASTExpression::binary(operator(kind), ASTExpression::number(left), ASTExpression::number(right))
}

fn name(text: &str) -> Token {
    Token::new(TokenKind::Identifier, TextSpan::new(0, text.len(), text.to_string()))
}

fn evaluated(expression: &ASTExpression) -> ASTEvaluator {
    let mut evaluator = ASTEvaluator::new();
    evaluator.visit_expression(expression);
    evaluator
}

fn value(kind: ASTBinaryOperatorKind, left: i64, right: i64) -> Result<i64, EvaluationError> {
    let evaluator = evaluated(&binary(kind, left, right));
    match evaluator.failure {
        Some(error) => {
            assert_eq!(evaluator.last_value, None);
            Err(error)
        }
        None => Ok(evaluator.last_value.unwrap()),
    }
}

fn program(input: &str) -> Ast {
    let (ast, bag) = parse(tokenize(input), DiagnosticBag::new());
    assert!(bag.diagnostics.is_empty());
    ast
}

#[test]
fn a_new_evaluator_knows_nothing() {
    let evaluator = ASTEvaluator::new();
    assert_eq!(evaluator.last_value, None);
    assert_eq!(evaluator.failure, None);
    assert_eq!(evaluator.variables.len(), 0);
}

#[test]
fn number_is_its_own_value() {
    let evaluator = evaluated(&ASTExpression::number(-42));
    assert_eq!(evaluator.last_value, Some(-42));
    assert_eq!(evaluator.failure, None);
}

#[test]
fn the_four_operations() {
    assert_eq!(value(ASTBinaryOperatorKind::Plus, 7, 8), Ok(15));
    assert_eq!(value(ASTBinaryOperatorKind::Minus, 7, 8), Ok(-1));
    assert_eq!(value(ASTBinaryOperatorKind::Multiply, 7, 8), Ok(56));
    assert_eq!(value(ASTBinaryOperatorKind::Divide, 56, 8), Ok(7));
}

#[test]
fn division_rounds_toward_zero() {
    assert_eq!(value(ASTBinaryOperatorKind::Divide, 10, 3), Ok(3));
    assert_eq!(value(ASTBinaryOperatorKind::Divide, -10, 3), Ok(-3));
    assert_eq!(value(ASTBinaryOperatorKind::Divide, 10, -3), Ok(-3));
    assert_eq!(value(ASTBinaryOperatorKind::Divide, -10, -3), Ok(3));
    assert_eq!(value(ASTBinaryOperatorKind::Divide, 0, 5), Ok(0));
    assert_eq!(value(ASTBinaryOperatorKind::Divide, 2, 3), Ok(0));
    assert_eq!(value(ASTBinaryOperatorKind::Divide, -2, 3), Ok(0));
}

#[test]
fn division_by_zero_is_an_error() {
    assert_eq!(value(ASTBinaryOperatorKind::Divide, 10, 0), Err(EvaluationError::DivisionByZero));
    assert_eq!(value(ASTBinaryOperatorKind::Divide, 0, 0), Err(EvaluationError::DivisionByZero));
}

#[test]
fn results_out_of_range_are_errors() {
    assert_eq!(value(ASTBinaryOperatorKind::Plus, i64::MAX, 1), Err(EvaluationError::Overflow));
    assert_eq!(value(ASTBinaryOperatorKind::Plus, i64::MAX, 0), Ok(i64::MAX));
    assert_eq!(value(ASTBinaryOperatorKind::Minus, i64::MIN, 1), Err(EvaluationError::Overflow));
    assert_eq!(value(ASTBinaryOperatorKind::Minus, 0, i64::MIN), Err(EvaluationError::Overflow));
    assert_eq!(
        value(ASTBinaryOperatorKind::Multiply, i64::MAX, 2),
        Err(EvaluationError::Overflow)
    );
    assert_eq!(
        value(ASTBinaryOperatorKind::Multiply, i64::MIN, -1),
        Err(EvaluationError::Overflow)
    );
    assert_eq!(value(ASTBinaryOperatorKind::Divide, i64::MIN, -1), Err(EvaluationError::Overflow));
    assert_eq!(value(ASTBinaryOperatorKind::Divide, i64::MIN, 1), Ok(i64::MIN));
}

#[test]
fn parentheses_change_nothing_but_grouping() {
    let grouped = ASTExpression::parenthesized(binary(ASTBinaryOperatorKind::Plus, 7, 8));
    assert_eq!(evaluated(&grouped).last_value, Some(15));
    let product = ASTExpression::binary(
        operator(ASTBinaryOperatorKind::Multiply),
        grouped,
        ASTExpression::number(3),
    );
    assert_eq!(evaluated(&product).last_value, Some(45));
}

#[test]
fn unbound_name_is_an_error() {
    let evaluator = evaluated(&ASTExpression::identifier(name("a")));
    assert_eq!(evaluator.failure, Some(EvaluationError::UndeclaredVariable));
    assert_eq!(evaluator.last_value, None);
}

#[test]
fn error_node_is_an_error() {
    let evaluator = evaluated(&ASTExpression::error(TextSpan::new(0, 1, "&".to_string())));
    assert_eq!(evaluator.failure, Some(EvaluationError::MalformedExpression));
    assert_eq!(evaluator.last_value, None);
}

#[test]
fn the_first_error_from_the_left_is_kept() {
    let left_fails = ASTExpression::binary(
        operator(ASTBinaryOperatorKind::Plus),
        binary(ASTBinaryOperatorKind::Divide, 1, 0),
        ASTExpression::identifier(name("missing")),
    );
    assert_eq!(evaluated(&left_fails).failure, Some(EvaluationError::DivisionByZero));
    let right_fails = ASTExpression::binary(
        operator(ASTBinaryOperatorKind::Plus),
        ASTExpression::identifier(name("missing")),
        binary(ASTBinaryOperatorKind::Divide, 1, 0),
    );
    assert_eq!(evaluated(&right_fails).failure, Some(EvaluationError::UndeclaredVariable));
}

#[test]
fn let_binds_and_rebinding_overwrites() {
    let mut evaluator = ASTEvaluator::new();
    evaluator.visit_statement(&ASTStatement::let_statement(name("a"), ASTExpression::number(10)));
    assert_eq!(evaluator.last_value, Some(10));
    assert_eq!(evaluator.variables.get("a"), Some(&10));
    evaluator.visit_statement(&ASTStatement::let_statement(
        name("a"),
        ASTExpression::binary(
            operator(ASTBinaryOperatorKind::Plus),
            ASTExpression::identifier(name("a")),
            ASTExpression::number(1),
        ),
    ));
    assert_eq!(evaluator.variables.get("a"), Some(&11));
    assert_eq!(evaluator.variables.len(), 1);
    evaluator.visit_statement(&ASTStatement::expression(ASTExpression::identifier(name("a"))));
    assert_eq!(evaluator.last_value, Some(11));
    assert_eq!(evaluator.failure, None);
}

#[test]
fn a_failed_let_binds_nothing_and_the_evaluator_halts() {
    let mut evaluator = ASTEvaluator::new();
    evaluator
        .visit_statement(&ASTStatement::let_statement(name("a"), binary(ASTBinaryOperatorKind::Divide, 1, 0)));
    assert_eq!(evaluator.failure, Some(EvaluationError::DivisionByZero));
    assert_eq!(evaluator.variables.get("a"), None);
    evaluator.visit_statement(&ASTStatement::expression(ASTExpression::number(5)));
    assert_eq!(evaluator.last_value, None);
    assert_eq!(evaluator.failure, Some(EvaluationError::DivisionByZero));
    evaluator.visit_expression(&ASTExpression::number(9));
    assert_eq!(evaluator.last_value, None);
}

#[test]
fn the_value_of_a_program_is_that_of_its_last_statement() {
    let ast = program("1 + 1\nlet x = 5\nx * x");
    let mut evaluator = ASTEvaluator::new();
    ast.visit(&mut evaluator);
    assert_eq!(evaluator.last_value, Some(25));
    assert_eq!(evaluator.variables.get("x"), Some(&5));
    let empty = program("");
    let mut evaluator = ASTEvaluator::new();
    empty.visit(&mut evaluator);
    assert_eq!(evaluator.last_value, None);
    assert_eq!(evaluator.failure, None);
}

#[test]
fn operands_are_taken_left_to_right() {
    let ast = program("100 - 10 * 2 - 30 / 4");
    let mut evaluator = ASTEvaluator::new();
    ast.visit(&mut evaluator);
    assert_eq!(evaluator.last_value, Some(73));
}
