use exprlang::ast::evaluator::EvaluationError;
use exprlang::ast::lexer::TextSpan;
use exprlang::diagnostics::DiagnosticBag;
use exprlang::pipeline::{check_diagnostics, run, Failure};
use exprlang::text::SourceText;

fn value_of(input: &str) -> Option<i64> {
    match run(input).result {
        Ok(value) => value,
        Err(Failure::Diagnostics(blocks)) => panic!("diagnostics: {:?}", blocks),
        Err(Failure::Evaluation(error)) => panic!("evaluation failed: {:?}", error),
    }
}

fn blocks_of(input: &str) -> Vec<String> {
    match run(input).result {
        Err(Failure::Diagnostics(blocks)) => blocks,
        Ok(value) => panic!("ran to {:?}", value),
        Err(Failure::Evaluation(error)) => panic!("evaluation failed: {:?}", error),
    }
}

fn error_of(input: &str) -> EvaluationError {
    match run(input).result {
        Err(Failure::Evaluation(error)) => error,
        Ok(value) => panic!("ran to {:?}", value),
        Err(Failure::Diagnostics(blocks)) => panic!("diagnostics: {:?}", blocks),
    }
}

#[test]
fn valid_arithmetic_runs_to_its_value() {
    assert_eq!(value_of("7 + 8 * 9"), Some(79));
    assert_eq!(value_of("(7 + 8) * 3"), Some(45));
    assert_eq!(value_of("1"), Some(1));
    assert_eq!(value_of("((2))"), Some(2));
    assert_eq!(value_of("2 * (3 + 4) - 10 / (1 + 1)"), Some(9));
    assert_eq!(value_of("100/7/2"), Some(7));
}

#[test]
fn precedence_binds_multiplication_tighter() {
    assert_eq!(value_of("2 + 3 * 4"), Some(14));
    assert_eq!(value_of("2 * 3 + 4"), Some(10));
}

#[test]
fn subtraction_groups_to_the_left() {
    assert_eq!(value_of("10 - 3 - 2"), Some(5));
    assert_eq!(value_of("7 - 2 - 1"), Some(4));
    assert_eq!(value_of("100 / 10 / 5"), Some(2));
}

#[test]
fn let_bindings_are_used() {
    assert_eq!(value_of("let a = 10\nlet b = 20\n(a + b) * 2"), Some(60));
    assert_eq!(
        value_of("\n        let a = 10\n        let b = 20\n        let d = 10\n        let d = (a + b) * d\n    "),
        Some(300)
    );
}

#[test]
fn a_program_without_statements_has_no_value() {
    assert_eq!(value_of(""), None);
    assert_eq!(value_of("  \n "), None);
}

#[test]
fn division_truncates_and_division_by_zero_fails() {
    assert_eq!(value_of("10 / 3"), Some(3));
    assert_eq!(value_of("(0 - 10) / 3"), Some(-3));
    assert_eq!(error_of("10 / 0"), EvaluationError::DivisionByZero);
    assert_eq!(error_of("let z = 0\n1 + 10 / z"), EvaluationError::DivisionByZero);
}

#[test]
fn overflow_fails() {
    assert_eq!(error_of("9223372036854775807 + 1"), EvaluationError::Overflow);
    assert_eq!(error_of("4611686018427387904 * 2"), EvaluationError::Overflow);
    assert_eq!(value_of("9223372036854775807 + 0"), Some(i64::MAX));
    assert_eq!(value_of("0 - 9223372036854775807 - 1"), Some(i64::MIN));
    assert_eq!(error_of("(0 - 9223372036854775807 - 1) / (0 - 1)"), EvaluationError::Overflow);
}

#[test]
fn unmatched_parenthesis_blocks_evaluation() {
    let blocks = blocks_of("(1 + 2");
    assert_eq!(blocks.len(), 1);
    assert!(blocks[0].ends_with("+-- Expected: <)>, found: <EOF>"));
}

#[test]
fn unknown_character_blocks_evaluation() {
    let blocks = blocks_of("1 + 2 & 3");
    assert_eq!(blocks.len(), 1);
    assert!(blocks[0].ends_with("      ^\n      \n      +-- Expected expression, found <Bad>"));
}

#[test]
fn literal_out_of_range_blocks_evaluation() {
    let blocks = blocks_of("9223372036854775808");
    assert_eq!(blocks.len(), 1);
    assert!(blocks[0].ends_with("+-- Expected expression, found <Bad>"));
}

#[test]
fn use_before_declaration_blocks_evaluation() {
    let blocks = blocks_of("a + 1\nlet a = 2");
    assert_eq!(blocks.len(), 1);
    assert!(blocks[0].ends_with("^\n\n+-- Undeclared variable 'a'"));
    let blocks = blocks_of("let a = 1\nb");
    assert_eq!(blocks.len(), 1);
    assert!(blocks[0].ends_with("+-- Undeclared variable 'b'"));
}

#[test]
fn parser_diagnostics_come_before_those_of_the_symbol_check() {
    let blocks = blocks_of("x\n(1");
    assert_eq!(blocks.len(), 2);
    assert!(blocks[0].ends_with("+-- Expected: <)>, found: <EOF>"));
    assert!(blocks[1].ends_with("+-- Undeclared variable 'x'"));
}

#[test]
fn the_rendering_is_there_whatever_the_result() {
    let outcome = run("1 / 0");
    assert_eq!(
        outcome.rendering,
        "\u{1b}[38;5;3m1 \u{1b}[38;5;15m/ \u{1b}[38;5;3m0\u{1b}[39m\n"
    );
    let outcome = run("let a = b");
    assert_eq!(
        outcome.rendering,
        "\u{1b}[38;5;4mlet \u{1b}[38;5;15ma \u{1b}[38;5;15m= \u{1b}[38;5;2mb\u{1b}[39m\n"
    );
    assert!(outcome.result.is_err());
}

#[test]
fn warnings_alone_block_nothing() {
    let text = SourceText::new("1 + 2".to_string());
    let mut bag = DiagnosticBag::new();
    assert!(check_diagnostics(&text, &bag).is_ok());
    bag.report_warning("unused".to_string(), TextSpan::new(0, 1, "1".to_string()));
    assert!(check_diagnostics(&text, &bag).is_ok());
    bag.report_error("wrong".to_string(), TextSpan::new(4, 5, "2".to_string()));
    let blocks = check_diagnostics(&text, &bag).unwrap_err();
    assert_eq!(blocks.len(), 2);
    assert!(blocks[0].ends_with("^\n\n+-- unused"));
    assert!(blocks[1].ends_with("    ^\n    \n    +-- wrong"));
}
