use exprlang::ast::evaluator::{ASTEvaluator, EvaluationError};
use exprlang::ast::printer::ASTPrinter;
use exprlang::ast::Ast;
use exprlang::diagnostics::DiagnosticBag;
use exprlang::pipeline::{parse, tokenize};

fn program(input: &str) -> Ast {
    let (ast, bag) = parse(tokenize(input), DiagnosticBag::new());
    assert!(bag.diagnostics.is_empty(), "{:?}", bag.diagnostics);
    ast
}

fn printed(ast: &Ast) -> String {
    let mut printer = ASTPrinter::plain();
    ast.visit(&mut printer);
    printer.result
}

fn evaluated(ast: &Ast) -> (Option<i64>, Option<EvaluationError>) {
    let mut evaluator = ASTEvaluator::new();
    ast.visit(&mut evaluator);
    (evaluator.last_value, evaluator.failure)
}

fn goes_round(input: &str) {
    let first = program(input);
    let text = printed(&first);
    let second = program(&text);
    assert_eq!(first.statements.len(), second.statements.len());
    assert_eq!(evaluated(&first), evaluated(&second));
    assert_eq!(printed(&second), text);
}

#[test]
fn printed_expressions_parse_to_the_same_value() {
    goes_round("7 + 8 * 9");
    goes_round("(7+8)*3");
    goes_round("10 - 3 - 2");
    goes_round("10-(3-2)");
    goes_round("2*(3+4)-10/(1+1)");
    goes_round("((((5))))");
    goes_round("0");
    goes_round("9223372036854775807");
}

#[test]
fn printed_programs_parse_to_the_same_value() {
    goes_round("let a = 10\nlet b = 20\n(a + b) * 2");
    goes_round("let a=1 let a=a+1 a*a");
    goes_round("1 2 3");
    goes_round("");
    goes_round("let _x1 = 4\n(_x1)\n_x1 / 3");
}

#[test]
fn printed_programs_fail_as_the_first_did() {
    goes_round("1 / 0");
    goes_round("9223372036854775807 + 1");
    goes_round("a + 1");
    assert_eq!(evaluated(&program("1 / 0")), (None, Some(EvaluationError::DivisionByZero)));
}

#[test]
fn the_print_of_a_parsed_program_is_its_text_with_single_spaces() {
    assert_eq!(printed(&program("1+2   *3")), "1 + 2 * 3\n");
    assert_eq!(printed(&program("let   a=( 1 )")), "let a = (1)\n");
    assert_eq!(evaluated(&program("1 + 2 * 3")), (Some(7), None));
}
