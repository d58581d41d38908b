use exprlang::ast::lexer::{TextSpan, Token, TokenKind};
use exprlang::ast::printer::{push_decimal, ASTPrinter};
use exprlang::ast::{
    ASTBinaryOperator, ASTBinaryOperatorKind, ASTExpression, ASTStatement, ASTVisitor, Ast,
};
use exprlang::diagnostics::DiagnosticBag;
use exprlang::pipeline::{parse, tokenize};

const NUMBER: &str = "\u{1b}[38;5;3m";
const TEXT: &str = "\u{1b}[38;5;15m";
const KEYWORD: &str = "\u{1b}[38;5;4m";
const VARIABLE: &str = "\u{1b}[38;5;2m";
const RESET: &str = "\u{1b}[39m";

fn program(input: &str) -> Ast {
    parse(tokenize(input), DiagnosticBag::new()).0
}

fn plain(input: &str) -> String {
    let mut printer = ASTPrinter::plain();
    program(input).visit(&mut printer);
    printer.result
}

fn decimal(n: i64) -> String {
    let mut out = String::new();
    push_decimal(&mut out, n);
    out
}

#[test]
fn decimal_text_of_integers() {
    assert_eq!(decimal(0), "0");
    assert_eq!(decimal(7), "7");
    assert_eq!(decimal(10), "10");
    assert_eq!(decimal(1234567890), "1234567890");
    assert_eq!(decimal(-1), "-1");
    assert_eq!(decimal(-305), "-305");
    assert_eq!(decimal(i64::MAX), "9223372036854775807");
    assert_eq!(decimal(i64::MIN), "-9223372036854775808");
    let mut out = "n=".to_string();
    push_decimal(&mut out, 42);
    assert_eq!(out, "n=42");
}

#[test]
fn plain_text_of_expressions() {
    assert_eq!(plain("1+2*3"), "1 + 2 * 3\n");
    assert_eq!(plain("( 7+8 )*3"), "(7 + 8) * 3\n");
    assert_eq!(plain("a"), "a\n");
    assert_eq!(plain("((x))"), "((x))\n");
}

#[test]
fn plain_text_of_a_program() {
    assert_eq!(
        plain("let a = 10\nlet b = 20\n(a + b) * 2"),
        "let a = 10\nlet b = 20\n(a + b) * 2\n"
    );
    assert_eq!(plain(""), "");
}

#[test]
fn error_nodes_print_what_was_found() {
    assert_eq!(plain("1 + &"), "1 + &\n");
    assert_eq!(plain("(1"), "\n");
}

#[test]
fn colours_come_before_each_part() {
    assert_eq!(
        program("1 + a").visualize(),
        format!("{NUMBER}1 {TEXT}+ {VARIABLE}a{RESET}\n")
    );
    assert_eq!(
        program("(2)").visualize(),
        format!("{TEXT}({NUMBER}2{TEXT}){RESET}\n")
    );
    assert_eq!(
        program("let a = 3").visualize(),
        format!("{KEYWORD}let {TEXT}a {TEXT}= {NUMBER}3{RESET}\n")
    );
    assert_eq!(program("&").visualize(), format!("{TEXT}&{RESET}\n"));
}

#[test]
fn visualize_puts_each_statement_on_a_line() {
    assert_eq!(
        program("1\n2").visualize(),
        format!("{NUMBER}1{RESET}\n{NUMBER}2{RESET}\n")
    );
    assert_eq!(program("").visualize(), "");
}

#[test]
fn a_printer_appends_to_what_it_holds() {
    let mut printer = ASTPrinter::new();
    assert!(printer.colored);
    assert_eq!(printer.result, "");
    printer.visit_expression(&ASTExpression::number(5));
    printer.visit_expression(&ASTExpression::number(-6));
    assert_eq!(printer.result, format!("{NUMBER}5{NUMBER}-6"));
    let mut printer = ASTPrinter::plain();
    assert!(!printer.colored);
    printer.visit_statement(&ASTStatement::expression(ASTExpression::number(5)));
    printer.visit_statement(&ASTStatement::let_statement(
        Token::new(TokenKind::Identifier, TextSpan::new(0, 1, "k".to_string())),
        ASTExpression::number(1),
    ));
    assert_eq!(printer.result, "5\nlet k = 1\n");
}

#[test]
fn the_operator_is_printed_as_its_token_says() {
    let odd = ASTExpression::binary(
        ASTBinaryOperator::new(
            ASTBinaryOperatorKind::Plus,
            Token::new(TokenKind::Plus, TextSpan::new(0, 4, "plus".to_string())),
        ),
        ASTExpression::number(1),
        ASTExpression::number(2),
    );
    let mut printer = ASTPrinter::plain();
    printer.visit_expression(&odd);
    assert_eq!(printer.result, "1 plus 2");
}
