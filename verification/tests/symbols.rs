use exprlang::ast::symbols::SymbolChecker;
use exprlang::ast::Ast;
use exprlang::diagnostics::{Diagnostic, DiagnosticBag, DiagnosticKind};
use exprlang::ast::lexer::TextSpan;
use exprlang::pipeline::{parse, tokenize};

fn program(input: &str) -> Ast {
    let (ast, bag) = parse(tokenize(input), DiagnosticBag::new());
    assert!(bag.diagnostics.is_empty());
    ast
}

fn checked(input: &str) -> Vec<Diagnostic> {
    let mut checker = SymbolChecker::new(DiagnosticBag::new());
    program(input).visit(&mut checker);
    checker.into_diagnostics().diagnostics
}

fn messages(input: &str) -> Vec<String> {
    checked(input).iter().map(|diagnostic| diagnostic.message.clone()).collect()
}

#[test]
fn declared_names_pass() {
    assert!(checked("let a = 10\nlet b = 20\n(a + b) * 2").is_empty());
    assert!(checked("1 + 2").is_empty());
    assert!(checked("").is_empty());
}

#[test]
fn use_before_declaration_is_reported() {
    let diagnostics = checked("a + 1\nlet a = 2");
    assert_eq!(diagnostics.len(), 1);
    assert_eq!(diagnostics[0].kind, DiagnosticKind::Error);
    assert_eq!(diagnostics[0].message, "Undeclared variable 'a'");
    assert_eq!(diagnostics[0].span.start(), 0);
    assert_eq!(diagnostics[0].span.end(), 1);
    assert_eq!(diagnostics[0].span.literal(), "a");
}

#[test]
fn the_initializer_cannot_use_the_name_it_declares() {
    assert_eq!(messages("let a = a"), vec!["Undeclared variable 'a'"]);
    assert!(messages("let a = 1\nlet a = a + 1").is_empty());
}

#[test]
fn every_use_is_reported_in_source_order() {
    assert_eq!(
        messages("x + (y * x)\nlet y = 1\ny + z"),
        vec![
            "Undeclared variable 'x'",
            "Undeclared variable 'y'",
            "Undeclared variable 'x'",
            "Undeclared variable 'z'",
        ]
    );
}

#[test]
fn names_inside_parentheses_are_checked() {
    assert_eq!(messages("((q))"), vec!["Undeclared variable 'q'"]);
}

#[test]
fn the_diagnostics_given_are_kept_in_front() {
    let mut bag = DiagnosticBag::new();
    bag.report_warning("earlier".to_string(), TextSpan::new(0, 0, String::new()));
    let mut checker = SymbolChecker::new(bag);
    program("u").visit(&mut checker);
    let diagnostics = checker.into_diagnostics().diagnostics;
    assert_eq!(diagnostics.len(), 2);
    assert_eq!(diagnostics[0].message, "earlier");
    assert_eq!(diagnostics[1].message, "Undeclared variable 'u'");
}
