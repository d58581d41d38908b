use exprlang::ast::lexer::{TextSpan, Token, TokenKind};
use exprlang::diagnostics::printer::{DiagnosticsPrinter, PREFIX_LENGTH};
use exprlang::diagnostics::{Diagnostic, DiagnosticBag, DiagnosticKind};
use exprlang::text::SourceText;

const RED: &str = "\u{1b}[38;5;1m";
const RESET: &str = "\u{1b}[39m";

fn error(message: &str, start: usize, end: usize, literal: &str) -> Diagnostic {
    Diagnostic::new(
        message.to_string(),
        TextSpan::new(start, end, literal.to_string()),
        DiagnosticKind::Error,
    )
}

fn block(text: &str, diagnostic: &Diagnostic, highlight: &str) -> String {
    let source = SourceText::new(text.to_string());
    let diagnostics: Vec<Diagnostic> = Vec::new();
    DiagnosticsPrinter::new(&source, &diagnostics).stringify_with(diagnostic, highlight)
}

#[test]
fn a_new_bag_is_empty() {
    let bag = DiagnosticBag::new();
    assert!(bag.diagnostics.is_empty());
    assert!(!bag.has_errors());
}

#[test]
fn diagnostics_keep_their_order() {
    let mut bag = DiagnosticBag::new();
    bag.report_error("first".to_string(), TextSpan::new(0, 1, "a".to_string()));
    bag.report_warning("second".to_string(), TextSpan::new(1, 2, "b".to_string()));
    bag.report_error("first".to_string(), TextSpan::new(0, 1, "a".to_string()));
    assert_eq!(bag.diagnostics.len(), 3);
    assert_eq!(bag.diagnostics[0].message, "first");
    assert_eq!(bag.diagnostics[0].kind, DiagnosticKind::Error);
    assert_eq!(bag.diagnostics[0].span.literal(), "a");
    assert_eq!(bag.diagnostics[1].message, "second");
    assert_eq!(bag.diagnostics[1].kind, DiagnosticKind::Warning);
    assert_eq!(bag.diagnostics[1].span.start(), 1);
    assert_eq!(bag.diagnostics[2].message, "first");
}

#[test]
fn warnings_are_no_errors() {
    let mut bag = DiagnosticBag::new();
    bag.report_warning("careful".to_string(), TextSpan::new(0, 0, String::new()));
    assert!(!bag.has_errors());
    bag.report_error("wrong".to_string(), TextSpan::new(0, 0, String::new()));
    assert!(bag.has_errors());
    bag.report_warning("careful".to_string(), TextSpan::new(0, 0, String::new()));
    assert!(bag.has_errors());
}

#[test]
fn messages_name_the_kinds() {
    let mut bag = DiagnosticBag::new();
    let found = Token::new(TokenKind::Number(4), TextSpan::new(2, 3, "4".to_string()));
    bag.report_unexpected_token(&TokenKind::RightParen, &found);
    bag.report_expected_expression(&found);
    let name = Token::new(TokenKind::Identifier, TextSpan::new(5, 8, "foo".to_string()));
    bag.report_undeclared_variable(&name);
    assert_eq!(bag.diagnostics[0].message, "Expected: <)>, found: <Number>");
    assert_eq!(bag.diagnostics[1].message, "Expected expression, found <Number>");
    assert_eq!(bag.diagnostics[2].message, "Undeclared variable 'foo'");
    assert_eq!(bag.diagnostics[0].span.start(), 2);
    assert_eq!(bag.diagnostics[0].span.end(), 3);
    assert_eq!(bag.diagnostics[2].span.literal(), "foo");
    assert!(bag.diagnostics.iter().all(|diagnostic| diagnostic.kind == DiagnosticKind::Error));
}

#[test]
fn block_shows_the_line_an_underline_and_the_message() {
    assert_eq!(PREFIX_LENGTH, 8);
    let diagnostic = error("Expected expression, found <Bad>", 6, 7, "&");
    assert_eq!(
        block("1 + 2 & 3", &diagnostic, "<"),
        format!(
            "1 + 2 <&{RESET} 3\n      ^\n      \n      +-- Expected expression, found <Bad>"
        )
    );
}

#[test]
fn block_keeps_eight_characters_on_either_side() {
    let text = "0123456789 + abcdefghijklmnop";
    let diagnostic = error("m", 11, 12, "+");
    assert_eq!(
        block(text, &diagnostic, ""),
        format!("3456789 +{RESET} abcdefg\n        ^\n        \n        +-- m")
    );
    let wide = error("m", 13, 16, "abc");
    assert_eq!(
        block(text, &wide, ""),
        format!("56789 + abc{RESET}defghijk\n        ^^^\n        \n        +-- m")
    );
}

#[test]
fn block_is_taken_from_the_line_of_the_span() {
    let text = "let a = 1\nb + c\nlast";
    let diagnostic = error("Undeclared variable 'c'", 14, 15, "c");
    assert_eq!(
        block(text, &diagnostic, "!"),
        format!("b + !c{RESET}\n    ^\n    \n    +-- Undeclared variable 'c'")
    );
    let first = error("m", 0, 3, "let");
    assert_eq!(block(text, &first, ""), format!("let{RESET} a = 1\n^^^\n\n+-- m"));
}

#[test]
fn block_for_an_empty_span_at_the_end() {
    let diagnostic = error("Expected: <)>, found: <EOF>", 6, 6, "");
    assert_eq!(
        block("(1 + 2", &diagnostic, ""),
        format!("(1 + 2{RESET}\n      \n      \n      +-- Expected: <)>, found: <EOF>")
    );
}

#[test]
fn block_counts_columns_in_bytes_and_cuts_between_characters() {
    let text = "é + & zz";
    let diagnostic = error("m", 5, 6, "&");
    assert_eq!(block(text, &diagnostic, ""), format!("é + &{RESET} zz\n    ^\n    \n    +-- m"));
    let inside = error("m", 1, 2, "?");
    assert_eq!(block(text, &inside, ""), format!("é{RESET} + & zz\n^\n\n+-- m"));
}

#[test]
fn block_for_a_span_beyond_the_text() {
    let diagnostic = error("m", 40, 42, "??");
    assert_eq!(block("ab\ncd", &diagnostic, ""), format!("cd{RESET}\n  ^^\n  \n  +-- m"));
}

#[test]
fn the_span_is_marked_in_red_unless_colours_are_off() {
    let source = SourceText::new("1 + 2 & 3".to_string());
    let diagnostics = vec![error("bad", 6, 7, "&"), error("worse", 0, 1, "1")];
    let printer = DiagnosticsPrinter::new(&source, &diagnostics);
    let shown = printer.stringify_diagnostic(&diagnostics[0]);
    let red = printer.stringify_with(&diagnostics[0], RED);
    let bare = printer.stringify_with(&diagnostics[0], "");
    assert!(shown == red || shown == bare);
    assert_eq!(red, format!("1 + 2 {RED}&{RESET} 3\n      ^\n      \n      +-- bad"));
    let blocks = printer.blocks();
    assert_eq!(blocks.len(), 2);
    assert!(blocks[0] == red || blocks[0] == bare);
    assert!(blocks[1].ends_with("+-- worse"));
    assert!(blocks[1].contains(RESET));
}
