use exprlang::ast::lexer::{TextSpan, Token, TokenKind};
use exprlang::ast::parser::Parser;
use exprlang::ast::{
    ASTBinaryOperator, ASTBinaryOperatorKind, ASTExpression, ASTExpressionKind, ASTStatement,
    ASTStatementKind, Ast,
};
use exprlang::diagnostics::{Diagnostic, DiagnosticBag, DiagnosticKind};
use exprlang::pipeline::{parse, tokenize};

fn parsed(input: &str) -> (Ast, Vec<Diagnostic>) {
    let (ast, bag) = parse(tokenize(input), DiagnosticBag::new());
    (ast, bag.diagnostics)
}

/// The tree with every binary expression in brackets.
fn shape(expression: &ASTExpression) -> String {
    match &expression.kind {
        ASTExpressionKind::Number(number) => format!("{}", number.number),
        ASTExpressionKind::Variable(variable) => variable.token.span.literal().to_string(),
        ASTExpressionKind::Parenthesized(inner) => format!("({})", shape(&inner.expression)),
        ASTExpressionKind::Error(span) => format!("<error {}>", span.literal()),
        ASTExpressionKind::Binary(binary) => format!(
            "[{} {:?} {}]",
            shape(&binary.left),
            binary.operator.kind,
            shape(&binary.right)
        ),
    }
}

fn statement_shape(statement: &ASTStatement) -> String {
    match &statement.kind {
        ASTStatementKind::Expression(expression) => shape(expression),
        ASTStatementKind::LetStatement(statement) => format!(
            "let {} = {}",
            statement.identifier.span.literal(),
            shape(&statement.initializer)
        ),
    }
}

fn shapes(input: &str) -> Vec<String> {
    parsed(input).0.statements.iter().map(statement_shape).collect()
}

fn messages(input: &str) -> Vec<String> {
    parsed(input).1.iter().map(|diagnostic| diagnostic.message.clone()).collect()
}

#[test]
fn multiplication_binds_tighter_than_addition() {
    assert_eq!(shapes("2 + 3 * 4"), vec!["[2 Plus [3 Multiply 4]]"]);
    assert_eq!(shapes("2 * 3 + 4"), vec!["[[2 Multiply 3] Plus 4]"]);
    assert_eq!(shapes("1 + 2 * 3 - 4 / 5"), vec!["[[1 Plus [2 Multiply 3]] Minus [4 Divide 5]]"]);
    assert!(messages("1 + 2 * 3 - 4 / 5").is_empty());
}

#[test]
fn equal_precedence_groups_to_the_left() {
    assert_eq!(shapes("7 - 2 - 1"), vec!["[[7 Minus 2] Minus 1]"]);
    assert_eq!(shapes("8 / 4 / 2"), vec!["[[8 Divide 4] Divide 2]"]);
    assert_eq!(shapes("1 - 2 + 3"), vec!["[[1 Minus 2] Plus 3]"]);
    assert_eq!(shapes("8 / 4 * 2"), vec!["[[8 Divide 4] Multiply 2]"]);
}

#[test]
fn parentheses_group() {
    assert_eq!(shapes("(7 + 8) * 3"), vec!["[([7 Plus 8]) Multiply 3]"]);
    assert_eq!(shapes("((1))"), vec!["((1))"]);
    assert_eq!(shapes("2 * (3 + (4 - 1))"), vec!["[2 Multiply ([3 Plus ([4 Minus 1])])]"]);
    assert!(messages("2 * (3 + (4 - 1))").is_empty());
}

#[test]
fn whitespace_is_dropped_before_parsing() {
    assert_eq!(shapes("  1\t+\n2  "), vec!["[1 Plus 2]"]);
    assert_eq!(shapes("1+2"), vec!["[1 Plus 2]"]);
}

#[test]
fn statements_follow_one_another() {
    assert_eq!(shapes("1 2"), vec!["1", "2"]);
    assert_eq!(
        shapes("let a = 10\nlet b = 20\n(a + b) * 2"),
        vec!["let a = 10", "let b = 20", "[([a Plus b]) Multiply 2]"]
    );
    assert!(messages("let a = 10\nlet b = 20\n(a + b) * 2").is_empty());
    assert_eq!(shapes(""), Vec::<String>::new());
    assert_eq!(shapes("   "), Vec::<String>::new());
}

#[test]
fn unmatched_parenthesis_is_reported() {
    let (ast, diagnostics) = parsed("(1 + 2");
    assert_eq!(diagnostics.len(), 1);
    assert_eq!(diagnostics[0].kind, DiagnosticKind::Error);
    assert_eq!(diagnostics[0].message, "Expected: <)>, found: <EOF>");
    assert_eq!(diagnostics[0].span.start(), 6);
    assert_eq!(diagnostics[0].span.end(), 6);
    assert_eq!(ast.statements.len(), 1);
    assert_eq!(statement_shape(&ast.statements[0]), "<error >");
}

#[test]
fn token_in_place_of_closing_parenthesis_stays_unread() {
    assert_eq!(shapes("(1 + 2 3"), vec!["<error 3>", "3"]);
    assert_eq!(messages("(1 + 2 3"), vec!["Expected: <)>, found: <Number>"]);
}

#[test]
fn stray_closing_parenthesis_is_reported() {
    assert_eq!(shapes("1 + 2)"), vec!["[1 Plus 2]", "<error )>"]);
    assert_eq!(messages("1 + 2)"), vec!["Expected expression, found <)>"]);
}

#[test]
fn unknown_character_is_reported_by_the_parser() {
    let (ast, diagnostics) = parsed("1 + 2 & 3");
    assert_eq!(diagnostics.len(), 1);
    assert_eq!(diagnostics[0].kind, DiagnosticKind::Error);
    assert_eq!(diagnostics[0].message, "Expected expression, found <Bad>");
    assert_eq!(diagnostics[0].span.literal(), "&");
    assert_eq!(diagnostics[0].span.start(), 6);
    let shapes: Vec<String> = ast.statements.iter().map(statement_shape).collect();
    assert_eq!(shapes, vec!["[1 Plus 2]", "<error &>", "3"]);
}

#[test]
fn missing_operand_is_reported_and_parsing_ends() {
    assert_eq!(shapes("1 +"), vec!["[1 Plus <error >]"]);
    assert_eq!(messages("1 +"), vec!["Expected expression, found <EOF>"]);
    assert_eq!(shapes("* 3"), vec!["<error *>", "3"]);
    assert_eq!(messages("* 3"), vec!["Expected expression, found <*>"]);
}

#[test]
fn an_error_node_ends_its_expression() {
    assert_eq!(shapes("1 + & * 3"), vec!["[1 Plus <error &>]", "<error *>", "3"]);
    assert_eq!(
        messages("1 + & * 3"),
        vec!["Expected expression, found <Bad>", "Expected expression, found <*>"]
    );
}

#[test]
fn let_without_name_or_sign_is_reported_and_parsing_goes_on() {
    assert_eq!(shapes("let a 5"), vec!["let a = 5"]);
    assert_eq!(messages("let a 5"), vec!["Expected: <=>, found: <Number>"]);
    assert_eq!(shapes("let = 5"), vec!["let = = 5"]);
    assert_eq!(messages("let = 5"), vec!["Expected: <Identifier>, found: <=>"]);
    assert_eq!(shapes("let 5"), vec!["let 5 = 5"]);
    assert_eq!(
        messages("let 5"),
        vec!["Expected: <Identifier>, found: <Number>", "Expected: <=>, found: <Number>"]
    );
    assert_eq!(shapes("let"), vec!["let  = <error >"]);
    assert_eq!(messages("let").len(), 3);
    assert_eq!(shapes("let a = 1\nlet b 2\nb"), vec!["let a = 1", "let b = 2", "b"]);
}

#[test]
fn parser_keeps_the_diagnostics_it_was_given() {
    let mut bag = DiagnosticBag::new();
    bag.report_warning("earlier".to_string(), TextSpan::new(0, 0, String::new()));
    let (_, bag) = parse(tokenize("(1"), bag);
    assert_eq!(bag.diagnostics.len(), 2);
    assert_eq!(bag.diagnostics[0].message, "earlier");
    assert_eq!(bag.diagnostics[0].kind, DiagnosticKind::Warning);
    assert_eq!(bag.diagnostics[1].message, "Expected: <)>, found: <EOF>");
}

#[test]
fn next_statement_ends_with_none() {
    let mut parser = Parser::new(tokenize("1 + 2\n3"), DiagnosticBag::new());
    let first = parser.next_statement().unwrap();
    assert_eq!(statement_shape(&first), "[1 Plus 2]");
    let second = parser.next_statement().unwrap();
    assert_eq!(statement_shape(&second), "3");
    assert!(parser.next_statement().is_none());
    assert!(parser.next_statement().is_none());
    assert!(parser.into_diagnostics().diagnostics.is_empty());
}

#[test]
fn tokens_without_an_end_token_are_read_to_their_end() {
    let tokens = vec![
        Token::new(TokenKind::LeftParen, TextSpan::new(0, 1, "(".to_string())),
        Token::new(TokenKind::Number(4), TextSpan::new(1, 2, "4".to_string())),
    ];
    let (ast, bag) = parse(tokens, DiagnosticBag::new());
    assert_eq!(ast.statements.len(), 1);
    assert_eq!(bag.diagnostics.len(), 1);
    assert_eq!(bag.diagnostics[0].message, "Expected: <)>, found: <EOF>");
    assert_eq!(bag.diagnostics[0].span.start(), 2);
    assert_eq!(bag.diagnostics[0].span.end(), 2);
    let (empty, bag) = parse(Vec::new(), DiagnosticBag::new());
    assert!(empty.statements.is_empty());
    assert!(bag.diagnostics.is_empty());
}

#[test]
fn operator_keeps_its_token() {
    let (ast, _) = parsed("4 * 5");
    match &ast.statements[0].kind {
        ASTStatementKind::Expression(expression) => match &expression.kind {
            ASTExpressionKind::Binary(binary) => {
                assert_eq!(binary.operator.kind, ASTBinaryOperatorKind::Multiply);
                assert_eq!(binary.operator.token.kind, TokenKind::Asterisk);
                assert_eq!(binary.operator.token.span.start(), 2);
                assert_eq!(binary.operator.precedence(), 2);
            }
            _ => panic!("expected a binary expression"),
        },
        _ => panic!("expected an expression"),
    }
}

#[test]
fn precedence_of_each_operator() {
    let token = Token::new(TokenKind::Plus, TextSpan::new(0, 1, "+".to_string()));
    assert_eq!(ASTBinaryOperator::new(ASTBinaryOperatorKind::Plus, token.clone()).precedence(), 1);
    assert_eq!(ASTBinaryOperator::new(ASTBinaryOperatorKind::Minus, token.clone()).precedence(), 1);
    assert_eq!(
        ASTBinaryOperator::new(ASTBinaryOperatorKind::Multiply, token.clone()).precedence(),
        2
    );
    assert_eq!(ASTBinaryOperator::new(ASTBinaryOperatorKind::Divide, token).precedence(), 2);
}

#[test]
fn ends_with_error_looks_at_the_right_edge() {
    let span = TextSpan::new(0, 1, "&".to_string());
    let plus = Token::new(TokenKind::Plus, TextSpan::new(0, 1, "+".to_string()));
    assert!(ASTExpression::error(span.clone()).ends_with_error());
    assert!(!ASTExpression::number(1).ends_with_error());
    let right = ASTExpression::binary(
        ASTBinaryOperator::new(ASTBinaryOperatorKind::Plus, plus.clone()),
        ASTExpression::number(1),
        ASTExpression::error(span.clone()),
    );
    assert!(right.ends_with_error());
    let left = ASTExpression::binary(
        ASTBinaryOperator::new(ASTBinaryOperatorKind::Plus, plus),
        ASTExpression::error(span.clone()),
        ASTExpression::number(1),
    );
    assert!(!left.ends_with_error());
    assert!(!ASTExpression::parenthesized(ASTExpression::error(span)).ends_with_error());
}
