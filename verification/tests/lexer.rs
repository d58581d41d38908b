use exprlang::ast::lexer::{Lexer, TextSpan, Token, TokenKind};
use exprlang::pipeline::tokenize;

fn kinds(input: &str) -> Vec<TokenKind> {
    tokenize(input).iter().map(|token| token.kind).collect()
}

fn spans(input: &str) -> Vec<(usize, usize, String)> {
    tokenize(input)
        .iter()
        .map(|token| (token.span.start(), token.span.end(), token.span.literal().to_string()))
        .collect()
}

#[test]
fn numbers_and_punctuation() {
    assert_eq!(
        kinds("12+3*(4-5)/6"),
        vec![
            TokenKind::Number(12),
            TokenKind::Plus,
            TokenKind::Number(3),
            TokenKind::Asterisk,
            TokenKind::LeftParen,
            TokenKind::Number(4),
            TokenKind::Minus,
            TokenKind::Number(5),
            TokenKind::RightParen,
            TokenKind::Slash,
            TokenKind::Number(6),
            TokenKind::EOF,
        ]
    );
}

#[test]
fn digits_fold_left_to_right() {
    assert_eq!(kinds("007"), vec![TokenKind::Number(7), TokenKind::EOF]);
    assert_eq!(kinds("1234567890"), vec![TokenKind::Number(1234567890), TokenKind::EOF]);
}

#[test]
fn whitespace_is_kept_as_tokens() {
    assert_eq!(
        kinds("1  2"),
        vec![
            TokenKind::Number(1),
            TokenKind::Whitespace,
            TokenKind::Whitespace,
            TokenKind::Number(2),
            TokenKind::EOF,
        ]
    );
    assert_eq!(kinds("\n\t"), vec![TokenKind::Whitespace, TokenKind::Whitespace, TokenKind::EOF]);
    assert_eq!(kinds("\u{a0}"), vec![TokenKind::Whitespace, TokenKind::EOF]);
}

#[test]
fn spans_are_contiguous() {
    assert_eq!(
        spans("10 + x"),
        vec![
            (0, 2, "10".to_string()),
            (2, 3, " ".to_string()),
            (3, 4, "+".to_string()),
            (4, 5, " ".to_string()),
            (5, 6, "x".to_string()),
            (6, 6, "".to_string()),
        ]
    );
}

#[test]
fn unknown_character_is_a_bad_token() {
    let tokens = tokenize("1 + 2 & 3");
    let bad: Vec<&Token> = tokens.iter().filter(|token| token.kind == TokenKind::Bad).collect();
    assert_eq!(bad.len(), 1);
    assert_eq!(bad[0].span.literal(), "&");
    assert_eq!(bad[0].span.start(), 6);
    assert_eq!(bad[0].span.end(), 7);
    assert_eq!(kinds("#"), vec![TokenKind::Bad, TokenKind::EOF]);
}

#[test]
fn offsets_count_bytes() {
    assert_eq!(
        spans("é+1"),
        vec![
            (0, 2, "é".to_string()),
            (2, 3, "+".to_string()),
            (3, 4, "1".to_string()),
            (4, 4, "".to_string()),
        ]
    );
    assert_eq!(kinds("é+1")[0], TokenKind::Bad);
    assert_eq!(spans("😀")[0], (0, 4, "😀".to_string()));
    assert_eq!(spans("€")[0], (0, 3, "€".to_string()));
}

#[test]
fn names_keywords_and_the_equals_sign() {
    assert_eq!(
        kinds("let a1 = _b"),
        vec![
            TokenKind::Let,
            TokenKind::Whitespace,
            TokenKind::Identifier,
            TokenKind::Whitespace,
            TokenKind::Equals,
            TokenKind::Whitespace,
            TokenKind::Identifier,
            TokenKind::EOF,
        ]
    );
    assert_eq!(kinds("lets"), vec![TokenKind::Identifier, TokenKind::EOF]);
    assert_eq!(kinds("le"), vec![TokenKind::Identifier, TokenKind::EOF]);
    assert_eq!(kinds("Let"), vec![TokenKind::Identifier, TokenKind::EOF]);
    assert_eq!(kinds("1a"), vec![TokenKind::Number(1), TokenKind::Identifier, TokenKind::EOF]);
}

#[test]
fn literal_that_does_not_fit_is_bad() {
    assert_eq!(
        kinds("9223372036854775807"),
        vec![TokenKind::Number(i64::MAX), TokenKind::EOF]
    );
    assert_eq!(kinds("9223372036854775808"), vec![TokenKind::Bad, TokenKind::EOF]);
    assert_eq!(
        spans("99999999999999999999999+1")[0],
        (0, 23, "99999999999999999999999".to_string())
    );
    assert_eq!(
        kinds("99999999999999999999999+1"),
        vec![TokenKind::Bad, TokenKind::Plus, TokenKind::Number(1), TokenKind::EOF]
    );
}

#[test]
fn end_token_comes_once() {
    let mut lexer = Lexer::new("7");
    let first = lexer.next_token().unwrap();
    assert_eq!(first.kind, TokenKind::Number(7));
    assert!(!lexer.is_done());
    let end = lexer.next_token().unwrap();
    assert_eq!(end.kind, TokenKind::EOF);
    assert_eq!(end.span.start(), 1);
    assert_eq!(end.span.end(), 1);
    assert_eq!(end.span.literal(), "");
    assert!(lexer.is_done());
    assert!(lexer.next_token().is_none());
    assert!(lexer.next_token().is_none());
}

#[test]
fn empty_input_is_only_the_end() {
    assert_eq!(kinds(""), vec![TokenKind::EOF]);
    assert_eq!(spans(""), vec![(0, 0, "".to_string())]);
}

#[test]
fn kinds_have_names() {
    assert_eq!(TokenKind::Number(5).text(), "Number");
    assert_eq!(TokenKind::Plus.text(), "+");
    assert_eq!(TokenKind::Minus.text(), "-");
    assert_eq!(TokenKind::Asterisk.text(), "*");
    assert_eq!(TokenKind::Slash.text(), "/");
    assert_eq!(TokenKind::LeftParen.text(), "(");
    assert_eq!(TokenKind::RightParen.text(), ")");
    assert_eq!(TokenKind::Let.text(), "let");
    assert_eq!(TokenKind::Identifier.text(), "Identifier");
    assert_eq!(TokenKind::Equals.text(), "=");
    assert_eq!(TokenKind::EOF.text(), "EOF");
    assert_eq!(TokenKind::Bad.text(), "Bad");
    assert_eq!(TokenKind::Whitespace.text(), "Whitespace");
}

#[test]
fn span_length_and_copy() {
    let span = TextSpan::new(3, 8, "hello".to_string());
    assert_eq!(span.length(), 5);
    assert_eq!(span.start(), 3);
    assert_eq!(span.end(), 8);
    assert_eq!(span.literal(), "hello");
    let copy = span.clone();
    assert_eq!(copy.start(), 3);
    assert_eq!(copy.end(), 8);
    assert_eq!(copy.literal(), "hello");
    assert_eq!(TextSpan::new(4, 4, String::new()).length(), 0);
    let token = Token::new(TokenKind::Plus, TextSpan::new(0, 1, "+".to_string()));
    let twin = token.clone();
    assert_eq!(twin.kind, TokenKind::Plus);
    assert_eq!(twin.span.literal(), "+");
}

#[test]
fn the_literals_of_the_tokens_are_the_source_again() {
    for input in ["", "1 + 2 & 3", "let a = 10\n(a+b)*2 ", "é€😀 x9", "99999999999999999999 / 0"] {
        let tokens = tokenize(input);
        let mut text = String::new();
        let mut offset = 0;
        for token in &tokens {
            assert_eq!(token.span.start(), offset);
            assert_eq!(token.span.length(), token.span.literal().len());
            offset = token.span.end();
            text.push_str(token.span.literal());
        }
        assert_eq!(text, input);
        assert_eq!(offset, input.len());
    }
}

#[test]
fn white_space_and_digits_are_those_of_the_standard_library() {
    let mut code: u32 = 0;
    while code <= 0x10FFFF {
        if let Some(c) = char::from_u32(code) {
            let text = c.to_string();
            let tokens = tokenize(&text);
            assert_eq!(tokens.len(), 2);
            assert_eq!(tokens[0].kind == TokenKind::Whitespace, c.is_whitespace(), "{:x}", code);
            assert_eq!(
                matches!(tokens[0].kind, TokenKind::Number(_)),
                c.is_digit(10),
                "{:x}",
                code
            );
            assert_eq!(tokens[0].span.end(), c.len_utf8(), "{:x}", code);
            assert_eq!(tokens[1].span.start(), text.len());
        }
        code += if code < 0x3100 { 1 } else { 0x101 };
    }
}
