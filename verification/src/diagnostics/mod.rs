//! Errors and warnings found while a program is compiled, each anchored to
//! the span of source it speaks of.

use crate::ast::lexer::{SpanView, TextSpan, Token, TokenKind, TokenView};
use vstd::prelude::*;
use vstd::string::*;

pub mod printer;

verus! {

/// How grave a diagnostic is. Only errors keep a program from running.
#[derive(Debug, PartialEq, Eq, Clone, Copy, Structural)]
pub enum DiagnosticKind {
    Error,
    Warning,
}

/// The mathematical content of a [`Diagnostic`].
pub struct DiagnosticView {
    pub message: Seq<char>,
    pub span: SpanView,
    pub kind: DiagnosticKind,
}

/// One reported problem.
#[derive(Debug)]
pub struct Diagnostic {
    pub message: String,
    pub span: TextSpan,
    pub kind: DiagnosticKind,
}

impl View for Diagnostic {
    type V = DiagnosticView;

    open spec fn view(&self) -> DiagnosticView {
        DiagnosticView { message: self.message@, span: self.span@, kind: self.kind }
    }
}

impl Diagnostic {
    /// A diagnostic of the given kind about the given span.
    pub fn new(message: String, span: TextSpan, kind: DiagnosticKind) -> (diagnostic: Self)
        ensures
            diagnostic.message == message,
            diagnostic.span == span,
            diagnostic.kind == kind,
    {
        Diagnostic { message, span, kind }
    }
}

/// The error with the given message at the given span.
pub open spec fn error_at(message: Seq<char>, span: SpanView) -> DiagnosticView {
    DiagnosticView { message, span, kind: DiagnosticKind::Error }
}

/// The message for a token that stands where one of kind `expected` should.
pub open spec fn unexpected_token_message(expected: TokenKind, found: TokenKind) -> Seq<char> {
    "Expected: <"@ + expected.spec_text() + ">, found: <"@ + found.spec_text() + ">"@
}

/// The message for a token that cannot begin an expression.
pub open spec fn expected_expression_message(found: TokenKind) -> Seq<char> {
    "Expected expression, found <"@ + found.spec_text() + ">"@
}

/// The message for a name that is used before any `let` has declared it.
pub open spec fn undeclared_variable_message(name: Seq<char>) -> Seq<char> {
    "Undeclared variable '"@ + name + "'"@
}

/// The diagnostic for a token that stands where one of kind `expected` should.
pub open spec fn unexpected_token(expected: TokenKind, token: TokenView) -> DiagnosticView {
    error_at(unexpected_token_message(expected, token.kind), token.span)
}

/// The diagnostic for a token that cannot begin an expression.
pub open spec fn expected_expression(token: TokenView) -> DiagnosticView {
    error_at(expected_expression_message(token.kind), token.span)
}

/// The diagnostic for a name that is used before any `let` has declared it.
pub open spec fn undeclared_variable(token: TokenView) -> DiagnosticView {
    error_at(undeclared_variable_message(token.span.literal), token.span)
}

/// Whether one of the diagnostics is an error.
pub open spec fn has_error(diagnostics: Seq<DiagnosticView>) -> bool {
    exists|i: int| 0 <= i < diagnostics.len() && diagnostics[i].kind == DiagnosticKind::Error
}

/// The diagnostics of one compilation, in the order in which they were reported.
#[derive(Debug)]
pub struct DiagnosticBag {
    pub diagnostics: Vec<Diagnostic>,
}

impl View for DiagnosticBag {
    type V = Seq<DiagnosticView>;

    open spec fn view(&self) -> Seq<DiagnosticView> {
        self.diagnostics@.map_values(|d: Diagnostic| d@)
    }
}

impl DiagnosticBag {
    /// A bag without diagnostics.
    pub fn new() -> (bag: Self)
        ensures
            bag@ == Seq::<DiagnosticView>::empty(),
    {
        let bag = DiagnosticBag { diagnostics: Vec::new() };
        assert(bag@ =~= Seq::<DiagnosticView>::empty());
        bag
    }

    /// Appends a diagnostic.
    fn report(&mut self, diagnostic: Diagnostic)
        ensures
            final(self)@ == old(self)@.push(diagnostic@),
    {
        self.diagnostics.push(diagnostic);
        assert(self@ =~= old(self)@.push(diagnostic@));
    }

    /// Appends an error with the given message about the given span.
    pub fn report_error(&mut self, message: String, span: TextSpan)
        ensures
            final(self)@ == old(self)@.push(error_at(message@, span@)),
    {
        let error = Diagnostic::new(message, span, DiagnosticKind::Error);
        self.report(error);
    }

    /// Appends a warning with the given message about the given span.
    pub fn report_warning(&mut self, message: String, span: TextSpan)
        ensures
            final(self)@ == old(self)@.push(
                DiagnosticView { message: message@, span: span@, kind: DiagnosticKind::Warning },
            ),
    {
        let warning = Diagnostic::new(message, span, DiagnosticKind::Warning);
        self.report(warning);
    }

    /// Reports that `token` stands where a token of kind `expected` should.
    pub fn report_unexpected_token(&mut self, expected: &TokenKind, token: &Token)
        ensures
            final(self)@ == old(self)@.push(unexpected_token(*expected, token@)),
    {
        let mut message = "Expected: <".to_owned();
        message.append(expected.text());
        message.append(">, found: <");
        message.append(token.kind.text());
        message.append(">");
        self.report_error(message, token.span.clone());
    }

    /// Reports that `token` stands where an expression should begin.
    pub fn report_expected_expression(&mut self, token: &Token)
        ensures
            final(self)@ == old(self)@.push(expected_expression(token@)),
    {
        let mut message = "Expected expression, found <".to_owned();
        message.append(token.kind.text());
        message.append(">");
        self.report_error(message, token.span.clone());
    }

    /// Reports that the name `token` is used before it is declared.
    pub fn report_undeclared_variable(&mut self, token: &Token)
        ensures
            final(self)@ == old(self)@.push(undeclared_variable(token@)),
    {
        let mut message = "Undeclared variable '".to_owned();
        message.append(token.span.literal());
        message.append("'");
        self.report_error(message, token.span.clone());
    }

    /// Whether an error has been reported. Warnings do not count.
    pub fn has_errors(&self) -> (found: bool)
        ensures
            found == has_error(self@),
    {
        let mut i: usize = 0;
        while i < self.diagnostics.len()
            invariant
                i <= self.diagnostics.len(),
                forall|j: int| 0 <= j < i ==> self@[j].kind != DiagnosticKind::Error,
            decreases self.diagnostics.len() - i,
        {
            match self.diagnostics[i].kind {
                DiagnosticKind::Error => {
                    assert(self@[i as int].kind == DiagnosticKind::Error);
                    return true;
                },
                DiagnosticKind::Warning => {},
            }
            i += 1;
        }
        false
    }
}

} // verus!
