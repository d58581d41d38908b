//! Rendering a syntax tree as text, with or without terminal colours.

use crate::ast::{
    walked, ASTBinaryExpression, ASTExpression, ASTExpressionKind, ASTLetStatement,
    ASTNumberExpression, ASTParenthesizedExpression, ASTStatement, ASTStatementKind,
    ASTVariableExpression, ASTVisitor, ExpressionView, StatementView,
};
use crate::ast::lexer::TextSpan;
use vstd::prelude::*;
use vstd::string::*;

verus! {

/// The character that stands for a digit below ten.
pub open spec fn digit_char(d: nat) -> char
    recommends
        d < 10,
{
    if d == 0 {
        '0'
    } else if d == 1 {
        '1'
    } else if d == 2 {
        '2'
    } else if d == 3 {
        '3'
    } else if d == 4 {
        '4'
    } else if d == 5 {
        '5'
    } else if d == 6 {
        '6'
    } else if d == 7 {
        '7'
    } else if d == 8 {
        '8'
    } else {
        '9'
    }
}

/// The decimal digits of a natural number, without leading zeros.
pub open spec fn decimal_digits(n: nat) -> Seq<char>
    decreases n,
{
    if n < 10 {
        seq![digit_char(n)]
    } else {
        decimal_digits(n / 10).push(digit_char(n % 10))
    }
}

/// An integer in decimal, with a minus sign where it is negative.
pub open spec fn decimal_text(n: int) -> Seq<char> {
    if n < 0 {
        seq!['-'] + decimal_digits((-n) as nat)
    } else {
        decimal_digits(n as nat)
    }
}

/// The escape sequences that a rendering puts before its parts.
pub struct Palette {
    pub number: Seq<char>,
    pub text: Seq<char>,
    pub keyword: Seq<char>,
    pub variable: Seq<char>,
    pub reset: Seq<char>,
}

/// The ANSI sequence that selects colour `index` of the 256-colour table
/// as foreground.
pub open spec fn foreground_code(index: Seq<char>) -> Seq<char> {
    seq!['\x1b', '[', '3', '8', ';', '5', ';'] + index + seq!['m']
}

/// The ANSI sequence that restores the default foreground.
pub open spec fn reset_code() -> Seq<char> {
    seq!['\x1b', '[', '3', '9', 'm']
}

/// Numbers yellow, names green, keywords blue, the rest bright white.
pub open spec fn colors() -> Palette {
    Palette {
        number: foreground_code(seq!['3']),
        text: foreground_code(seq!['1', '5']),
        keyword: foreground_code(seq!['4']),
        variable: foreground_code(seq!['2']),
        reset: reset_code(),
    }
}

/// No escape sequences at all.
pub open spec fn no_colors() -> Palette {
    Palette {
        number: Seq::empty(),
        text: Seq::empty(),
        keyword: Seq::empty(),
        variable: Seq::empty(),
        reset: Seq::empty(),
    }
}

/// An expression as text: operands and operators apart by one space,
/// groups in parentheses, each part behind the escape sequence of its class.
pub open spec fn rendered_expression(expression: ExpressionView, palette: Palette) -> Seq<char>
    decreases expression,
{
    match expression {
        ExpressionView::Number(number) => palette.number + decimal_text(number as int),
        ExpressionView::Variable(token) => palette.variable + token.span.literal,
        ExpressionView::Error(span) => palette.text + span.literal,
        ExpressionView::Binary { operator, left, right } => rendered_expression(*left, palette)
            + " "@ + palette.text + operator.token.span.literal + " "@ + rendered_expression(
            *right,
            palette,
        ),
        ExpressionView::Parenthesized(inner) => palette.text + "("@ + rendered_expression(
            *inner,
            palette,
        ) + palette.text + ")"@,
    }
}

/// What a statement shows before its line ends.
pub open spec fn rendered_statement_body(statement: StatementView, palette: Palette) -> Seq<char> {
    match statement {
        StatementView::Expression(expression) => rendered_expression(expression, palette),
        StatementView::Let { identifier, initializer } => palette.keyword + "let"@ + " "@
            + palette.text + identifier.span.literal + " "@ + palette.text + "="@ + " "@
            + rendered_expression(initializer, palette),
    }
}

/// A statement as a line of text.
pub open spec fn rendered_statement(statement: StatementView, palette: Palette) -> Seq<char> {
    rendered_statement_body(statement, palette) + palette.reset + "\n"@
}

/// A program as text, one line for each statement.
pub open spec fn rendered_program(statements: Seq<StatementView>, palette: Palette) -> Seq<char>
    decreases statements.len(),
{
    if statements.len() == 0 {
        Seq::empty()
    } else {
        rendered_program(statements.drop_last(), palette) + rendered_statement(
            statements.last(),
            palette,
        )
    }
}

/// The escape sequence for numbers. Calls `termion::color::Yellow::fg_str`,
/// which returns the constant sequence for colour 3.
#[verifier::external_body]
fn number_color() -> (code: &'static str)
    ensures
        code@ == foreground_code(seq!['3']),
{
    termion::color::Yellow.fg_str()
}

/// The escape sequence for plain text. Calls
/// `termion::color::LightWhite::fg_str`, which returns the constant sequence
/// for colour 15.
#[verifier::external_body]
fn text_color() -> (code: &'static str)
    ensures
        code@ == foreground_code(seq!['1', '5']),
{
    termion::color::LightWhite.fg_str()
}

/// The escape sequence for keywords. Calls `termion::color::Blue::fg_str`,
/// which returns the constant sequence for colour 4.
#[verifier::external_body]
fn keyword_color() -> (code: &'static str)
    ensures
        code@ == foreground_code(seq!['4']),
{
    termion::color::Blue.fg_str()
}

/// The escape sequence for names. Calls `termion::color::Green::fg_str`,
/// which returns the constant sequence for colour 2.
#[verifier::external_body]
fn variable_color() -> (code: &'static str)
    ensures
        code@ == foreground_code(seq!['2']),
{
    termion::color::Green.fg_str()
}

/// The escape sequence that ends a coloured line. Formats
/// `termion::color::Fg(termion::color::Reset)`, whose `Display` writes the
/// constant sequence for the default foreground.
#[verifier::external_body]
pub(crate) fn reset_color() -> (code: String)
    ensures
        code@ == reset_code(),
{
    format!("{}", termion::color::Fg(termion::color::Reset))
}

/// The text for one decimal digit.
fn digit_text(d: u64) -> (text: &'static str)
    requires
        d < 10,
    ensures
        text@ == seq![digit_char(d as nat)],
{
    proof {
        reveal_strlit("0");
        reveal_strlit("1");
        reveal_strlit("2");
        reveal_strlit("3");
        reveal_strlit("4");
        reveal_strlit("5");
        reveal_strlit("6");
        reveal_strlit("7");
        reveal_strlit("8");
        reveal_strlit("9");
    }
    let text = if d == 0 {
        "0"
    } else if d == 1 {
        "1"
    } else if d == 2 {
        "2"
    } else if d == 3 {
        "3"
    } else if d == 4 {
        "4"
    } else if d == 5 {
        "5"
    } else if d == 6 {
        "6"
    } else if d == 7 {
        "7"
    } else if d == 8 {
        "8"
    } else {
        "9"
    };
    assert(text@ =~= seq![digit_char(d as nat)]);
    text
}

/// Appends the decimal digits of `n` to `out`.
fn push_digits(out: &mut String, n: u64)
    ensures
        final(out)@ == old(out)@ + decimal_digits(n as nat),
    decreases n,
{
    if n >= 10 {
        push_digits(out, n / 10);
    }
    out.append(digit_text(n % 10));
    assert(out@ =~= old(out)@ + decimal_digits(n as nat));
}

/// Appends `n` in decimal to `out`.
pub fn push_decimal(out: &mut String, n: i64)
    ensures
        final(out)@ == old(out)@ + decimal_text(n as int),
{
    if n < 0 {
        proof {
            reveal_strlit("-");
        }
        out.append("-");
        let magnitude: u64 = if n == i64::MIN {
            9223372036854775808u64
        } else {
            (-n) as u64
        };
        push_digits(out, magnitude);
        assert(out@ =~= old(out)@ + decimal_text(n as int));
    } else {
        push_digits(out, n as u64);
    }
}

/// The mathematical content of an [`ASTPrinter`].
pub struct PrinterView {
    pub result: Seq<char>,
    pub colored: bool,
}

/// The escape sequences of a coloured printer, or of a plain one.
pub open spec fn palette_of(colored: bool) -> Palette {
    if colored {
        colors()
    } else {
        no_colors()
    }
}

/// A printer that has written nothing.
pub open spec fn printer_start(colored: bool) -> PrinterView {
    PrinterView { result: Seq::empty(), colored }
}

/// The printer after a statement: its line is appended.
pub open spec fn printed_statement(state: PrinterView, statement: StatementView) -> PrinterView {
    PrinterView {
        result: state.result + rendered_statement(statement, palette_of(state.colored)),
        colored: state.colored,
    }
}

/// Walking a program with a printer appends the program's text.
pub proof fn lemma_walked_printer(state: PrinterView, statements: Seq<StatementView>)
    ensures
        walked::<ASTPrinter>(state, statements) == (PrinterView {
            result: state.result + rendered_program(statements, palette_of(state.colored)),
            colored: state.colored,
        }),
    decreases statements.len(),
{
    if statements.len() == 0 {
        assert(state.result + Seq::<char>::empty() =~= state.result);
    } else {
        lemma_walked_printer(state, statements.drop_last());
        let palette = palette_of(state.colored);
        assert(state.result + rendered_program(statements.drop_last(), palette)
            + rendered_statement(statements.last(), palette) =~= state.result + rendered_program(
            statements,
            palette,
        ));
    }
}

/// Renders a syntax tree into `result`, part by part.
pub struct ASTPrinter {
    pub result: String,
    pub colored: bool,
}

impl ASTPrinter {
    /// The escape sequences this printer writes.
    pub open spec fn palette(&self) -> Palette {
        palette_of(self.colored)
    }

    /// Appends one space.
    fn add_whitespace(&mut self)
        ensures
            final(self).result@ == old(self).result@ + " "@,
            final(self).colored == old(self).colored,
    {
        self.result.append(" ")
    }

    /// Appends a line break.
    fn add_newline(&mut self)
        ensures
            final(self).result@ == old(self).result@ + "\n"@,
            final(self).colored == old(self).colored,
    {
        self.result.append("\n")
    }

    /// A printer that colours its output for a terminal.
    pub fn new() -> (printer: Self)
        ensures
            printer.result@ == Seq::<char>::empty(),
            printer.colored,
    {
        Self { result: String::new(), colored: true }
    }

    /// A printer that writes no escape sequences.
    pub fn plain() -> (printer: Self)
        ensures
            printer.result@ == Seq::<char>::empty(),
            !printer.colored,
    {
        Self { result: String::new(), colored: false }
    }

    /// Appends the escape sequence for numbers, if the printer colours.
    fn add_number_color(&mut self)
        ensures
            final(self).result@ == old(self).result@ + old(self).palette().number,
            final(self).colored == old(self).colored,
    {
        if self.colored {
            self.result.append(number_color());
        } else {
            assert(self.result@ =~= self.result@ + Seq::<char>::empty());
        }
    }

    /// Appends the escape sequence for plain text, if the printer colours.
    fn add_text_color(&mut self)
        ensures
            final(self).result@ == old(self).result@ + old(self).palette().text,
            final(self).colored == old(self).colored,
    {
        if self.colored {
            self.result.append(text_color());
        } else {
            assert(self.result@ =~= self.result@ + Seq::<char>::empty());
        }
    }

    /// Appends the escape sequence for keywords, if the printer colours.
    fn add_keyword_color(&mut self)
        ensures
            final(self).result@ == old(self).result@ + old(self).palette().keyword,
            final(self).colored == old(self).colored,
    {
        if self.colored {
            self.result.append(keyword_color());
        } else {
            assert(self.result@ =~= self.result@ + Seq::<char>::empty());
        }
    }

    /// Appends the escape sequence for names, if the printer colours.
    fn add_variable_color(&mut self)
        ensures
            final(self).result@ == old(self).result@ + old(self).palette().variable,
            final(self).colored == old(self).colored,
    {
        if self.colored {
            self.result.append(variable_color());
        } else {
            assert(self.result@ =~= self.result@ + Seq::<char>::empty());
        }
    }

    /// Appends the escape sequence that ends a coloured line, if the
    /// printer colours.
    fn add_reset(&mut self)
        ensures
            final(self).result@ == old(self).result@ + old(self).palette().reset,
            final(self).colored == old(self).colored,
    {
        if self.colored {
            let code = reset_color();
            self.result.append(code.as_str());
        } else {
            assert(self.result@ =~= self.result@ + Seq::<char>::empty());
        }
    }

    /// Appends the name.
    pub fn visit_variable_expression(&mut self, expr: &ASTVariableExpression)
        ensures
            final(self).colored == old(self).colored,
            final(self).result@ == old(self).result@ + rendered_expression(
                ExpressionView::Variable(expr.token@),
                old(self).palette(),
            ),
    {
        self.add_variable_color();
        self.result.append(expr.identifier().span.literal());
        assert(self.result@ =~= old(self).result@ + rendered_expression(
            ExpressionView::Variable(expr.token@),
            old(self).palette(),
        ));
    }

    /// Appends `let`, the name, `=` and the initializer.
    pub fn visit_let_statement(&mut self, let_statement: &ASTLetStatement)
        ensures
            final(self).colored == old(self).colored,
            final(self).result@ == old(self).result@ + rendered_statement_body(
                StatementView::Let {
                    identifier: let_statement.identifier@,
                    initializer: let_statement.initializer@,
                },
                old(self).palette(),
            ),
    {
        self.add_keyword_color();
        self.result.append("let");
        self.add_whitespace();
        self.add_text_color();
        self.result.append(let_statement.identifier.span.literal());
        self.add_whitespace();
        self.add_text_color();
        self.result.append("=");
        self.add_whitespace();
        self.visit_expression(&let_statement.initializer);
        assert(self.result@ =~= old(self).result@ + rendered_statement_body(
            StatementView::Let {
                identifier: let_statement.identifier@,
                initializer: let_statement.initializer@,
            },
            old(self).palette(),
        ));
    }

    /// Appends the expression.
    pub fn visit_expression(&mut self, expression: &ASTExpression)
        ensures
            final(self).colored == old(self).colored,
            final(self).result@ == old(self).result@ + rendered_expression(
                expression@,
                old(self).palette(),
            ),
        decreases expression,
    {
        match &expression.kind {
            ASTExpressionKind::Number(number) => self.visit_number_expression(number),
            ASTExpressionKind::Binary(binary) => self.visit_binary_expression(binary),
            ASTExpressionKind::Parenthesized(parenthesized) => {
                self.visit_parenthesized_expression(parenthesized)
            },
            ASTExpressionKind::Error(span) => self.visit_error(span),
            ASTExpressionKind::Variable(expr) => self.visit_variable_expression(expr),
        }
    }

    /// Appends the number in decimal.
    pub fn visit_number_expression(&mut self, number: &ASTNumberExpression)
        ensures
            final(self).colored == old(self).colored,
            final(self).result@ == old(self).result@ + rendered_expression(
                ExpressionView::Number(number.number),
                old(self).palette(),
            ),
    {
        self.add_number_color();
        push_decimal(&mut self.result, number.number);
        assert(self.result@ =~= old(self).result@ + rendered_expression(
            ExpressionView::Number(number.number),
            old(self).palette(),
        ));
    }

    /// Appends the text that was found where no expression could be read.
    pub fn visit_error(&mut self, span: &TextSpan)
        ensures
            final(self).colored == old(self).colored,
            final(self).result@ == old(self).result@ + rendered_expression(
                ExpressionView::Error(span@),
                old(self).palette(),
            ),
    {
        self.add_text_color();
        self.result.append(span.literal());
        assert(self.result@ =~= old(self).result@ + rendered_expression(
            ExpressionView::Error(span@),
            old(self).palette(),
        ));
    }

    /// Appends the left operand, the operator as its token spells it, and
    /// the right operand, one space apart.
    pub fn visit_binary_expression(&mut self, binary: &ASTBinaryExpression)
        ensures
            final(self).colored == old(self).colored,
            final(self).result@ == old(self).result@ + rendered_expression(
                ExpressionView::Binary {
                    operator: binary.operator@,
                    left: Box::new(binary.left@),
                    right: Box::new(binary.right@),
                },
                old(self).palette(),
            ),
        decreases binary,
    {
        self.visit_expression(&binary.left);
        self.add_whitespace();
        self.add_text_color();
        self.result.append(binary.operator.token.span.literal());
        self.add_whitespace();
        self.visit_expression(&binary.right);
        assert(self.result@ =~= old(self).result@ + rendered_expression(
            ExpressionView::Binary {
                operator: binary.operator@,
                left: Box::new(binary.left@),
                right: Box::new(binary.right@),
            },
            old(self).palette(),
        ));
    }

    /// Appends the inside between parentheses.
    pub fn visit_parenthesized_expression(&mut self, parenthesized: &ASTParenthesizedExpression)
        ensures
            final(self).colored == old(self).colored,
            final(self).result@ == old(self).result@ + rendered_expression(
                ExpressionView::Parenthesized(Box::new(parenthesized.expression@)),
                old(self).palette(),
            ),
        decreases parenthesized,
    {
        self.add_text_color();
        self.result.append("(");
        self.visit_expression(&parenthesized.expression);
        self.add_text_color();
        self.result.append(")");
        assert(self.result@ =~= old(self).result@ + rendered_expression(
            ExpressionView::Parenthesized(Box::new(parenthesized.expression@)),
            old(self).palette(),
        ));
    }
}

impl View for ASTPrinter {
    type V = PrinterView;

    open spec fn view(&self) -> PrinterView {
        PrinterView { result: self.result@, colored: self.colored }
    }
}

impl ASTVisitor for ASTPrinter {
    type State = PrinterView;

    open spec fn state(&self) -> PrinterView {
        self@
    }

    open spec fn step(state: PrinterView, statement: StatementView) -> PrinterView {
        printed_statement(state, statement)
    }

    /// Appends the statement as a line.
    fn visit_statement(&mut self, statement: &ASTStatement) {
        match &statement.kind {
            ASTStatementKind::Expression(expr) => self.visit_expression(expr),
            ASTStatementKind::LetStatement(let_statement) => self.visit_let_statement(
                let_statement,
            ),
        }
        self.add_reset();
        self.add_newline();
        assert(self.result@ =~= old(self).result@ + rendered_statement(
            statement@,
            old(self).palette(),
        ));
    }
}

} // verus!
