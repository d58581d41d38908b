//! Checking that every name is declared before it is used.

use crate::ast::{
    walked, ASTBinaryExpression, ASTExpression, ASTExpressionKind, ASTLetStatement,
    ASTNumberExpression, ASTParenthesizedExpression, ASTStatement, ASTStatementKind,
    ASTVariableExpression, ASTVisitor, ExpressionView, StatementView,
};
use crate::ast::evaluator::{
    after_program, after_statement, evaluate, initial_evaluator, EvaluationError,
};
use crate::ast::lexer::TextSpan;
use crate::diagnostics::{undeclared_variable, DiagnosticBag, DiagnosticKind, DiagnosticView};
use vstd::hash_map::StringHashMap;
use vstd::prelude::*;

verus! {

/// The diagnostics for the names that `expression` uses and `declared`
/// lacks, in the order in which the names stand in the source.
pub open spec fn undeclared_uses(expression: ExpressionView, declared: Set<Seq<char>>) -> Seq<DiagnosticView>
    decreases expression,
{
    match expression {
        ExpressionView::Number(_) => Seq::empty(),
        ExpressionView::Variable(token) => if declared.contains(token.span.literal) {
            Seq::empty()
        } else {
            seq![undeclared_variable(token)]
        },
        ExpressionView::Parenthesized(inner) => undeclared_uses(*inner, declared),
        ExpressionView::Binary { operator: _, left, right } => undeclared_uses(*left, declared)
            + undeclared_uses(*right, declared),
        ExpressionView::Error(_) => Seq::empty(),
    }
}

/// The mathematical content of a [`SymbolChecker`].
pub struct CheckerView {
    pub symbols: Set<Seq<char>>,
    pub diagnostics: Seq<DiagnosticView>,
}

/// The checker after an expression: what it lacks is reported.
pub open spec fn checked_expression(state: CheckerView, expression: ExpressionView) -> CheckerView {
    CheckerView {
        symbols: state.symbols,
        diagnostics: state.diagnostics + undeclared_uses(expression, state.symbols),
    }
}

/// The checker after a statement. A `let` declares its name once its
/// initializer has been checked, so the initializer cannot use the name.
pub open spec fn checked_statement(state: CheckerView, statement: StatementView) -> CheckerView {
    match statement {
        StatementView::Expression(expression) => checked_expression(state, expression),
        StatementView::Let { identifier, initializer } => CheckerView {
            symbols: state.symbols.insert(identifier.span.literal),
            diagnostics: state.diagnostics + undeclared_uses(initializer, state.symbols),
        },
    }
}

/// The checker after the statements, in order.
pub open spec fn checked_program(state: CheckerView, statements: Seq<StatementView>) -> CheckerView {
    walked::<SymbolChecker>(state, statements)
}

/// An expression in which the checker finds nothing undeclared is never
/// evaluated to the error of an undeclared variable, where the evaluator
/// knows the names that the checker knows.
pub proof fn lemma_checked_expression_finds_its_variables(
    expression: ExpressionView,
    variables: Map<Seq<char>, i64>,
)
    requires
        undeclared_uses(expression, variables.dom()).len() == 0,
    ensures
        evaluate(expression, variables) != Err::<i64, EvaluationError>(
            EvaluationError::UndeclaredVariable,
        ),
    decreases expression,
{
    match expression {
        ExpressionView::Parenthesized(inner) => {
            lemma_checked_expression_finds_its_variables(*inner, variables);
        },
        ExpressionView::Binary { operator, left, right } => {
            lemma_checked_expression_finds_its_variables(*left, variables);
            lemma_checked_expression_finds_its_variables(*right, variables);
        },
        _ => {},
    }
}

/// The checker only adds to the diagnostics it began with, and what it
/// adds are errors.
pub proof fn lemma_checker_adds_errors(state: CheckerView, statements: Seq<StatementView>)
    ensures
        ({
            let end = checked_program(state, statements);
            &&& state.diagnostics.len() <= end.diagnostics.len()
            &&& end.diagnostics.take(state.diagnostics.len() as int) == state.diagnostics
            &&& forall|i: int|
                state.diagnostics.len() <= i < end.diagnostics.len() ==> (
                #[trigger] end.diagnostics[i]).kind == DiagnosticKind::Error
        }),
    decreases statements.len(),
{
    if statements.len() == 0 {
        assert(state.diagnostics.take(state.diagnostics.len() as int) =~= state.diagnostics);
    } else {
        lemma_checker_adds_errors(state, statements.drop_last());
        let before = checked_program(state, statements.drop_last());
        let end = checked_program(state, statements);
        let expression = match statements.last() {
            StatementView::Expression(expression) => expression,
            StatementView::Let { identifier, initializer } => initializer,
        };
        lemma_uses_are_errors(expression, before.symbols);
        assert(end.diagnostics == before.diagnostics + undeclared_uses(
            expression,
            before.symbols,
        ));
        assert(end.diagnostics.take(state.diagnostics.len() as int) =~= before.diagnostics.take(
            state.diagnostics.len() as int,
        ));
    }
}

/// Every diagnostic for an undeclared name is an error.
pub proof fn lemma_uses_are_errors(expression: ExpressionView, declared: Set<Seq<char>>)
    ensures
        forall|i: int|
            0 <= i < undeclared_uses(expression, declared).len() ==> (#[trigger] undeclared_uses(
                expression,
                declared,
            )[i]).kind == DiagnosticKind::Error,
    decreases expression,
{
    match expression {
        ExpressionView::Parenthesized(inner) => {
            lemma_uses_are_errors(*inner, declared);
        },
        ExpressionView::Binary { operator, left, right } => {
            lemma_uses_are_errors(*left, declared);
            lemma_uses_are_errors(*right, declared);
        },
        _ => {},
    }
}

/// A use of a name before its declaration is reported: a program to which
/// the checker, starting without names, adds no diagnostic never fails
/// for an undeclared variable when it is evaluated.
pub proof fn lemma_checked_program_finds_its_variables(
    statements: Seq<StatementView>,
    reported: Seq<DiagnosticView>,
)
    requires
        checked_program(
            CheckerView { symbols: Set::empty(), diagnostics: reported },
            statements,
        ).diagnostics.len() == reported.len(),
    ensures
        after_program(initial_evaluator(), statements).failure != Some(
            EvaluationError::UndeclaredVariable,
        ),
        after_program(initial_evaluator(), statements).failure.is_none() ==> after_program(
            initial_evaluator(),
            statements,
        ).variables.dom() == checked_program(
            CheckerView { symbols: Set::empty(), diagnostics: reported },
            statements,
        ).symbols,
    decreases statements.len(),
{
    let start = CheckerView { symbols: Set::empty(), diagnostics: reported };
    if statements.len() == 0 {
        assert(initial_evaluator().variables.dom() =~= start.symbols);
    } else {
        let earlier = statements.drop_last();
        lemma_checker_adds_errors(start, earlier);
        let checked = checked_program(start, earlier);
        let end = checked_program(start, statements);
        assert(end == checked_statement(checked, statements.last()));
        lemma_checked_program_finds_its_variables(earlier, reported);
        let evaluated = after_program(initial_evaluator(), earlier);
        assert(after_program(initial_evaluator(), statements) == after_statement(
            evaluated,
            statements.last(),
        ));
        if evaluated.failure.is_none() {
            match statements.last() {
                StatementView::Expression(expression) => {
                    lemma_checked_expression_finds_its_variables(expression, evaluated.variables);
                },
                StatementView::Let { identifier, initializer } => {
                    lemma_checked_expression_finds_its_variables(initializer, evaluated.variables);
                    let after = after_statement(evaluated, statements.last());
                    if after.failure.is_none() {
                        assert(after.variables.dom() =~= end.symbols);
                    }
                },
            }
        }
    }
}

/// Walks a program and reports each use of a name that no earlier `let`
/// has declared.
pub struct SymbolChecker {
    symbols: StringHashMap<()>,
    diagnostics_bag: DiagnosticBag,
}

impl View for SymbolChecker {
    type V = CheckerView;

    closed spec fn view(&self) -> CheckerView {
        CheckerView { symbols: self.symbols@.dom(), diagnostics: self.diagnostics_bag@ }
    }
}

impl SymbolChecker {
    /// A symbol checker that knows no name yet and adds what it reports to
    /// `diagnostics_bag`.
    pub fn new(diagnostics_bag: DiagnosticBag) -> (checker: Self)
        ensures
            checker@ == (CheckerView { symbols: Set::empty(), diagnostics: diagnostics_bag@ }),
    {
        let checker = Self { symbols: StringHashMap::new(), diagnostics_bag };
        assert(checker.symbols@.dom() =~= Set::<Seq<char>>::empty());
        checker
    }

    /// Hands back the diagnostics, with what the checker has added to them.
    pub fn into_diagnostics(self) -> (bag: DiagnosticBag)
        ensures
            bag@ == self@.diagnostics,
    {
        self.diagnostics_bag
    }

    /// Checks the initializer, then declares the name.
    pub fn visit_let_statement(&mut self, let_statement: &ASTLetStatement)
        ensures
            final(self)@ == checked_statement(
                old(self)@,
                StatementView::Let {
                    identifier: let_statement.identifier@,
                    initializer: let_statement.initializer@,
                },
            ),
    {
        self.visit_expression(&let_statement.initializer);
        self.symbols.insert(let_statement.identifier.span.literal().to_owned(), ());
        assert(self.symbols@.dom() =~= old(self).symbols@.dom().insert(
            let_statement.identifier@.span.literal,
        ));
    }

    /// Reports each name in the expression that is not declared.
    pub fn visit_expression(&mut self, expression: &ASTExpression)
        ensures
            final(self)@ == checked_expression(old(self)@, expression@),
        decreases expression,
    {
        match &expression.kind {
            ASTExpressionKind::Number(number) => self.visit_number_expression(number),
            ASTExpressionKind::Binary(binary) => self.visit_binary_expression(binary),
            ASTExpressionKind::Parenthesized(parenthesized) => {
                self.visit_parenthesized_expression(parenthesized)
            },
            ASTExpressionKind::Error(span) => self.visit_error(span),
            ASTExpressionKind::Variable(expr) => self.visit_variable_expression(expr),
        }
    }

    /// Reports the name if it is not declared.
    pub fn visit_variable_expression(&mut self, variable: &ASTVariableExpression)
        ensures
            final(self)@ == checked_expression(
                old(self)@,
                ExpressionView::Variable(variable.token@),
            ),
    {
        if !self.symbols.contains_key(variable.token.span.literal()) {
            self.diagnostics_bag.report_undeclared_variable(variable.identifier());
            assert(self@.diagnostics =~= old(self)@.diagnostics + seq![
                undeclared_variable(variable.token@),
            ]);
        } else {
            assert(self@.diagnostics =~= old(self)@.diagnostics + Seq::<DiagnosticView>::empty());
        }
    }

    /// A number uses no name.
    pub fn visit_number_expression(&mut self, number: &ASTNumberExpression)
        ensures
            final(self)@ == checked_expression(old(self)@, ExpressionView::Number(number.number)),
    {
        assert(self@.diagnostics =~= self@.diagnostics + Seq::<DiagnosticView>::empty());
    }

    /// Checks the left operand, then the right one.
    pub fn visit_binary_expression(&mut self, binary: &ASTBinaryExpression)
        ensures
            final(self)@ == checked_expression(
                old(self)@,
                ExpressionView::Binary {
                    operator: binary.operator@,
                    left: Box::new(binary.left@),
                    right: Box::new(binary.right@),
                },
            ),
        decreases binary,
    {
        self.visit_expression(&binary.left);
        self.visit_expression(&binary.right);
        assert(self@.diagnostics =~= old(self)@.diagnostics + (undeclared_uses(
            binary.left@,
            old(self)@.symbols,
        ) + undeclared_uses(binary.right@, old(self)@.symbols)));
    }

    /// Checks what stands in the parentheses.
    pub fn visit_parenthesized_expression(&mut self, parenthesized: &ASTParenthesizedExpression)
        ensures
            final(self)@ == checked_expression(
                old(self)@,
                ExpressionView::Parenthesized(Box::new(parenthesized.expression@)),
            ),
        decreases parenthesized,
    {
        self.visit_expression(&parenthesized.expression);
    }

    /// An `Error` node uses no name.
    pub fn visit_error(&mut self, span: &TextSpan)
        ensures
            final(self)@ == checked_expression(old(self)@, ExpressionView::Error(span@)),
    {
        assert(self@.diagnostics =~= self@.diagnostics + Seq::<DiagnosticView>::empty());
    }
}

impl ASTVisitor for SymbolChecker {
    type State = CheckerView;

    open spec fn state(&self) -> CheckerView {
        self@
    }

    open spec fn step(state: CheckerView, statement: StatementView) -> CheckerView {
        checked_statement(state, statement)
    }

    /// Checks one statement.
    fn visit_statement(&mut self, statement: &ASTStatement) {
        match &statement.kind {
            ASTStatementKind::Expression(expr) => self.visit_expression(expr),
            ASTStatementKind::LetStatement(let_statement) => self.visit_let_statement(
                let_statement,
            ),
        }
    }
}

} // verus!
