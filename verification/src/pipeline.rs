//! The stages in their order: text to tokens, tokens to a program, the
//! program checked and, where nothing is wrong with it, evaluated.

use crate::ast::{Ast, StatementView};
use crate::ast::evaluator::{after_program, initial_evaluator, ASTEvaluator, EvaluationError};
use crate::ast::grammar::lemma_diagnostics_guard_evaluation;
use crate::ast::lexer::{lemma_token_end, lex, lex_from, Lexer, Token, TokenView};
use crate::ast::parser::{parse_program, significant, token_views, Parser};
use crate::ast::printer::{colors, foreground_code, rendered_program};
use crate::ast::symbols::{checked_program, CheckerView, SymbolChecker};
use crate::diagnostics::{has_error, DiagnosticBag, DiagnosticView};
use crate::diagnostics::printer::{diagnostic_block, DiagnosticsPrinter};
use crate::text::SourceText;
use vstd::prelude::*;
use vstd::string::*;

verus! {

/// All the tokens of `input`, white space and the closing token included.
pub fn tokenize(input: &str) -> (tokens: Vec<Token>)
    ensures
        token_views(tokens@) == lex(input@),
{
    let ghost s = input@;
    let mut lexer = Lexer::new(input);
    let mut tokens: Vec<Token> = Vec::new();
    assert(token_views(tokens@) =~= Seq::<TokenView>::empty());
    loop
        invariant_except_break
            !lexer.is_finished(),
            token_views(tokens@) + lex_from(s, lexer.position()) == lex(s),
        invariant
            lexer.wf(),
            lexer.source() == s,
            0 <= lexer.position() <= s.len(),
        ensures
            token_views(tokens@) == lex(s),
        decreases s.len() - lexer.position(),
    {
        let ghost before = token_views(tokens@);
        let ghost position = lexer.position();
        proof {
            if position < s.len() {
                lemma_token_end(s, position);
            }
        }
        match lexer.next_token() {
            Some(token) => {
                let ghost view = token@;
                tokens.push(token);
                assert(token_views(tokens@) =~= before.push(view));
                if lexer.is_done() {
                    assert(before.push(view) =~= before + lex_from(s, position));
                    break ;
                }
                assert(before.push(view) + lex_from(s, lexer.position()) =~= before + lex_from(
                    s,
                    position,
                ));
            },
            None => {
                break ;
            },
        }
    }
    tokens
}

/// The program that the tokens spell, with what is malformed in it added
/// to the diagnostics.
pub fn parse(tokens: Vec<Token>, diagnostics_bag: DiagnosticBag) -> (parsed: (Ast, DiagnosticBag))
    ensures
        ({
            let program = parse_program(
                significant(token_views(tokens@)),
                0,
                diagnostics_bag@,
            );
            &&& parsed.0@ == program.statements
            &&& parsed.1@ == program.diagnostics
        }),
{
    let mut ast = Ast::new();
    let mut parser = Parser::new(tokens, diagnostics_bag);
    let ghost significant_tokens = parser.tokens();
    let ghost target = parse_program(significant_tokens, 0, parser.diagnostics());
    assert(ast@ + target.statements =~= target.statements);
    loop
        invariant
            parser.wf(),
            parser.tokens() == significant_tokens,
            0 <= parser.position() <= significant_tokens.len(),
            ast@ + parse_program(
                significant_tokens,
                parser.position(),
                parser.diagnostics(),
            ).statements == target.statements,
            parse_program(
                significant_tokens,
                parser.position(),
                parser.diagnostics(),
            ).diagnostics == target.diagnostics,
        ensures
            ast@ == target.statements,
            parser.diagnostics() == target.diagnostics,
        decreases significant_tokens.len() - parser.position(),
    {
        let ghost before = ast@;
        let ghost rest = parse_program(
            significant_tokens,
            parser.position(),
            parser.diagnostics(),
        );
        match parser.next_statement() {
            Some(statement) => {
                let ghost view = statement@;
                ast.add_statement(statement);
                proof {
                    parser.lemma_position_in_bounds();
                    let after = parse_program(
                        significant_tokens,
                        parser.position(),
                        parser.diagnostics(),
                    );
                    assert(before.push(view) + after.statements =~= before + (seq![view]
                        + after.statements));
                }
            },
            None => {
                assert(before + rest.statements =~= before);
                break ;
            },
        }
    }
    (ast, parser.into_diagnostics())
}

/// `Ok` where no error has been reported; otherwise the blocks for all the
/// diagnostics, in their order. Warnings alone never give `Err`.
pub fn check_diagnostics(text: &SourceText, diagnostics_bag: &DiagnosticBag) -> (checked: Result<
    (),
    Vec<String>,
>)
    ensures
        checked.is_err() == has_error(diagnostics_bag@),
        match checked {
            Ok(_) => true,
            Err(blocks) => reported(text@, diagnostics_bag@, blocks@),
        },
{
    if diagnostics_bag.has_errors() {
        let diagnostics_printer = DiagnosticsPrinter::new(
            text,
            diagnostics_bag.diagnostics.as_slice(),
        );
        let blocks = diagnostics_printer.blocks();
        Err(blocks)
    } else {
        Ok(())
    }
}

/// The blocks are those of the diagnostics, one for each and in their
/// order, with the span marked in red or not at all.
pub open spec fn reported(source: Seq<char>, diagnostics: Seq<DiagnosticView>, blocks: Seq<String>) -> bool {
    &&& blocks.len() == diagnostics.len()
    &&& forall|i: int|
        0 <= i < blocks.len() ==> {
            ||| (#[trigger] blocks[i])@ == diagnostic_block(
                source,
                diagnostics[i],
                foreground_code(seq!['1']),
            )
            ||| blocks[i]@ == diagnostic_block(source, diagnostics[i], Seq::empty())
        }
}

/// Why a program gave no value.
pub enum Failure {
    /// Errors were found before the program could run; these are their blocks.
    Diagnostics(Vec<String>),
    /// The program ran into an error.
    Evaluation(EvaluationError),
}

/// What compiling and running a source text gives: the program as coloured
/// text, and its value or the reason why it has none. A program without
/// statements has the value `None`.
pub struct Outcome {
    pub rendering: String,
    pub result: Result<Option<i64>, Failure>,
}

/// What the stages before evaluation make of a source text.
pub struct Compiled {
    pub statements: Seq<StatementView>,
    pub diagnostics: Seq<DiagnosticView>,
}

/// The program that `source` spells, and the diagnostics of the parser
/// followed by those of the symbol checker.
pub open spec fn compiled(source: Seq<char>) -> Compiled {
    let program = parse_program(significant(lex(source)), 0, Seq::empty());
    let checked = checked_program(
        CheckerView { symbols: Set::empty(), diagnostics: program.diagnostics },
        program.statements,
    );
    Compiled { statements: program.statements, diagnostics: checked.diagnostics }
}

/// Compiles `input` and, where no error was reported, evaluates it.
pub fn run(input: &str) -> (outcome: Outcome)
    ensures
        outcome.rendering@ == rendered_program(compiled(input@).statements, colors()),
        match outcome.result {
            Ok(value) => {
                let end = after_program(initial_evaluator(), compiled(input@).statements);
                &&& !has_error(compiled(input@).diagnostics)
                &&& end.failure.is_none()
                &&& value == end.last_value
            },
            Err(Failure::Diagnostics(blocks)) => {
                &&& has_error(compiled(input@).diagnostics)
                &&& reported(input@, compiled(input@).diagnostics, blocks@)
            },
            Err(Failure::Evaluation(error)) => {
                let end = after_program(initial_evaluator(), compiled(input@).statements);
                &&& !has_error(compiled(input@).diagnostics)
                &&& end.failure == Some(error)
                &&& error == EvaluationError::DivisionByZero || error
                    == EvaluationError::Overflow
            },
        },
{
    let text = SourceText::new(input.to_owned());
    let tokens = tokenize(input);
    let (ast, diagnostics_bag) = parse(tokens, DiagnosticBag::new());
    let rendering = ast.visualize();
    let mut symbol_checker = SymbolChecker::new(diagnostics_bag);
    ast.visit(&mut symbol_checker);
    let diagnostics_bag = symbol_checker.into_diagnostics();
    match check_diagnostics(&text, &diagnostics_bag) {
        Err(blocks) => { return Outcome { rendering, result: Err(Failure::Diagnostics(blocks)) }; },
        Ok(_) => {},
    }
    let mut eval = ASTEvaluator::new();
    ast.visit(&mut eval);
    proof {
        lemma_diagnostics_guard_evaluation(input@);
    }
    let result = match eval.failure {
        Some(error) => Err(Failure::Evaluation(error)),
        None => Ok(eval.last_value),
    };
    Outcome { rendering, result }
}

} // verus!
