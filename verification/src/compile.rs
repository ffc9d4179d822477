use vstd::prelude::*;
use crate::diagnostics::{Diagnostic, Failure};
use crate::interpreter::{interpret, program_ran, Run};
use crate::ir::ast::Ast;
use crate::ir::Interner;
use crate::lexer::{errors_model, lexed, lexer, NamesExhausted};
use vstd::utf8::encode_utf8;
use crate::parser::{parse, parser};
use crate::ir::token::Tok;
use crate::span::{Ctx, Span};

verus! {

/// A source file: its text and the context that its spans carry.
#[derive(Debug)]
pub struct SourceProgram {
    pub text: String,
    pub file_ctx: Ctx,
}

impl SourceProgram {
    pub fn new(text: String, file_ctx: Ctx) -> (r: SourceProgram)
        ensures
            r.text == text,
            r.file_ctx == file_ctx,
    {
        SourceProgram { text, file_ctx }
    }

    pub fn text(&self) -> (r: &str)
        ensures
            r@ == self.text@,
    {
        self.text.as_str()
    }

    pub fn file_ctx(&self) -> (r: Ctx)
        ensures
            r == self.file_ctx,
    {
        self.file_ctx
    }
}

/// What compiling a source file gives: the lexer's and the parser's
/// diagnostics, in order; the program, when it parsed; and what running it
/// did.
#[derive(Debug)]
pub struct Compilation {
    pub diagnostics: Vec<Diagnostic>,
    pub ast: Option<Ast>,
    pub run: Option<Run>,
}

/// The diagnostics of compiling `source`: the lexer's errors, followed, when
/// the source was read, by the parser's errors on its tokens.
pub open spec fn compiled_errors(source: Seq<char>, ctx: Ctx, names: Seq<Seq<char>>) -> Seq<Failure> {
    match lexed(source, ctx, names) {
        Some((Some(toks), errs, names2)) => errs + parse(toks, names2).1,
        Some((None, errs, _)) => errs,
        None => Seq::empty(),
    }
}

/// Compiling gives the diagnostics that the lexer and then the parser give
/// when called one after the other: `lexer_errors` and `tokens` as the
/// lexer's contract states them, then `parser_errors` as the parser's
/// contract states them on those tokens and the names after lexing.
pub proof fn law_compile_is_lexer_then_parser(
    source: Seq<char>,
    file_id: usize,
    names: Seq<Seq<char>>,
    tokens: Seq<(Tok, Span)>,
    lexer_errors: Seq<Failure>,
    lexer_names: Seq<Seq<char>>,
    parser_errors: Seq<Failure>,
)
    requires
        lexed(source, Ctx(file_id), names) == Some((Some(tokens), lexer_errors, lexer_names)),
        parser_errors == parse(tokens, lexer_names).1,
    ensures
        compiled_errors(source, Ctx(file_id), names) == lexer_errors + parser_errors,
{
}

/// Reads, parses and runs `source` (file `file_id`). The program runs only
/// when it was read and parsed; a run's own errors are not diagnostics of the
/// source. Fails when the interner has no room for the program's names.
pub fn compile(source: &str, file_id: usize, interner: &mut Interner) -> (r: Result<Compilation, NamesExhausted>)
    requires
        old(interner).wf(),
        encode_utf8(source@).len() <= usize::MAX,
    ensures
        final(interner).wf(),
        r matches Ok(c) ==> errors_model(c.diagnostics@) == compiled_errors(source@, Ctx(file_id), old(interner).names()),
        match lexed(source@, Ctx(file_id), old(interner).names()) {
            None => r is Err,
            Some((None, errs, names)) => r matches Ok(c) && {
                &&& errors_model(c.diagnostics@) == errs
                &&& c.ast is None
                &&& c.run is None
                &&& final(interner).names() == names
            },
            Some((Some(toks), errs, names)) => match parse(toks, names).0 {
                None => r matches Ok(c) && {
                    &&& errors_model(c.diagnostics@) == errs + parse(toks, names).1
                    &&& c.ast is None
                    &&& c.run is None
                    &&& final(interner).names() == names
                },
                Some(items) => if names.len() + 2 < u32::MAX {
                    r matches Ok(c) && {
                        &&& errors_model(c.diagnostics@) == errs + parse(toks, names).1
                        &&& c.ast matches Some(a) && a@ == items
                        &&& c.run matches Some(run) && program_ran(run, items, *final(interner))
                    }
                } else {
                    r is Err
                },
            },
        },
{
    let (tokens, mut diagnostics) = match lexer(source, file_id, interner) {
        Ok(x) => x,
        Err(e) => return Err(e),
    };
    let tokens = match tokens {
        Some(t) => t,
        None => return Ok(Compilation { diagnostics, ast: None, run: None }),
    };
    let (ast, mut parser_errors) = parser(&tokens, interner);
    let ghost lexed = errors_model(diagnostics@);
    let ghost parsed = errors_model(parser_errors@);
    diagnostics.append(&mut parser_errors);
    assert(errors_model(diagnostics@) =~= lexed + parsed);
    match ast {
        None => Ok(Compilation { diagnostics, ast: None, run: None }),
        Some(ast) => {
            if interner.len() >= 0xffff_fffd {
                return Err(NamesExhausted);
            }
            let run = interpret(&ast, interner);
            Ok(Compilation { diagnostics, ast: Some(ast), run: Some(run) })
        },
    }
}

} // verus!
