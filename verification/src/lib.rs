//! Compiler for a declarative keyboard-remapping profile language.
//!
//! The pipeline turns source bytes into a compiled event-dispatch table:
//! lexing, recursive-descent parsing into a span-annotated syntax tree,
//! semantic checking (duplicate detection, layer reachability), and lowering
//! into flat trigger/bind records with trie-based conflict detection.

pub mod ast;
pub mod check;
pub mod cli;
pub mod compiled;
pub mod diag;
pub mod lex;
pub mod parse;
pub mod utils;

use crate::diag::{count_errors, has_error, Diagnostic};
use crate::lex::Lexer;
use crate::parse::TokenStream;
use vstd::prelude::*;

verus! {

/// What running the pipeline over source bytes produced: either the single
/// fatal lexical or syntactic diagnostic, or the checker's diagnostics with
/// the compiled artifact when nothing blocked it.
pub enum CompileOutcome {
    ParseFailed(Diagnostic),
    Checked { diagnostics: Vec<Diagnostic>, profile: Option<compiled::Profile> },
}

/// Parses source bytes into a syntax tree: succeeds exactly when lexing
/// reaches the end of input without a fatal error and the token sequence
/// matches the profile grammar, and the returned tree spells that token
/// sequence. A fatal lexical error takes precedence over the parse error it
/// caused.
pub fn parse_profile(source: Vec<u8>) -> (r: Result<ast::Profile, Diagnostic>)
    ensures
        ({
            let toks = crate::parse::spec_stream_from(source@, 0, None);
            &&& (r matches Ok(p) ==> crate::parse::spec_lex_ok(source@, 0)
                && crate::parse::spec_parse_profile(toks) == Some(
                crate::parse::profile_model(p),
            ))
            &&& ((crate::parse::spec_lex_ok(source@, 0) && crate::parse::spec_parse_profile(
                toks,
            ) is Some) ==> r is Ok)
            &&& (r matches Err(d) ==> d.is_error())
        }),
{
    let lexer = Lexer::new(source);
    let mut ts = TokenStream::new(lexer);
    let result = ast::Profile::parse(&mut ts);
    let _probe_end = ts.peek_type();
    proof {
        reveal(crate::parse::TokenStream::wf);
    }
    match ts.lex_error {
        Some(d) => Err(d),
        None => result,
    }
}

/// Runs the whole pipeline: lex, parse, check, and lower. Parsing fails
/// exactly when lexing or the grammar rejects the source; otherwise the
/// checker's diagnostics come back, and the compiled artifact is produced
/// exactly when they hold no error and lowering found no conflict.
pub fn compile_source(source: Vec<u8>, platform: compiled::Platform) -> (r: CompileOutcome)
    ensures
        ({
            let toks = crate::parse::spec_stream_from(source@, 0, None);
            let parses = crate::parse::spec_lex_ok(source@, 0)
                && crate::parse::spec_parse_profile(toks) is Some;
            match r {
                CompileOutcome::ParseFailed(d) => d.is_error() && !parses,
                CompileOutcome::Checked { diagnostics, profile } => parses && ((profile is Some)
                    == !has_error(diagnostics@)),
            }
        }),
{
    let profile = match parse_profile(source) {
        Ok(p) => p,
        Err(d) => {
            return CompileOutcome::ParseFailed(d);
        },
    };
    let mut diagnostics = profile.check();
    let errors = count_errors(&diagnostics);
    if errors > 0 {
        return CompileOutcome::Checked { diagnostics, profile: None };
    }
    match profile.compile(platform) {
        Ok(compiled_profile) => CompileOutcome::Checked {
            diagnostics,
            profile: Some(compiled_profile),
        },
        Err(d) => {
            diagnostics.push(d);
            proof {
                assert(diagnostics@[diagnostics@.len() - 1].is_error());
            }
            CompileOutcome::Checked { diagnostics, profile: None }
        },
    }
}

} // verus!

