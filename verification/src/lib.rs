//! A verified parser-combinator engine for a LISP-like "head pattern"
//! grammar: a keyword followed by a fixed sequence of arguments, optionally
//! wrapped in a matched pair of parentheses, brackets or braces.
//!
//! Parsers are first-class data (`grammar::Shape`); the engine interprets a
//! shape over a byte buffer and either produces a typed value
//! (`grammar::SexpValue`) together with the rest of the input, or an error
//! accumulator (`error::SexpyError`) that records every diagnostic
//! contributed while the failure unwound, deepest first.

use vstd::prelude::*;

pub mod engine;
pub mod error;
pub mod grammar;
pub mod laws;
pub mod parsers;

verus! {

/// What the top-level parse of `g` over the whole buffer yields: a leading
/// word break is skipped, then the shape is parsed; input after the parsed
/// form is left alone.
pub open spec fn parse_result(s: Seq<u8>, g: grammar::Shape) -> engine::PRes {
    engine::parse_spec(s, parsers::wb_end(s, 0), g)
}

/// Parses `input` against `shape`, skipping a leading word break. On
/// failure, renders the single most specific diagnostic against the
/// original buffer. Never panics, whatever the input.
pub fn parse(input: &[u8], shape: &grammar::Shape) -> (r: Result<grammar::SexpValue, Vec<u8>>)
    ensures
        match parse_result(input@, *shape) {
            engine::PRes::Done { val, .. } => r matches Ok(v) && v.model() == val,
            engine::PRes::Fail { errs, .. } => r matches Err(msg) && msg@
                == error::format_error_model(input@, 0, errs[0].0, errs[0].1),
        },
{
    proof {
        parsers::lemma_wb_end(input@, 0);
    }
    let p0 = parsers::wordbreak0(input, 0);
    proof {
        engine::lemma_parse_wf(input@, p0 as int, *shape);
    }
    match engine::sexp_parse(input, p0, shape) {
        Ok((_, v)) => Ok(v),
        Err(error::ParseErr::Error(e)) => Err(e.convert_error(input)),
        Err(error::ParseErr::Failure(e)) => Err(e.convert_error(input)),
    }
}

/// Like `parse`, but a failure renders the whole diagnostic chain, deepest
/// first.
pub fn parse_verbose(input: &[u8], shape: &grammar::Shape) -> (r: Result<
    grammar::SexpValue,
    Vec<u8>,
>)
    ensures
        match parse_result(input@, *shape) {
            engine::PRes::Done { val, .. } => r matches Ok(v) && v.model() == val,
            engine::PRes::Fail { errs, .. } => r matches Err(msg) && msg@ == error::render_upto(
                input@,
                errs,
                errs.len() as int,
            ),
        },
{
    proof {
        parsers::lemma_wb_end(input@, 0);
    }
    let p0 = parsers::wordbreak0(input, 0);
    proof {
        engine::lemma_parse_wf(input@, p0 as int, *shape);
    }
    match engine::sexp_parse(input, p0, shape) {
        Ok((_, v)) => Ok(v),
        Err(error::ParseErr::Error(e)) => Err(e.convert_error_verbose(input)),
        Err(error::ParseErr::Failure(e)) => Err(e.convert_error_verbose(input)),
    }
}

} // verus!
