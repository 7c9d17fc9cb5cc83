//! A small JSON decoding pipeline: a lexical scanner that turns text into a
//! flat token sequence, a recursive-descent parser that builds a value tree
//! from the tokens, and a renderer that prints the tree back as indented text.
//!
//! Numbers are kept as their source digit text throughout the pipeline: the
//! scanner only accepts runs of decimal digits, so the text itself is the
//! most faithful representation of the value.  Converting that text to a
//! machine float is left to the caller.

pub mod laws;
pub mod parser;
pub mod render;
pub mod tokenizer;
pub mod value;

use vstd::prelude::*;
use crate::parser::{parse, parse_spec, ParseError, SpecParseError};
use crate::render::{render, render_spec};
use crate::tokenizer::{scan_spec, tokenize, LexError, SpecLexError};

verus! {

/// The first failure of the pipeline, tagged with the stage it came from.
#[derive(Debug)]
pub enum PipelineError {
    /// The scanner rejected the text.
    Lex(LexError),
    /// The parser rejected the token sequence.
    Parse(ParseError),
}

/// The mathematical model of a pipeline failure.
pub enum SpecPipelineError {
    Lex(SpecLexError),
    Parse(SpecParseError),
}

impl View for PipelineError {
    type V = SpecPipelineError;

    open spec fn view(&self) -> SpecPipelineError {
        match self {
            PipelineError::Lex(e) => SpecPipelineError::Lex(e@),
            PipelineError::Parse(e) => SpecPipelineError::Parse(e@),
        }
    }
}

/// What the whole pipeline yields on a document: the rendering of the value
/// its tokens form, or the first error of the first stage that failed.
pub open spec fn decode_and_render_spec(s: Seq<char>) -> Result<Seq<char>, SpecPipelineError> {
    match scan_spec(s) {
        Err(e) => Err(SpecPipelineError::Lex(e)),
        Ok(ts) => match parse_spec(ts) {
            Err(e) => Err(SpecPipelineError::Parse(e)),
            Ok(v) => Ok(render_spec(v, Seq::empty())),
        },
    }
}

/// Scans, parses and re-renders a document: the caller-facing entry point.
pub fn decode_and_render(document: &str) -> (r: Result<String, PipelineError>)
    ensures
        match r {
            Ok(text) => decode_and_render_spec(document@) == Ok::<_, SpecPipelineError>(text@),
            Err(e) => decode_and_render_spec(document@) == Err::<Seq<char>, _>(e@),
        },
{
    match tokenize(document) {
        Err(e) => Err(PipelineError::Lex(e)),
        Ok(toks) => match parse(toks) {
            Err(e) => Err(PipelineError::Parse(e)),
            Ok(v) => Ok(render(&v)),
        },
    }
}

} // verus!
