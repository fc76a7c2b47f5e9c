//! Reading a text that is one literal and nothing else.

use crate::error::ParseError;
use crate::literal::{
    entire, escape_pair, float_literal, hex_literal, int_literal, lemma_match_bounds,
    string_literal, symbol_literal, Kind, Match,
};
use crate::recognize::match_at;
use crate::source::Source;
use vstd::prelude::*;

verus! {

/// Whether `res` is what `model` says of the text `s`: the text of the
/// literal, or the error at the place of failure.
pub open spec fn yields(res: Result<&str, ParseError>, s: Seq<char>, model: Match) -> bool {
    match (res, model) {
        (Ok(part), Ok(span)) => part@ == s.subrange(span.start, span.end),
        (Err(error), Err(at)) => error.is_at(s, at),
        _ => false,
    }
}

/// Reads `text` as one literal of the given form, with the padding around
/// it and the separator behind it.
fn single<'a>(text: &'a str, kind: Kind) -> (res: Result<&'a str, ParseError>)
    ensures
        yields(res, text@, entire(text@, kind.matched(text@))),
{
    let src = Source::new(text);
    proof {
        assert(src@.skip(0) =~= src@);
        lemma_match_bounds(src@, kind);
    }
    match match_at(&src, 0, kind) {
        Ok(token) => {
            if token.next == src.len() {
                Ok(src.slice(token.start, token.end))
            } else {
                Err(ParseError::at(&src, token.next))
            }
        },
        Err(at) => Err(ParseError::at(&src, at)),
    }
}

/// Reads a text that is one quoted string: what stands between the
/// quotes, as written.
pub fn parse_string<'a>(text: &'a str) -> (res: Result<&'a str, ParseError>)
    ensures
        yields(res, text@, entire(text@, string_literal(text@))),
{
    single(text, Kind::StringLiteral)
}

/// Reads a text that is one signed integer.
pub fn parse_int<'a>(text: &'a str) -> (res: Result<&'a str, ParseError>)
    ensures
        yields(res, text@, entire(text@, int_literal(text@))),
{
    single(text, Kind::IntLiteral)
}

/// Reads a text that is one hex blob.
pub fn parse_hexint64<'a>(text: &'a str) -> (res: Result<&'a str, ParseError>)
    ensures
        yields(res, text@, entire(text@, hex_literal(text@))),
{
    single(text, Kind::HexIntLiteral)
}

/// Reads a text that is one signed float.
pub fn parse_float<'a>(text: &'a str) -> (res: Result<&'a str, ParseError>)
    ensures
        yields(res, text@, entire(text@, float_literal(text@))),
{
    single(text, Kind::FloatLiteral)
}

/// Reads a text that is one bare symbol.
pub fn parse_symbol<'a>(text: &'a str) -> (res: Result<&'a str, ParseError>)
    ensures
        yields(res, text@, entire(text@, symbol_literal(text@))),
{
    single(text, Kind::Symbol)
}

/// Reads a text that is one backslash pair: the character it stands for.
pub fn parse_escape(text: &str) -> (res: Result<char, ParseError>)
    ensures
        match (res, escape_pair(text@)) {
            (Ok(c), Ok(d)) => c == d,
            (Err(error), Err(at)) => error.is_at(text@, at),
            _ => false,
        },
{
    let src = Source::new(text);
    let n = src.len();
    if !(n > 0 && src.at(0) == '\\') {
        return Err(ParseError::at(&src, 0));
    }
    if n < 2 {
        return Err(ParseError::at(&src, 1));
    }
    let code = src.at(1);
    if !(code == '\\' || code == '"' || code == 'n' || code == 't') {
        return Err(ParseError::at(&src, 1));
    }
    if n > 2 {
        return Err(ParseError::at(&src, 2));
    }
    if code == 'n' {
        Ok('\n')
    } else if code == 't' {
        Ok('\t')
    } else {
        Ok(code)
    }
}

} // verus!
