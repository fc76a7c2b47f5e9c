//! The recognisers: each one reads one literal form at a position of the
//! source and answers as the form's specification says.

use crate::class::{is_escape_code, is_plain_char, CharClass};
use crate::literal::{
    finish, float_literal, hex_groups, hex_literal, hex_prefix, int_literal, sign, string_body,
    string_literal, symbol_literal, Kind, Match,
};
use crate::scan::{lemma_rest, scan};
use crate::source::Source;
use vstd::prelude::*;

verus! {

/// Where a literal lies in the source, in characters from its start.
#[derive(Clone, Copy, Debug, PartialEq, Eq)]
pub struct Token {
    /// The first character of the literal's text.
    pub start: usize,
    /// One past the last character of the literal's text.
    pub end: usize,
    /// Where reading goes on: behind the padding that follows the literal.
    pub next: usize,
}

/// Whether an answer given at position `base` is what `model` says of the
/// text from `base` on: the same span, or the same place of failure.
pub open spec fn agrees(res: Result<Token, usize>, base: int, model: Match) -> bool {
    match (res, model) {
        (Ok(token), Ok(span)) => {
            &&& token.start == base + span.start
            &&& token.end == base + span.end
            &&& token.next == base + span.next
        },
        (Err(at), Err(stuck)) => at == base + stuck,
        _ => false,
    }
}

/// Ends a literal whose text is `start..end`: tests for the separator and
/// goes behind the padding.
fn close(src: &Source, pos: usize, start: usize, end: usize) -> (res: Result<Token, usize>)
    requires
        pos <= start <= end <= src@.len(),
    ensures
        agrees(res, pos as int, finish(src@.skip(pos as int), start - pos, end - pos)),
{
    proof {
        lemma_rest(src@, pos as int, end - pos);
    }
    if end < src.len() && CharClass::Separator.contains(src.at(end)) {
        let next = scan(src, end, CharClass::Space);
        Ok(Token { start, end, next })
    } else {
        Err(end)
    }
}

/// The position behind an optional minus sign at `j`.
fn skip_sign(src: &Source, pos: usize, j: usize) -> (d: usize)
    requires
        pos <= j <= src@.len(),
    ensures
        d == j + sign(src@.skip(pos as int), j - pos),
        d <= src@.len(),
{
    proof {
        lemma_rest(src@, pos as int, j - pos);
    }
    if j < src.len() && src.at(j) == '-' {
        j + 1
    } else {
        j
    }
}

/// Reads a signed integer at `pos`.
pub fn int_at(src: &Source, pos: usize) -> (res: Result<Token, usize>)
    requires
        pos <= src@.len(),
    ensures
        agrees(res, pos as int, int_literal(src@.skip(pos as int))),
{
    let j = scan(src, pos, CharClass::Space);
    let d = skip_sign(src, pos, j);
    let k = scan(src, d, CharClass::Digit);
    proof {
        lemma_rest(src@, pos as int, d - pos);
    }
    if k == d {
        Err(d)
    } else {
        close(src, pos, j, k)
    }
}

/// Reads a signed float at `pos`.
pub fn float_at(src: &Source, pos: usize) -> (res: Result<Token, usize>)
    requires
        pos <= src@.len(),
    ensures
        agrees(res, pos as int, float_literal(src@.skip(pos as int))),
{
    let j = scan(src, pos, CharClass::Space);
    let d = skip_sign(src, pos, j);
    let dot = scan(src, d, CharClass::Digit);
    proof {
        lemma_rest(src@, pos as int, d - pos);
        lemma_rest(src@, pos as int, dot - pos);
    }
    if dot == d {
        return Err(d);
    }
    if !(dot < src.len() && src.at(dot) == '.') {
        return Err(dot);
    }
    let k = scan(src, dot + 1, CharClass::Digit);
    proof {
        lemma_rest(src@, pos as int, dot + 1 - pos);
    }
    if k == dot + 1 {
        Err(dot + 1)
    } else {
        close(src, pos, j, k)
    }
}

/// Reads a bare symbol at `pos`.
pub fn symbol_at(src: &Source, pos: usize) -> (res: Result<Token, usize>)
    requires
        pos <= src@.len(),
    ensures
        agrees(res, pos as int, symbol_literal(src@.skip(pos as int))),
{
    let j = scan(src, pos, CharClass::Space);
    let k = scan(src, j, CharClass::Symbol);
    proof {
        lemma_rest(src@, pos as int, j - pos);
    }
    if k == j {
        Err(j)
    } else {
        close(src, pos, j, k)
    }
}

/// Reads groups of eight hexadecimal digits from `p` on, `more` of them
/// after the first, with `_` between them.
fn groups_at(src: &Source, pos: usize, p: usize, more: usize) -> (res: Result<usize, usize>)
    requires
        pos <= p <= src@.len(),
    ensures
        match (res, hex_groups(src@.skip(pos as int), p - pos, more as nat)) {
            (Ok(end), Ok(e)) => end == pos + e && p <= end <= src@.len(),
            (Err(at), Err(e)) => at == pos + e,
            _ => false,
        },
    decreases more,
{
    let k = scan(src, p, CharClass::HexDigit);
    proof {
        lemma_rest(src@, pos as int, p - pos);
    }
    if k - p < 8 {
        return Err(k);
    }
    if more == 0 {
        return Ok(p + 8);
    }
    proof {
        lemma_rest(src@, pos as int, p + 8 - pos);
    }
    if !(p + 8 < src.len() && src.at(p + 8) == '_') {
        return Err(p + 8);
    }
    groups_at(src, pos, p + 9, more - 1)
}

/// Reads a hex blob at `pos`.
pub fn hex_at(src: &Source, pos: usize) -> (res: Result<Token, usize>)
    requires
        pos <= src@.len(),
    ensures
        agrees(res, pos as int, hex_literal(src@.skip(pos as int))),
{
    let n = src.len();
    let j = scan(src, pos, CharClass::Space);
    proof {
        lemma_rest(src@, pos as int, j - pos);
        if j + 1 < n {
            lemma_rest(src@, pos as int, j + 1 - pos);
        }
    }
    let p = if j < n && n - j > 1 && src.at(j) == '0' && src.at(j + 1) == 'x' {
        j + 2
    } else {
        j
    };
    assert(p == j + hex_prefix(src@.skip(pos as int), j - pos));
    match groups_at(src, pos, p, 3) {
        Ok(end) => close(src, pos, j, end),
        Err(at) => Err(at),
    }
}

/// Skipping one unit of a string's body leaves the rest of the body.
proof fn lemma_body_step(s: Seq<char>, i: int)
    requires
        0 <= i <= s.len(),
    ensures
        string_body(s.skip(i)) == if i == s.len() {
            0
        } else if is_plain_char(s[i]) {
            1 + string_body(s.skip(i + 1))
        } else if s[i] == '\\' && i + 1 < s.len() && is_escape_code(s[i + 1]) {
            2 + string_body(s.skip(i + 2))
        } else {
            0
        },
{
    if i < s.len() {
        lemma_rest(s, i, 0);
        lemma_rest(s, i, 1);
        if i + 1 < s.len() {
            lemma_rest(s, i, 2);
        }
    }
}

/// The position at which the body of a string that starts at `from` ends.
fn scan_body(src: &Source, from: usize) -> (to: usize)
    requires
        from <= src@.len(),
    ensures
        to == from + string_body(src@.skip(from as int)),
        to <= src@.len(),
{
    let n = src.len();
    let mut i: usize = from;
    loop
        invariant
            n == src@.len(),
            from <= i <= n,
            string_body(src@.skip(from as int)) == (i - from) + string_body(
                src@.skip(i as int),
            ),
        ensures
            from <= i <= n,
            i == from + string_body(src@.skip(from as int)),
        decreases n - i,
    {
        proof {
            lemma_body_step(src@, i as int);
        }
        if i >= n {
            break;
        }
        let c = src.at(i);
        if c != '\\' && c != '"' {
            i = i + 1;
        } else if c == '\\' && n - i > 1 && is_code(src.at(i + 1)) {
            i = i + 2;
        } else {
            break;
        }
    }
    i
}

/// Tests whether `c` may follow a backslash.
fn is_code(c: char) -> (b: bool)
    ensures
        b == is_escape_code(c),
{
    c == '\\' || c == '"' || c == 'n' || c == 't'
}

/// Reads a quoted string at `pos`. The token is the text between the
/// quotes.
pub fn string_at(src: &Source, pos: usize) -> (res: Result<Token, usize>)
    requires
        pos <= src@.len(),
    ensures
        agrees(res, pos as int, string_literal(src@.skip(pos as int))),
{
    let n = src.len();
    let j = scan(src, pos, CharClass::Space);
    proof {
        lemma_rest(src@, pos as int, j - pos);
    }
    if !(j < n && src.at(j) == '"') {
        return Err(j);
    }
    let q = scan_body(src, j + 1);
    proof {
        lemma_rest(src@, pos as int, j + 1 - pos);
        lemma_rest(src@, pos as int, q - pos);
    }
    if q >= n {
        return Err(q);
    }
    if src.at(q) != '"' {
        return Err(q + 1);
    }
    proof {
        lemma_rest(src@, pos as int, q + 1 - pos);
    }
    if q + 1 < n && CharClass::Separator.contains(src.at(q + 1)) {
        let next = scan(src, q + 1, CharClass::Space);
        Ok(Token { start: j + 1, end: q, next })
    } else {
        Err(q + 1)
    }
}


/// Reads one literal of the given form at `pos`.
pub fn match_at(src: &Source, pos: usize, kind: Kind) -> (res: Result<Token, usize>)
    requires
        pos <= src@.len(),
    ensures
        agrees(res, pos as int, kind.matched(src@.skip(pos as int))),
{
    match kind {
        Kind::StringLiteral => string_at(src, pos),
        Kind::IntLiteral => int_at(src, pos),
        Kind::HexIntLiteral => hex_at(src, pos),
        Kind::FloatLiteral => float_at(src, pos),
        Kind::Symbol => symbol_at(src, pos),
    }
}

} // verus!
