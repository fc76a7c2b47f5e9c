//! The five literal forms: what each one matches, as specification
//! functions over the text that is left to read.
//!
//! Every form may be preceded by padding, must be followed by a separator
//! that it does not take, and takes the padding behind it. A form that
//! does not match says how far it got.

use crate::class::{is_escape_code, is_plain_char, is_separator, CharClass};
use crate::scan::{lemma_run_bounds, run};
use vstd::prelude::*;

verus! {

/// Where a literal lies, counted from the front of the text that was left.
pub struct Span {
    /// The first character of the literal's text.
    pub start: int,
    /// One past the last character of the literal's text.
    pub end: int,
    /// Where reading goes on: behind the padding that follows the literal.
    pub next: int,
}

/// The outcome of one recogniser: the literal, or the place it got stuck.
pub type Match = Result<Span, int>;

/// Whether a separator stands at `k`.
pub open spec fn closes(r: Seq<char>, k: int) -> bool {
    0 <= k < r.len() && is_separator(r[k])
}

/// The position behind the padding that starts at `k`.
pub open spec fn behind(r: Seq<char>, k: int) -> int {
    k + run(r.skip(k), CharClass::Space)
}

/// A literal whose text is `start..end`, if a separator follows it.
pub open spec fn finish(r: Seq<char>, start: int, end: int) -> Match {
    if closes(r, end) {
        Ok(Span { start, end, next: behind(r, end) })
    } else {
        Err(end)
    }
}

/// 1 if a minus sign stands at `j`, else 0.
pub open spec fn sign(r: Seq<char>, j: int) -> int {
    if 0 <= j < r.len() && r[j] == '-' {
        1
    } else {
        0
    }
}

/// A signed integer: an optional `-` and one or more decimal digits.
pub open spec fn int_literal(r: Seq<char>) -> Match {
    let j = run(r, CharClass::Space) as int;
    let d = j + sign(r, j);
    let n = run(r.skip(d), CharClass::Digit);
    if n == 0 {
        Err(d)
    } else {
        finish(r, j, d + n)
    }
}

/// A signed float: an optional `-`, digits, a `.` and digits again.
pub open spec fn float_literal(r: Seq<char>) -> Match {
    let j = run(r, CharClass::Space) as int;
    let d = j + sign(r, j);
    let dot = d + run(r.skip(d), CharClass::Digit);
    if dot == d {
        Err(d)
    } else if !(dot < r.len() && r[dot] == '.') {
        Err(dot)
    } else {
        let end = dot + 1 + run(r.skip(dot + 1), CharClass::Digit);
        if end == dot + 1 {
            Err(end)
        } else {
            finish(r, j, end)
        }
    }
}

/// A bare symbol: one or more characters that are neither padding, a
/// quote nor a parenthesis.
pub open spec fn symbol_literal(r: Seq<char>) -> Match {
    let j = run(r, CharClass::Space) as int;
    let n = run(r.skip(j), CharClass::Symbol);
    if n == 0 {
        Err(j)
    } else {
        finish(r, j, j + n)
    }
}

/// 2 if `0x` stands at `j`, else 0.
pub open spec fn hex_prefix(r: Seq<char>, j: int) -> int {
    if 0 <= j && j + 1 < r.len() && r[j] == '0' && r[j + 1] == 'x' {
        2
    } else {
        0
    }
}

/// Groups of exactly eight hexadecimal digits from `p` on, each but the
/// last followed by `_`, with `more` groups after the first: the position
/// behind the last group, or the place where the pattern breaks.
pub open spec fn hex_groups(r: Seq<char>, p: int, more: nat) -> Result<int, int>
    decreases more,
{
    let n = run(r.skip(p), CharClass::HexDigit);
    if n < 8 {
        Err(p + n)
    } else if more == 0 {
        Ok(p + 8)
    } else if !(p + 8 < r.len() && r[p + 8] == '_') {
        Err(p + 8)
    } else {
        hex_groups(r, p + 9, (more - 1) as nat)
    }
}

/// A hex blob: an optional `0x` and four groups of eight hexadecimal
/// digits joined by `_`.
pub open spec fn hex_literal(r: Seq<char>) -> Match {
    let j = run(r, CharClass::Space) as int;
    match hex_groups(r, j + hex_prefix(r, j), 3) {
        Ok(end) => finish(r, j, end),
        Err(at) => Err(at),
    }
}

/// The length of the longest prefix of `r` that is made of plain
/// characters and of backslash pairs.
pub open spec fn string_body(r: Seq<char>) -> nat
    decreases r.len(),
{
    if r.len() == 0 {
        0
    } else if is_plain_char(r[0]) {
        1 + string_body(r.skip(1))
    } else if r[0] == '\\' && r.len() >= 2 && is_escape_code(r[1]) {
        2 + string_body(r.skip(2))
    } else {
        0
    }
}

/// A quoted string. Its text is what stands between the quotes, as
/// written: a backslash pair is kept as two characters.
pub open spec fn string_literal(r: Seq<char>) -> Match {
    let j = run(r, CharClass::Space) as int;
    if !(j < r.len() && r[j] == '"') {
        Err(j)
    } else {
        let q = j + 1 + string_body(r.skip(j + 1));
        if q >= r.len() {
            Err(q)
        } else if r[q] != '"' {
            Err(q + 1)
        } else if !closes(r, q + 1) {
            Err(q + 1)
        } else {
            Ok(Span { start: j + 1, end: q, next: behind(r, q + 1) })
        }
    }
}

/// The character that a backslash pair stands for.
pub open spec fn unescaped(code: char) -> char {
    if code == 'n' {
        '\n'
    } else if code == 't' {
        '\t'
    } else {
        code
    }
}

/// A text that is one backslash pair and nothing else: the character it
/// stands for, or the place where the text stops being one.
pub open spec fn escape_pair(r: Seq<char>) -> Result<char, int> {
    if !(r.len() > 0 && r[0] == '\\') {
        Err(0)
    } else if !(r.len() > 1 && is_escape_code(r[1])) {
        Err(1)
    } else if r.len() > 2 {
        Err(2)
    } else {
        Ok(unescaped(r[1]))
    }
}

/// The literal forms, in the order in which they are tried.
#[derive(Clone, Copy, Debug, PartialEq, Eq)]
pub enum Kind {
    StringLiteral,
    IntLiteral,
    HexIntLiteral,
    FloatLiteral,
    Symbol,
}

impl Kind {
    /// What the form matches at the front of `r`.
    pub open spec fn matched(self, r: Seq<char>) -> Match {
        match self {
            Kind::StringLiteral => string_literal(r),
            Kind::IntLiteral => int_literal(r),
            Kind::HexIntLiteral => hex_literal(r),
            Kind::FloatLiteral => float_literal(r),
            Kind::Symbol => symbol_literal(r),
        }
    }
}

/// A literal that covers the whole text: the span of `m` if nothing is
/// left behind it, else the place where something is.
pub open spec fn entire(r: Seq<char>, m: Match) -> Match {
    match m {
        Ok(span) => if span.next == r.len() {
            Ok(span)
        } else {
            Err(span.next)
        },
        Err(at) => Err(at),
    }
}


/// The body of a string stays inside the text.
pub proof fn lemma_body_bounds(r: Seq<char>)
    ensures
        string_body(r) <= r.len(),
    decreases r.len(),
{
    if r.len() == 0 {
    } else if is_plain_char(r[0]) {
        lemma_body_bounds(r.skip(1));
    } else if r[0] == '\\' && r.len() >= 2 && is_escape_code(r[1]) {
        lemma_body_bounds(r.skip(2));
    }
}

/// Groups of hexadecimal digits end, or break, inside the text.
pub proof fn lemma_groups_bounds(r: Seq<char>, p: int, more: nat)
    requires
        0 <= p <= r.len(),
    ensures
        match hex_groups(r, p, more) {
            Ok(end) => p + 8 <= end <= r.len(),
            Err(at) => p <= at <= r.len(),
        },
    decreases more,
{
    lemma_run_bounds(r.skip(p), CharClass::HexDigit);
    let n = run(r.skip(p), CharClass::HexDigit);
    if n >= 8 && more > 0 && p + 8 < r.len() && r[p + 8] == '_' {
        lemma_groups_bounds(r, p + 9, (more - 1) as nat);
    }
}

/// A literal lies inside the text, takes at least one character, and is
/// followed by a character; a form that does not match got stuck inside
/// the text or at its end.
pub proof fn lemma_match_bounds(r: Seq<char>, kind: Kind)
    ensures
        match kind.matched(r) {
            Ok(span) => 0 <= span.start <= span.end <= span.next <= r.len() && 0 < span.next
                && span.end < r.len(),
            Err(at) => 0 <= at <= r.len(),
        },
{
    lemma_run_bounds(r, CharClass::Space);
    let j = run(r, CharClass::Space) as int;
    match kind {
        Kind::StringLiteral => {
            if j < r.len() {
                lemma_body_bounds(r.skip(j + 1));
                let q = j + 1 + string_body(r.skip(j + 1));
                if q + 1 <= r.len() {
                    lemma_run_bounds(r.skip(q + 1), CharClass::Space);
                }
            }
        },
        Kind::IntLiteral => {
            let d = j + sign(r, j);
            lemma_run_bounds(r.skip(d), CharClass::Digit);
            let end = d + run(r.skip(d), CharClass::Digit);
            lemma_run_bounds(r.skip(end), CharClass::Space);
        },
        Kind::HexIntLiteral => {
            let p = j + hex_prefix(r, j);
            lemma_groups_bounds(r, p, 3);
            if let Ok(end) = hex_groups(r, p, 3) {
                lemma_run_bounds(r.skip(end), CharClass::Space);
            }
        },
        Kind::FloatLiteral => {
            let d = j + sign(r, j);
            lemma_run_bounds(r.skip(d), CharClass::Digit);
            let dot = d + run(r.skip(d), CharClass::Digit);
            if dot < r.len() {
                lemma_run_bounds(r.skip(dot + 1), CharClass::Digit);
                let end = dot + 1 + run(r.skip(dot + 1), CharClass::Digit);
                lemma_run_bounds(r.skip(end), CharClass::Space);
            }
        },
        Kind::Symbol => {
            lemma_run_bounds(r.skip(j), CharClass::Symbol);
            let end = j + run(r.skip(j), CharClass::Symbol);
            lemma_run_bounds(r.skip(end), CharClass::Space);
        },
    }
}

} // verus!
