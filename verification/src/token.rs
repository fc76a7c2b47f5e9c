//! What the text of each literal form looks like, and the laws that tie
//! the recognisers to it: a text of the right shape with a separator
//! behind it is matched as it stands, nothing else is matched, and a text
//! is read as the first form whose shape it has.

use crate::class::{
    is_digit, is_escape_code, is_hex_digit, is_plain_char, is_separator, is_symbol_char, CharClass,
};
use crate::grammar::literal;
use crate::literal::{
    behind, closes, hex_groups, hex_prefix, lemma_body_bounds, lemma_groups_bounds,
    lemma_match_bounds, sign, string_body, Kind, Span,
};
use crate::scan::{lemma_run_at_least, lemma_run_bounds, lemma_run_is, run};
use vstd::prelude::*;

verus! {

/// An optional `-` and at least one decimal digit.
pub open spec fn is_int_text(t: Seq<char>) -> bool {
    &&& sign(t, 0) < t.len()
    &&& forall|i: int| sign(t, 0) <= i < t.len() ==> is_digit(#[trigger] t[i])
}

/// An optional `-`, then decimal digits around the one `.` at `dot`, at
/// least one on each side.
pub open spec fn is_float_text_with(t: Seq<char>, dot: int) -> bool {
    &&& sign(t, 0) < dot < t.len() - 1
    &&& t[dot] == '.'
    &&& forall|i: int| sign(t, 0) <= i < t.len() && i != dot ==> is_digit(#[trigger] t[i])
}

/// An optional `-`, decimal digits, a `.` and decimal digits.
pub open spec fn is_float_text(t: Seq<char>) -> bool {
    exists|dot: int| is_float_text_with(t, dot)
}

/// Exactly eight hexadecimal digits, then `more` times a `_` and eight
/// hexadecimal digits again.
pub open spec fn is_group_text(t: Seq<char>, more: nat) -> bool
    decreases more,
{
    &&& t.len() >= 8
    &&& forall|k: int| 0 <= k < 8 ==> is_hex_digit(#[trigger] t[k])
    &&& if more == 0 {
        t.len() == 8
    } else {
        t.len() > 8 && t[8] == '_' && is_group_text(t.skip(9), (more - 1) as nat)
    }
}

/// An optional `0x` and four groups of exactly eight hexadecimal digits
/// joined by `_`.
pub open spec fn is_hex_text(t: Seq<char>) -> bool {
    is_group_text(t.skip(hex_prefix(t, 0)), 3)
}

/// At least one character, none of them padding, a quote or a
/// parenthesis.
pub open spec fn is_symbol_text(t: Seq<char>) -> bool {
    &&& t.len() > 0
    &&& forall|i: int| 0 <= i < t.len() ==> is_symbol_char(#[trigger] t[i])
}

/// Plain characters and backslash pairs, and nothing else: what may stand
/// between the quotes of a string.
pub open spec fn is_string_text(t: Seq<char>) -> bool {
    string_body(t) == t.len()
}

impl Kind {
    /// Whether `t` has the shape of the form's text.
    pub open spec fn admits(self, t: Seq<char>) -> bool {
        match self {
            Kind::StringLiteral => is_string_text(t),
            Kind::IntLiteral => is_int_text(t),
            Kind::HexIntLiteral => is_hex_text(t),
            Kind::FloatLiteral => is_float_text(t),
            Kind::Symbol => is_symbol_text(t),
        }
    }

    /// The number of characters that the form writes on each side of its
    /// text: the quotes of a string.
    pub open spec fn fence(self) -> int {
        match self {
            Kind::StringLiteral => 1,
            _ => 0,
        }
    }

    /// The text `t` as the form writes it.
    pub open spec fn written(self, t: Seq<char>) -> Seq<char> {
        match self {
            Kind::StringLiteral => seq!['"'] + t + seq!['"'],
            _ => t,
        }
    }
}

/// An integer text with a separator behind it is matched as it stands.
proof fn lemma_int_accepts(t: Seq<char>, rest: Seq<char>)
    requires
        is_int_text(t),
        rest.len() > 0,
        is_separator(rest[0]),
    ensures
        Kind::IntLiteral.matched(t + rest) == Ok::<Span, int>(
            Span { start: 0, end: t.len() as int, next: t.len() as int + run(rest, CharClass::Space) },
        ),
{
    let r = t + rest;
    let s = sign(t, 0);
    assert(r[0] == t[0]);
    assert(is_digit(t[s]));
    lemma_run_is(r, CharClass::Space, 0);
    assert(sign(r, 0) == s);
    let digits = r.skip(s);
    assert forall|k: int| 0 <= k < t.len() - s implies CharClass::Digit.has(
        #[trigger] digits[k],
    ) by {
        assert(digits[k] == t[s + k]);
    }
    assert(digits[t.len() - s] == rest[0]);
    lemma_run_is(digits, CharClass::Digit, (t.len() - s) as nat);
    assert(r[t.len() as int] == rest[0]);
    assert(r.skip(t.len() as int) =~= rest);
}

/// What is matched as an integer is an integer text.
proof fn lemma_int_shape(r: Seq<char>)
    requires
        Kind::IntLiteral.matched(r) is Ok,
    ensures
        is_int_text(
            r.subrange(
                Kind::IntLiteral.matched(r)->Ok_0.start,
                Kind::IntLiteral.matched(r)->Ok_0.end,
            ),
        ),
{
    let span = Kind::IntLiteral.matched(r)->Ok_0;
    lemma_run_bounds(r, CharClass::Space);
    let j = run(r, CharClass::Space) as int;
    let d = j + sign(r, j);
    lemma_run_bounds(r.skip(d), CharClass::Digit);
    let t = r.subrange(span.start, span.end);
    assert(sign(t, 0) == sign(r, j)) by {
        assert(t[0] == r[j]);
    }
    assert forall|i: int| sign(t, 0) <= i < t.len() implies is_digit(#[trigger] t[i]) by {
        assert(t[i] == r.skip(d)[i - sign(t, 0)]);
    }
}

/// A float text with a separator behind it is matched as it stands.
proof fn lemma_float_accepts(t: Seq<char>, rest: Seq<char>)
    requires
        is_float_text(t),
        rest.len() > 0,
        is_separator(rest[0]),
    ensures
        Kind::FloatLiteral.matched(t + rest) == Ok::<Span, int>(
            Span { start: 0, end: t.len() as int, next: t.len() as int + run(rest, CharClass::Space) },
        ),
{
    let dot = choose|dot: int| is_float_text_with(t, dot);
    let r = t + rest;
    let s = sign(t, 0);
    assert(r[0] == t[0]);
    assert(is_digit(t[s]));
    lemma_run_is(r, CharClass::Space, 0);
    assert(sign(r, 0) == s);
    let whole = r.skip(s);
    assert forall|k: int| 0 <= k < dot - s implies CharClass::Digit.has(#[trigger] whole[k]) by {
        assert(whole[k] == t[s + k]);
    }
    assert(whole[dot - s] == t[dot]);
    lemma_run_is(whole, CharClass::Digit, (dot - s) as nat);
    assert(r[dot] == t[dot]);
    let fraction = r.skip(dot + 1);
    assert forall|k: int| 0 <= k < t.len() - dot - 1 implies CharClass::Digit.has(
        #[trigger] fraction[k],
    ) by {
        assert(fraction[k] == t[dot + 1 + k]);
    }
    assert(fraction[t.len() - dot - 1] == rest[0]);
    lemma_run_is(fraction, CharClass::Digit, (t.len() - dot - 1) as nat);
    assert(r[t.len() as int] == rest[0]);
    assert(r.skip(t.len() as int) =~= rest);
}

/// What is matched as a float is a float text.
proof fn lemma_float_shape(r: Seq<char>)
    requires
        Kind::FloatLiteral.matched(r) is Ok,
    ensures
        is_float_text(
            r.subrange(
                Kind::FloatLiteral.matched(r)->Ok_0.start,
                Kind::FloatLiteral.matched(r)->Ok_0.end,
            ),
        ),
{
    let span = Kind::FloatLiteral.matched(r)->Ok_0;
    lemma_run_bounds(r, CharClass::Space);
    let j = run(r, CharClass::Space) as int;
    let d = j + sign(r, j);
    lemma_run_bounds(r.skip(d), CharClass::Digit);
    let dot = d + run(r.skip(d), CharClass::Digit);
    lemma_run_bounds(r.skip(dot + 1), CharClass::Digit);
    let t = r.subrange(span.start, span.end);
    assert(sign(t, 0) == sign(r, j)) by {
        assert(t[0] == r[j]);
    }
    assert(t[dot - j] == r[dot]);
    assert forall|i: int| sign(t, 0) <= i < t.len() && i != dot - j implies is_digit(
        #[trigger] t[i],
    ) by {
        if i < dot - j {
            assert(t[i] == r.skip(d)[i - sign(t, 0)]);
        } else {
            assert(t[i] == r.skip(dot + 1)[i - (dot - j) - 1]);
        }
    }
    assert(is_float_text_with(t, dot - j));
}

/// A symbol text with a separator behind it is matched as it stands.
proof fn lemma_symbol_accepts(t: Seq<char>, rest: Seq<char>)
    requires
        is_symbol_text(t),
        rest.len() > 0,
        is_separator(rest[0]),
    ensures
        Kind::Symbol.matched(t + rest) == Ok::<Span, int>(
            Span { start: 0, end: t.len() as int, next: t.len() as int + run(rest, CharClass::Space) },
        ),
{
    let r = t + rest;
    assert(r[0] == t[0]);
    lemma_run_is(r, CharClass::Space, 0);
    assert(r.skip(0) =~= r);
    assert forall|k: int| 0 <= k < t.len() implies CharClass::Symbol.has(#[trigger] r[k]) by {
        assert(r[k] == t[k]);
    }
    assert(r[t.len() as int] == rest[0]);
    lemma_run_is(r, CharClass::Symbol, t.len());
    assert(r.skip(t.len() as int) =~= rest);
}

/// What is matched as a symbol is a symbol text.
proof fn lemma_symbol_shape(r: Seq<char>)
    requires
        Kind::Symbol.matched(r) is Ok,
    ensures
        is_symbol_text(
            r.subrange(Kind::Symbol.matched(r)->Ok_0.start, Kind::Symbol.matched(r)->Ok_0.end),
        ),
{
    let span = Kind::Symbol.matched(r)->Ok_0;
    lemma_run_bounds(r, CharClass::Space);
    let j = run(r, CharClass::Space) as int;
    lemma_run_bounds(r.skip(j), CharClass::Symbol);
    let t = r.subrange(span.start, span.end);
    assert forall|i: int| 0 <= i < t.len() implies is_symbol_char(#[trigger] t[i]) by {
        assert(t[i] == r.skip(j)[i]);
    }
}

/// Groups that stand at `p` in `r`, with no hexadecimal digit behind the
/// last, are read to their end.
proof fn lemma_groups_accept(r: Seq<char>, p: int, more: nat, t: Seq<char>)
    requires
        0 <= p,
        p + t.len() < r.len(),
        is_group_text(t, more),
        r.subrange(p, p + t.len()) == t,
        !is_hex_digit(r[p + t.len()]),
    ensures
        hex_groups(r, p, more) == Ok::<int, int>(p + t.len()),
    decreases more,
{
    let tail = r.skip(p);
    assert forall|k: int| 0 <= k < 8 implies CharClass::HexDigit.has(#[trigger] tail[k]) by {
        assert(tail[k] == r.subrange(p, p + t.len())[k]);
    }
    lemma_run_at_least(tail, CharClass::HexDigit, 8);
    if more > 0 {
        assert(r[p + 8] == r.subrange(p, p + t.len())[8]);
        assert(r.subrange(p + 9, p + 9 + t.skip(9).len()) =~= t.skip(9));
        lemma_groups_accept(r, p + 9, (more - 1) as nat, t.skip(9));
    }
}

/// A hex text with a separator behind it is matched as it stands.
proof fn lemma_hex_accepts(t: Seq<char>, rest: Seq<char>)
    requires
        is_hex_text(t),
        rest.len() > 0,
        is_separator(rest[0]),
    ensures
        Kind::HexIntLiteral.matched(t + rest) == Ok::<Span, int>(
            Span { start: 0, end: t.len() as int, next: t.len() as int + run(rest, CharClass::Space) },
        ),
{
    let r = t + rest;
    let p = hex_prefix(t, 0);
    let groups = t.skip(p);
    assert(groups[0] == t[p]);
    assert(r[0] == t[0]);
    assert(is_hex_digit(groups[0]));
    lemma_run_is(r, CharClass::Space, 0);
    assert(hex_prefix(r, 0) == p) by {
        if t.len() > 1 {
            assert(r[1] == t[1]);
        }
    }
    assert(r.subrange(p, p + groups.len()) =~= groups);
    assert(r[t.len() as int] == rest[0]);
    lemma_groups_accept(r, p, 3, groups);
    assert(r.skip(t.len() as int) =~= rest);
}

/// Groups that were read have the shape of groups.
proof fn lemma_groups_shape(r: Seq<char>, p: int, more: nat)
    requires
        0 <= p <= r.len(),
        hex_groups(r, p, more) is Ok,
    ensures
        is_group_text(r.subrange(p, hex_groups(r, p, more)->Ok_0), more),
    decreases more,
{
    lemma_groups_bounds(r, p, more);
    lemma_run_bounds(r.skip(p), CharClass::HexDigit);
    let end = hex_groups(r, p, more)->Ok_0;
    let t = r.subrange(p, end);
    assert forall|k: int| 0 <= k < 8 implies is_hex_digit(#[trigger] t[k]) by {
        assert(t[k] == r.skip(p)[k]);
    }
    if more > 0 {
        lemma_groups_bounds(r, p + 9, (more - 1) as nat);
        lemma_groups_shape(r, p + 9, (more - 1) as nat);
        assert(t.skip(9) =~= r.subrange(p + 9, end));
        assert(t[8] == r[p + 8]);
    }
}

/// What is matched as a hex blob is a hex text.
proof fn lemma_hex_shape(r: Seq<char>)
    requires
        Kind::HexIntLiteral.matched(r) is Ok,
    ensures
        is_hex_text(
            r.subrange(
                Kind::HexIntLiteral.matched(r)->Ok_0.start,
                Kind::HexIntLiteral.matched(r)->Ok_0.end,
            ),
        ),
{
    let span = Kind::HexIntLiteral.matched(r)->Ok_0;
    lemma_run_bounds(r, CharClass::Space);
    let j = run(r, CharClass::Space) as int;
    let p = j + hex_prefix(r, j);
    lemma_groups_bounds(r, p, 3);
    lemma_groups_shape(r, p, 3);
    let t = r.subrange(span.start, span.end);
    assert(hex_prefix(t, 0) == hex_prefix(r, j)) by {
        assert(t[0] == r[j]);
        assert(t[1] == r[j + 1]);
    }
    assert(t.skip(hex_prefix(t, 0)) =~= r.subrange(p, span.end));
}

/// The body of a string that is followed by a quote ends at that quote.
proof fn lemma_body_accepts(t: Seq<char>, rest: Seq<char>)
    requires
        is_string_text(t),
        rest.len() > 0,
        rest[0] == '"',
    ensures
        string_body(t + rest) == t.len(),
    decreases t.len(),
{
    let r = t + rest;
    if t.len() == 0 {
        assert(r[0] == rest[0]);
    } else {
        assert(r[0] == t[0]);
        lemma_body_bounds(t.skip(1));
        if is_plain_char(t[0]) {
            assert(r.skip(1) =~= t.skip(1) + rest);
            lemma_body_accepts(t.skip(1), rest);
        } else {
            lemma_body_bounds(t.skip(2));
            assert(r[1] == t[1]);
            assert(r.skip(2) =~= t.skip(2) + rest);
            lemma_body_accepts(t.skip(2), rest);
        }
    }
}

/// The body of a string is made of plain characters and backslash pairs.
proof fn lemma_body_shape(r: Seq<char>)
    ensures
        is_string_text(r.take(string_body(r) as int)),
    decreases r.len(),
{
    lemma_body_bounds(r);
    let n = string_body(r) as int;
    let t = r.take(n);
    if r.len() == 0 {
    } else if is_plain_char(r[0]) {
        lemma_body_shape(r.skip(1));
        lemma_body_bounds(r.skip(1));
        assert(t[0] == r[0]);
        assert(t.skip(1) =~= r.skip(1).take(n - 1));
    } else if r[0] == '\\' && r.len() >= 2 && is_escape_code(r[1]) {
        lemma_body_shape(r.skip(2));
        lemma_body_bounds(r.skip(2));
        assert(t[0] == r[0]);
        assert(t[1] == r[1]);
        assert(t.skip(2) =~= r.skip(2).take(n - 2));
    }
}

/// A string text in quotes with a separator behind it is matched as it
/// stands.
proof fn lemma_string_accepts(t: Seq<char>, rest: Seq<char>)
    requires
        is_string_text(t),
        rest.len() > 0,
        is_separator(rest[0]),
    ensures
        Kind::StringLiteral.matched(seq!['"'] + t + seq!['"'] + rest) == Ok::<Span, int>(
            Span { start: 1, end: 1int + t.len(), next: 2int + t.len() + run(rest, CharClass::Space) },
        ),
{
    let r = seq!['"'] + t + seq!['"'] + rest;
    assert(r[0] == '"');
    lemma_run_is(r, CharClass::Space, 0);
    assert(r.skip(1) =~= t + (seq!['"'] + rest));
    lemma_body_accepts(t, seq!['"'] + rest);
    let n = t.len() as int;
    assert(r[1 + n] == '"');
    assert(r[2 + n] == rest[0]);
    assert(r.skip(2 + n) =~= rest);
}

/// What is matched between the quotes of a string is a string text.
proof fn lemma_string_shape(r: Seq<char>)
    requires
        Kind::StringLiteral.matched(r) is Ok,
    ensures
        is_string_text(
            r.subrange(
                Kind::StringLiteral.matched(r)->Ok_0.start,
                Kind::StringLiteral.matched(r)->Ok_0.end,
            ),
        ),
{
    let span = Kind::StringLiteral.matched(r)->Ok_0;
    lemma_run_bounds(r, CharClass::Space);
    let j = run(r, CharClass::Space) as int;
    lemma_body_bounds(r.skip(j + 1));
    lemma_body_shape(r.skip(j + 1));
    assert(r.subrange(span.start, span.end) =~= r.skip(j + 1).take(
        string_body(r.skip(j + 1)) as int,
    ));
}

/// A text of the form's shape, written as the form writes it and followed
/// by a separator, is matched as it stands: the literal is that text, the
/// separator is not part of it, and reading goes on behind the padding
/// that follows.
pub proof fn lemma_accepts(kind: Kind, t: Seq<char>, rest: Seq<char>)
    requires
        kind.admits(t),
        rest.len() > 0,
        is_separator(rest[0]),
    ensures
        kind.matched(kind.written(t) + rest) == Ok::<Span, int>(
            Span {
                start: kind.fence(),
                end: kind.fence() + t.len(),
                next: 2 * kind.fence() + t.len() + run(rest, CharClass::Space),
            },
        ),
{
    match kind {
        Kind::StringLiteral => lemma_string_accepts(t, rest),
        Kind::IntLiteral => lemma_int_accepts(t, rest),
        Kind::HexIntLiteral => lemma_hex_accepts(t, rest),
        Kind::FloatLiteral => lemma_float_accepts(t, rest),
        Kind::Symbol => lemma_symbol_accepts(t, rest),
    }
}

/// Whatever a form matches has the form's shape, stands behind padding
/// alone, is followed by a separator that is not part of it, and leaves
/// reading behind the padding that follows: a text of another shape is
/// not matched.
pub proof fn lemma_matches_only(kind: Kind, r: Seq<char>)
    requires
        kind.matched(r) is Ok,
    ensures
        ({
            let span = kind.matched(r)->Ok_0;
            &&& kind.admits(r.subrange(span.start, span.end))
            &&& span.start == run(r, CharClass::Space) + kind.fence()
            &&& closes(r, span.end + kind.fence())
            &&& span.next == behind(r, span.end + kind.fence())
        }),
{
    match kind {
        Kind::StringLiteral => lemma_string_shape(r),
        Kind::IntLiteral => lemma_int_shape(r),
        Kind::HexIntLiteral => lemma_hex_shape(r),
        Kind::FloatLiteral => lemma_float_shape(r),
        Kind::Symbol => lemma_symbol_shape(r),
    }
}

/// Groups of hexadecimal digits hold no separator.
proof fn lemma_groups_are_solid(t: Seq<char>, more: nat)
    requires
        is_group_text(t, more),
    ensures
        forall|i: int| 0 <= i < t.len() ==> !is_separator(#[trigger] t[i]),
    decreases more,
{
    if more > 0 {
        lemma_groups_are_solid(t.skip(9), (more - 1) as nat);
        assert forall|i: int| 9 <= i < t.len() implies !is_separator(#[trigger] t[i]) by {
            assert(t[i] == t.skip(9)[i - 9]);
        }
    }
}

/// The text of a form other than the string holds no separator.
proof fn lemma_text_is_solid(kind: Kind, t: Seq<char>)
    requires
        kind != Kind::StringLiteral,
        kind.admits(t),
    ensures
        forall|i: int| 0 <= i < t.len() ==> !is_separator(#[trigger] t[i]),
{
    match kind {
        Kind::HexIntLiteral => {
            let p = hex_prefix(t, 0);
            lemma_groups_are_solid(t.skip(p), 3);
            assert forall|i: int| 0 <= i < t.len() implies !is_separator(#[trigger] t[i]) by {
                if i >= p {
                    assert(t[i] == t.skip(p)[i - p]);
                }
            }
        },
        Kind::FloatLiteral => {
            let dot = choose|dot: int| is_float_text_with(t, dot);
            assert forall|i: int| 0 <= i < t.len() implies !is_separator(#[trigger] t[i]) by {
                if i >= sign(t, 0) && i != dot {
                    assert(is_digit(t[i]));
                }
            }
        },
        _ => {},
    }
}

/// A text without separators that has not the shape of a form other than
/// the string is not matched by that form, whatever separator follows: a
/// digit too few or too many, or a missing joint, and the form gets stuck.
pub proof fn lemma_rejects(kind: Kind, t: Seq<char>, rest: Seq<char>)
    requires
        kind != Kind::StringLiteral,
        !kind.admits(t),
        t.len() > 0,
        forall|i: int| 0 <= i < t.len() ==> !is_separator(#[trigger] t[i]),
        rest.len() > 0,
        is_separator(rest[0]),
    ensures
        kind.matched(t + rest) is Err,
{
    let r = t + rest;
    if kind.matched(r) is Ok {
        let span = kind.matched(r)->Ok_0;
        lemma_matches_only(kind, r);
        lemma_match_bounds(r, kind);
        assert(r[0] == t[0]);
        assert(!is_separator(t[0]));
        assert(run(r, CharClass::Space) == 0);
        let token = r.subrange(0, span.end);
        lemma_text_is_solid(kind, token);
        let n = t.len() as int;
        if span.end > n {
            assert(token[n] == rest[0]);
        }
        if span.end < n {
            assert(r[span.end] == t[span.end]);
        }
        assert(token =~= t);
    }
}

/// The float form does not match the text of an integer: without the `.`
/// and the digits behind it there is no float.
pub proof fn lemma_float_rejects_integers(t: Seq<char>, rest: Seq<char>)
    requires
        is_int_text(t),
        rest.len() > 0,
        is_separator(rest[0]),
    ensures
        Kind::FloatLiteral.matched(t + rest) is Err,
{
    assert forall|dot: int| !is_float_text_with(t, dot) by {
        if sign(t, 0) < dot < t.len() - 1 {
            assert(is_digit(t[dot]));
        }
    }
    lemma_text_is_solid(Kind::IntLiteral, t);
    lemma_rejects(Kind::FloatLiteral, t, rest);
}

impl Kind {
    /// Whether `t` has the shape of this form and of none that is tried
    /// before it. (A string is told by its quotes, which are no part of
    /// `t`.)
    pub open spec fn claims(self, t: Seq<char>) -> bool {
        &&& self.admits(t)
        &&& match self {
            Kind::StringLiteral | Kind::IntLiteral => true,
            Kind::HexIntLiteral => !is_int_text(t),
            Kind::FloatLiteral => !is_int_text(t) && !is_hex_text(t),
            Kind::Symbol => !is_int_text(t) && !is_hex_text(t) && !is_float_text(t),
        }
    }
}

/// A text is read as the first form whose shape it has: written as that
/// form writes it and followed by a separator, it is that form's literal,
/// and a symbol only where it is no number.
pub proof fn lemma_first_form(kind: Kind, t: Seq<char>, rest: Seq<char>)
    requires
        kind.claims(t),
        rest.len() > 0,
        is_separator(rest[0]),
    ensures
        literal(kind.written(t) + rest) == Ok::<(Kind, Span), int>(
            (
                kind,
                Span {
                    start: kind.fence(),
                    end: kind.fence() + t.len(),
                    next: 2 * kind.fence() + t.len() + run(rest, CharClass::Space),
                },
            ),
        ),
{
    reveal(literal);
    lemma_accepts(kind, t, rest);
    if kind != Kind::StringLiteral {
        let r = t + rest;
        lemma_text_is_solid(kind, t);
        assert(t.len() > 0 && t[0] != '"') by {
            if kind == Kind::HexIntLiteral {
                let p = hex_prefix(t, 0);
                assert(t.skip(p)[0] == t[p]);
                assert(is_hex_digit(t.skip(p)[0]));
            } else if kind == Kind::FloatLiteral {
                let dot = choose|dot: int| is_float_text_with(t, dot);
                assert(is_digit(t[sign(t, 0)]));
            } else if kind == Kind::IntLiteral {
                assert(is_digit(t[sign(t, 0)]));
            } else {
                assert(is_symbol_char(t[0]));
            }
        }
        assert(r[0] == t[0]);
        assert(run(r, CharClass::Space) == 0);
        assert(Kind::StringLiteral.matched(r) is Err);
        if kind != Kind::IntLiteral {
            lemma_rejects(Kind::IntLiteral, t, rest);
            if kind != Kind::HexIntLiteral {
                lemma_rejects(Kind::HexIntLiteral, t, rest);
                if kind != Kind::FloatLiteral {
                    lemma_rejects(Kind::FloatLiteral, t, rest);
                }
            }
        }
    }
}

} // verus!
