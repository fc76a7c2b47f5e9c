//! The grammar of the notation, as specification functions over the text
//! that is left to read.
//!
//! A text is a sequence of items. An item is the first literal form that
//! matches, or a parenthesised list of items, or, where neither can be
//! read, a parenthesised region taken whole. Every function also says how
//! far reading got where it fails.

use crate::class::CharClass;
use crate::literal::{
    behind, float_literal, hex_literal, int_literal, lemma_match_bounds, string_literal,
    symbol_literal, Kind, Match, Span,
};
use crate::recover::{enclosed, lemma_enclosed_bounds};
use crate::scan::{lemma_run_bounds, run};
use crate::sexp::Node;
use vstd::prelude::*;

verus! {

/// The larger of two positions.
pub open spec fn further(a: int, b: int) -> int {
    if a >= b {
        a
    } else {
        b
    }
}

/// The place at which a form that did not match got stuck.
pub open spec fn stuck(m: Match) -> int {
    match m {
        Ok(_) => 0,
        Err(at) => at,
    }
}

/// The first literal form that matches at the front of `r`, with its
/// span; where none does, the furthest place at which one got stuck.
#[verifier::opaque]
pub open spec fn literal(r: Seq<char>) -> Result<(Kind, Span), int> {
    if let Ok(span) = string_literal(r) {
        Ok((Kind::StringLiteral, span))
    } else if let Ok(span) = int_literal(r) {
        Ok((Kind::IntLiteral, span))
    } else if let Ok(span) = hex_literal(r) {
        Ok((Kind::HexIntLiteral, span))
    } else if let Ok(span) = float_literal(r) {
        Ok((Kind::FloatLiteral, span))
    } else if let Ok(span) = symbol_literal(r) {
        Ok((Kind::Symbol, span))
    } else {
        Err(
            further(
                further(
                    further(stuck(string_literal(r)), stuck(int_literal(r))),
                    further(stuck(hex_literal(r)), stuck(float_literal(r))),
                ),
                stuck(symbol_literal(r)),
            ),
        )
    }
}

/// A run of items.
pub struct Items {
    /// The items, in the order of the text.
    pub nodes: Seq<Node>,
    /// The number of characters that they take.
    pub len: int,
    /// How far reading got before it found no further item.
    pub stuck: int,
}

/// One item at the front of `r` and the number of characters it takes, or
/// the furthest place that reading reached.
///
/// A region that starts with `(` directly, is not a list of items and
/// does have its closing parenthesis is taken whole, as `Node::Invalid`.
#[verifier::opaque]
pub open spec fn item(r: Seq<char>) -> Result<(Node, int), int>
    decreases r.len(), 1int,
{
    match literal(r) {
        Ok((kind, span)) => Ok((Node::leaf(kind, r.subrange(span.start, span.end)), span.next)),
        Err(deep) => match list(r) {
            Ok((children, len)) => Ok((Node::List(children), len)),
            Err(deeper) => match enclosed(r) {
                Some(len) => Ok((Node::Invalid, len)),
                None => Err(further(deep, deeper)),
            },
        },
    }
}

/// A list at the front of `r`: padding, `(`, items, `)`, padding.
#[verifier::opaque]
pub open spec fn list(r: Seq<char>) -> Result<(Seq<Node>, int), int>
    decreases r.len(), 0int,
{
    let j = run(r, CharClass::Space) as int;
    if !(j < r.len() && r[j] == '(') {
        Err(j)
    } else {
        let body = items(r.skip(j + 1));
        let end = j + 1 + body.len;
        if 0 <= end < r.len() && r[end] == ')' {
            Ok((body.nodes, behind(r, end + 1)))
        } else {
            Err(j + 1 + body.stuck)
        }
    }
}

/// The items at the front of `r`, as many as can be read.
///
/// An item takes at least one character, so the middle arm is never
/// reached; it is there for the definition to be well founded.
#[verifier::opaque]
pub open spec fn items(r: Seq<char>) -> Items
    decreases r.len(), 2int,
{
    match item(r) {
        Ok((node, len)) if 0 < len <= r.len() => {
            let rest = items(r.skip(len));
            Items { nodes: seq![node] + rest.nodes, len: len + rest.len, stuck: len + rest.stuck }
        },
        Ok(_) => Items { nodes: Seq::empty(), len: 0, stuck: 0 },
        Err(at) => Items { nodes: Seq::empty(), len: 0, stuck: at },
    }
}

/// A whole text: its items if they cover it, else the furthest place that
/// reading reached.
pub open spec fn document(s: Seq<char>) -> Result<Seq<Node>, int> {
    let all = items(s);
    if all.len == s.len() {
        Ok(all.nodes)
    } else {
        Err(all.stuck)
    }
}


/// Where no literal form matches, the furthest place at which one got
/// stuck lies inside the text or at its end; a literal that matches takes
/// at least one character.
pub proof fn lemma_literal_bounds(r: Seq<char>)
    ensures
        match literal(r) {
            Ok((kind, span)) => kind.matched(r) == Ok::<Span, int>(span) && 0 <= span.start
                <= span.end <= span.next <= r.len() && 0 < span.next,
            Err(at) => 0 <= at <= r.len(),
        },
{
    reveal(literal);
    lemma_match_bounds(r, Kind::StringLiteral);
    lemma_match_bounds(r, Kind::IntLiteral);
    lemma_match_bounds(r, Kind::HexIntLiteral);
    lemma_match_bounds(r, Kind::FloatLiteral);
    lemma_match_bounds(r, Kind::Symbol);
}

/// An item takes at least one character and no more than there are; where
/// there is none, reading got stuck inside the text or at its end.
pub proof fn lemma_item_bounds(r: Seq<char>)
    ensures
        match item(r) {
            Ok((_, len)) => 0 < len <= r.len(),
            Err(at) => 0 <= at <= r.len(),
        },
    decreases r.len(), 1int,
{
    reveal_with_fuel(item, 1);
    reveal_with_fuel(list, 1);
    reveal_with_fuel(items, 1);
    lemma_literal_bounds(r);
    lemma_list_bounds(r);
    lemma_enclosed_bounds(r);
}

/// A list takes at least two characters and no more than there are; where
/// there is none, reading got stuck inside the text or at its end.
pub proof fn lemma_list_bounds(r: Seq<char>)
    ensures
        match list(r) {
            Ok((_, len)) => 1 < len <= r.len(),
            Err(at) => 0 <= at <= r.len(),
        },
    decreases r.len(), 0int,
{
    reveal_with_fuel(item, 1);
    reveal_with_fuel(list, 1);
    reveal_with_fuel(items, 1);
    lemma_run_bounds(r, CharClass::Space);
    let j = run(r, CharClass::Space) as int;
    if j < r.len() && r[j] == '(' {
        lemma_items_bounds(r.skip(j + 1));
        let end = j + 1 + items(r.skip(j + 1)).len;
        if end < r.len() {
            lemma_run_bounds(r.skip(end + 1), CharClass::Space);
        }
    }
}

/// A run of items ends inside the text or at its end, and reading got
/// stuck at that place or behind it.
pub proof fn lemma_items_bounds(r: Seq<char>)
    ensures
        0 <= items(r).len <= items(r).stuck <= r.len(),
        item(r.skip(items(r).len)) is Err,
    decreases r.len(), 2int,
{
    reveal_with_fuel(item, 1);
    reveal_with_fuel(list, 1);
    reveal_with_fuel(items, 1);
    lemma_item_bounds(r);
    match item(r) {
        Ok((node, len)) => {
            lemma_items_bounds(r.skip(len));
            assert(r.skip(len).skip(items(r.skip(len)).len) =~= r.skip(len + items(r.skip(len)).len));
        },
        Err(at) => {
            assert(r.skip(0) =~= r);
        },
    }
}

} // verus!
