//! Reading a text into its tree, by the grammar.

use crate::class::CharClass;
use crate::error::ParseError;
use crate::grammar::{
    document, further, item, items, lemma_item_bounds, lemma_items_bounds, lemma_literal_bounds,
    list, literal,
};
use crate::literal::Kind;
use crate::recognize::{float_at, hex_at, int_at, string_at, symbol_at, Token};
use crate::recover::skip_enclosed;
use crate::scan::{lemma_rest, scan};
use crate::sexp::{lemma_list_view, nodes_of, Node, Sexp};
use crate::source::Source;
use vstd::prelude::*;

verus! {

/// The items read from one position on.
pub struct Run<'a> {
    /// The items, in the order of the source.
    pub nodes: Vec<Sexp<'a>>,
    /// The position behind the last of them.
    pub end: usize,
    /// How far reading got before it found no further item.
    pub stuck: usize,
}

/// The later of two positions.
fn later(a: usize, b: usize) -> (c: usize)
    ensures
        c == further(a as int, b as int),
{
    if a >= b {
        a
    } else {
        b
    }
}

/// Reads the first literal form that matches at `pos`.
pub fn literal_at(src: &Source, pos: usize) -> (res: Result<(Kind, Token), usize>)
    requires
        pos <= src@.len(),
    ensures
        match (res, literal(src@.skip(pos as int))) {
            (Ok((kind, token)), Ok((form, span))) => {
                &&& kind == form
                &&& token.start == pos + span.start
                &&& token.end == pos + span.end
                &&& token.next == pos + span.next
            },
            (Err(at), Err(stuck)) => at == pos + stuck,
            _ => false,
        },
{
    proof {
        reveal(literal);
    }
    let a = match string_at(src, pos) {
        Ok(token) => {
            return Ok((Kind::StringLiteral, token));
        },
        Err(at) => at,
    };
    let b = match int_at(src, pos) {
        Ok(token) => {
            return Ok((Kind::IntLiteral, token));
        },
        Err(at) => at,
    };
    let c = match hex_at(src, pos) {
        Ok(token) => {
            return Ok((Kind::HexIntLiteral, token));
        },
        Err(at) => at,
    };
    let d = match float_at(src, pos) {
        Ok(token) => {
            return Ok((Kind::FloatLiteral, token));
        },
        Err(at) => at,
    };
    let e = match symbol_at(src, pos) {
        Ok(token) => {
            return Ok((Kind::Symbol, token));
        },
        Err(at) => at,
    };
    Err(later(later(later(a, b), later(c, d)), e))
}

/// Reads one item at `pos`: the item and the position behind it, or the
/// furthest position that reading reached.
#[verifier::rlimit(30)]
pub fn read_item<'a>(src: &Source<'a>, pos: usize) -> (res: Result<(Sexp<'a>, usize), usize>)
    requires
        pos <= src@.len(),
    ensures
        match (res, item(src@.skip(pos as int))) {
            (Ok((sexp, next)), Ok((node, len))) => sexp@ == node && next == pos + len,
            (Err(at), Err(stuck)) => at == pos + stuck,
            _ => false,
        },
    decreases src@.len() - pos, 1int,
{
    proof {
        reveal_with_fuel(item, 1);
        reveal_with_fuel(list, 1);
        reveal_with_fuel(items, 1);
        lemma_literal_bounds(src@.skip(pos as int));
        lemma_rest(src@, pos as int, 0);
    }
    match literal_at(src, pos) {
        Ok((kind, token)) => {
            let text = src.slice(token.start, token.end);
            assert(text@ =~= src@.skip(pos as int).subrange(token.start - pos, token.end - pos));
            Ok((Sexp::leaf(kind, text), token.next))
        },
        Err(deep) => match read_list(src, pos) {
            Ok((children, next)) => {
                proof {
                    lemma_list_view(children);
                }
                Ok((Sexp::List(children), next))
            },
            Err(deeper) => match skip_enclosed(src, pos) {
                Some(next) => Ok((Sexp::Invalid, next)),
                None => Err(later(deep, deeper)),
            },
        },
    }
}

/// Reads a list at `pos`: its children and the position behind it, or
/// the furthest position that reading reached.
#[verifier::rlimit(30)]
pub fn read_list<'a>(src: &Source<'a>, pos: usize) -> (res: Result<(Vec<Sexp<'a>>, usize), usize>)
    requires
        pos <= src@.len(),
    ensures
        match (res, list(src@.skip(pos as int))) {
            (Ok((children, next)), Ok((nodes, len))) => nodes_of(children@) == nodes && next == pos
                + len,
            (Err(at), Err(stuck)) => at == pos + stuck,
            _ => false,
        },
    decreases src@.len() - pos, 0int,
{
    proof {
        reveal_with_fuel(item, 1);
        reveal_with_fuel(list, 1);
        reveal_with_fuel(items, 1);
    }
    let n = src.len();
    let j = scan(src, pos, CharClass::Space);
    proof {
        lemma_rest(src@, pos as int, j - pos);
    }
    if !(j < n && src.at(j) == '(') {
        return Err(j);
    }
    let body = read_items(src, j + 1);
    proof {
        lemma_rest(src@, pos as int, j + 1 - pos);
        lemma_items_bounds(src@.skip(j + 1));
        lemma_rest(src@, pos as int, body.end - pos);
    }
    if body.end < n && src.at(body.end) == ')' {
        proof {
            lemma_rest(src@, pos as int, body.end + 1 - pos);
        }
        let next = scan(src, body.end + 1, CharClass::Space);
        Ok((body.nodes, next))
    } else {
        Err(body.stuck)
    }
}

/// Reads items from `pos` on, as many as there are.
#[verifier::rlimit(30)]
pub fn read_items<'a>(src: &Source<'a>, pos: usize) -> (run: Run<'a>)
    requires
        pos <= src@.len(),
    ensures
        nodes_of(run.nodes@) == items(src@.skip(pos as int)).nodes,
        run.end == pos + items(src@.skip(pos as int)).len,
        run.stuck == pos + items(src@.skip(pos as int)).stuck,
    decreases src@.len() - pos, 2int,
{
    let ghost all = items(src@.skip(pos as int));
    let mut nodes: Vec<Sexp<'a>> = Vec::new();
    let mut cur: usize = pos;
    loop
        invariant
            pos <= cur <= src@.len(),
            all == items(src@.skip(pos as int)),
            all.nodes == nodes_of(nodes@) + items(src@.skip(cur as int)).nodes,
            all.len == cur - pos + items(src@.skip(cur as int)).len,
            all.stuck == cur - pos + items(src@.skip(cur as int)).stuck,
        decreases src@.len() - cur,
    {
        proof {
            reveal_with_fuel(item, 1);
            reveal_with_fuel(list, 1);
            reveal_with_fuel(items, 1);
            lemma_item_bounds(src@.skip(cur as int));
        }
        match read_item(src, cur) {
            Ok((node, next)) => {
                proof {
                    lemma_rest(src@, cur as int, next - cur);
                    assert(nodes_of(nodes@.push(node)) =~= nodes_of(nodes@) + seq![node@]);
                    assert((nodes_of(nodes@) + seq![node@]) + items(src@.skip(next as int)).nodes
                        =~= nodes_of(nodes@) + (seq![node@] + items(src@.skip(next as int)).nodes));
                }
                nodes.push(node);
                cur = next;
            },
            Err(at) => {
                assert(nodes_of(nodes@) + Seq::<Node>::empty() =~= nodes_of(nodes@));
                return Run { nodes, end: cur, stuck: at };
            },
        }
    }
}

/// Reads a whole text into its items.
///
/// A parenthesised region that is not a list of items, but starts with
/// its `(` and has its `)`, becomes [`Sexp::Invalid`] and reading goes on
/// behind it. A text that its items do not cover is not read at all: the
/// error reports the furthest place that reading reached.
pub fn parser<'a>(text: &'a str) -> (res: Result<Vec<Sexp<'a>>, Vec<ParseError>>)
    ensures
        match (res, document(text@)) {
            (Ok(sexps), Ok(nodes)) => nodes_of(sexps@) == nodes,
            (Err(errors), Err(at)) => errors@.len() == 1 && errors@[0].is_at(text@, at),
            _ => false,
        },
{
    let src = Source::new(text);
    proof {
        assert(src@.skip(0) =~= src@);
        lemma_items_bounds(src@);
    }
    let run = read_items(&src, 0);
    if run.end == src.len() {
        Ok(run.nodes)
    } else {
        let mut errors: Vec<ParseError> = Vec::new();
        errors.push(ParseError::at(&src, run.stuck));
        Err(errors)
    }
}

} // verus!
