//! A flat trace of a tree, for reading by eye.

use crate::sexp::{lemma_list_view, nodes_of, Node, Sexp};
use vstd::prelude::*;

verus! {

/// The mark in front of a symbol.
pub open spec fn symbol_mark() -> Seq<char> {
    seq!['\u{286}']
}

/// The mark in front of a number of any form.
pub open spec fn number_mark() -> Seq<char> {
    seq!['\u{14b}']
}

/// The trace of one node: a literal as its mark and its text, a list as
/// the trace of its children in parentheses, each with a blank behind.
pub open spec fn trace_node(node: Node) -> Seq<char>
    decreases node, 0int,
{
    match node {
        Node::Invalid => seq!['I', 'n', 'v', ' '],
        Node::Symbol(text) => symbol_mark() + text + seq![' '],
        Node::StringLiteral(text) => seq!['"'] + text + seq!['"', ' '],
        Node::IntLiteral(text) => number_mark() + text + seq![' '],
        Node::HexIntLiteral(text) => number_mark() + text + seq![' '],
        Node::FloatLiteral(text) => number_mark() + text + seq![' '],
        Node::List(children) => seq!['('] + trace(children) + seq![')', ' '],
    }
}

/// The trace of a sequence of nodes: the traces of the nodes, in order.
pub open spec fn trace(nodes: Seq<Node>) -> Seq<char>
    decreases nodes, 1int,
{
    if nodes.len() == 0 {
        Seq::empty()
    } else {
        trace(nodes.drop_last()) + trace_node(nodes.last())
    }
}

/// Appends the trace of `sexps` to `out`.
fn render(sexps: &Vec<Sexp>, out: &mut String)
    ensures
        final(out)@ == old(out)@ + trace(nodes_of(sexps@)),
    decreases sexps,
{
    let ghost before = out@;
    let ghost nodes = nodes_of(sexps@);
    for i in 0..sexps.len()
        invariant
            nodes == nodes_of(sexps@),
            out@ == before + trace(nodes.take(i as int)),
    {
        proof {
            reveal_strlit("Inv ");
            reveal_strlit("\u{286}");
            reveal_strlit("\u{14b}");
            reveal_strlit(" ");
            reveal_strlit("\"");
            reveal_strlit("\" ");
            reveal_strlit("(");
            reveal_strlit(") ");
            assert(nodes.take(i + 1).drop_last() =~= nodes.take(i as int));
            assert(nodes.take(i + 1).last() == nodes[i as int]);
        }
        let ghost so_far = out@;
        match &sexps[i] {
            Sexp::Invalid => {
                out.append("Inv ");
            },
            Sexp::Symbol(text) => {
                out.append("\u{286}");
                out.append(text);
                out.append(" ");
            },
            Sexp::StringLiteral(text) => {
                out.append("\"");
                out.append(text);
                out.append("\" ");
            },
            Sexp::IntLiteral(text) => {
                out.append("\u{14b}");
                out.append(text);
                out.append(" ");
            },
            Sexp::HexIntLiteral(text) => {
                out.append("\u{14b}");
                out.append(text);
                out.append(" ");
            },
            Sexp::FloatLiteral(text) => {
                out.append("\u{14b}");
                out.append(text);
                out.append(" ");
            },
            Sexp::List(children) => {
                proof {
                    lemma_list_view(*children);
                }
                out.append("(");
                render(children, out);
                out.append(") ");
            },
        }
        assert(out@ =~= so_far + trace_node(nodes[i as int]));
        assert(out@ =~= before + (trace(nodes.take(i as int)) + trace_node(nodes[i as int])));
    }
    assert(nodes.take(sexps.len() as int) =~= nodes);
}

/// The trace of `sexps`: a pure function of the tree.
pub fn pretty_print(sexps: &Vec<Sexp>) -> (out: String)
    ensures
        out@ == trace(nodes_of(sexps@)),
{
    let mut out = String::new();
    render(sexps, &mut out);
    assert(Seq::<char>::empty() + trace(nodes_of(sexps@)) =~= trace(nodes_of(sexps@)));
    out
}


/// The trace depends on nothing but the trees: values that stand for the
/// same trees, wherever their texts are borrowed from, have one and the
/// same trace.
pub proof fn lemma_same_trees_same_trace(a: Seq<Sexp>, b: Seq<Sexp>)
    requires
        nodes_of(a) == nodes_of(b),
    ensures
        trace(nodes_of(a)) == trace(nodes_of(b)),
{
}

} // verus!
