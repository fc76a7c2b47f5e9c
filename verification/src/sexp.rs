//! The tree that reading yields.

use crate::literal::Kind;
use vstd::prelude::*;

verus! {

/// One element of the notation. A literal borrows its text from the
/// source.
#[derive(Debug, PartialEq, Eq)]
pub enum Sexp<'a> {
    /// A parenthesised region that could not be read.
    Invalid,
    /// A bare token.
    Symbol(&'a str),
    /// A quoted string: what stands between the quotes, as written.
    StringLiteral(&'a str),
    /// A signed decimal integer.
    IntLiteral(&'a str),
    /// Four groups of eight hexadecimal digits joined by `_`.
    HexIntLiteral(&'a str),
    /// A signed decimal number with a fraction.
    FloatLiteral(&'a str),
    /// A parenthesised group, in the order of the source.
    List(Vec<Self>),
}

/// What an [`Sexp`] stands for: the same tree over sequences of characters.
pub enum Node {
    /// A parenthesised region that could not be read.
    Invalid,
    /// A bare token.
    Symbol(Seq<char>),
    /// A quoted string: what stands between the quotes, as written.
    StringLiteral(Seq<char>),
    /// A signed decimal integer.
    IntLiteral(Seq<char>),
    /// Four groups of eight hexadecimal digits joined by `_`.
    HexIntLiteral(Seq<char>),
    /// A signed decimal number with a fraction.
    FloatLiteral(Seq<char>),
    /// A parenthesised group, in the order of the source.
    List(Seq<Node>),
}

impl Node {
    /// The literal of form `kind` with the given text.
    pub open spec fn leaf(kind: Kind, text: Seq<char>) -> Node {
        match kind {
            Kind::StringLiteral => Node::StringLiteral(text),
            Kind::IntLiteral => Node::IntLiteral(text),
            Kind::HexIntLiteral => Node::HexIntLiteral(text),
            Kind::FloatLiteral => Node::FloatLiteral(text),
            Kind::Symbol => Node::Symbol(text),
        }
    }

    /// Whether the tree holds no region that could not be read.
    pub open spec fn sound(self) -> bool
        decreases self,
    {
        match self {
            Node::Invalid => false,
            Node::List(children) => forall|i: int|
                0 <= i < children.len() ==> (#[trigger] children[i]).sound(),
            _ => true,
        }
    }
}

impl<'a> View for Sexp<'a> {
    type V = Node;

    open spec fn view(&self) -> Node
        decreases self,
    {
        match self {
            Sexp::Invalid => Node::Invalid,
            Sexp::Symbol(text) => Node::Symbol(text@),
            Sexp::StringLiteral(text) => Node::StringLiteral(text@),
            Sexp::IntLiteral(text) => Node::IntLiteral(text@),
            Sexp::HexIntLiteral(text) => Node::HexIntLiteral(text@),
            Sexp::FloatLiteral(text) => Node::FloatLiteral(text@),
            Sexp::List(children) => Node::List(
                Seq::new(
                    children@.len(),
                    |i: int|
                        if 0 <= i < children@.len() {
                            children@[i].view()
                        } else {
                            Node::Invalid
                        },
                ),
            ),
        }
    }
}

impl<'a> DeepView for Sexp<'a> {
    type V = Node;

    open spec fn deep_view(&self) -> Node {
        self.view()
    }
}

/// Copies of the trees in `sexps`; the texts are shared with the source.
fn copies<'a>(sexps: &Vec<Sexp<'a>>) -> (out: Vec<Sexp<'a>>)
    ensures
        nodes_of(out@) == nodes_of(sexps@),
    decreases sexps,
{
    let mut out: Vec<Sexp<'a>> = Vec::new();
    for i in 0..sexps.len()
        invariant
            out@.len() == i,
            forall|k: int| 0 <= k < i ==> (#[trigger] out@[k])@ == sexps@[k]@,
    {
        let copy = match &sexps[i] {
            Sexp::Invalid => Sexp::Invalid,
            Sexp::Symbol(text) => Sexp::Symbol(text),
            Sexp::StringLiteral(text) => Sexp::StringLiteral(text),
            Sexp::IntLiteral(text) => Sexp::IntLiteral(text),
            Sexp::HexIntLiteral(text) => Sexp::HexIntLiteral(text),
            Sexp::FloatLiteral(text) => Sexp::FloatLiteral(text),
            Sexp::List(children) => {
                let inner = copies(children);
                assert(Sexp::List(inner)@->List_0 =~= nodes_of(inner@));
                assert(Sexp::List(*children)@->List_0 =~= nodes_of(children@));
                Sexp::List(inner)
            },
        };
        out.push(copy);
    }
    assert(nodes_of(out@) =~= nodes_of(sexps@));
    out
}

impl<'a> Clone for Sexp<'a> {
    /// A copy of the tree; the texts are shared with the source.
    fn clone(&self) -> (copy: Self)
        ensures
            copy@ == self@,
    {
        match self {
            Sexp::Invalid => Sexp::Invalid,
            Sexp::Symbol(text) => Sexp::Symbol(text),
            Sexp::StringLiteral(text) => Sexp::StringLiteral(text),
            Sexp::IntLiteral(text) => Sexp::IntLiteral(text),
            Sexp::HexIntLiteral(text) => Sexp::HexIntLiteral(text),
            Sexp::FloatLiteral(text) => Sexp::FloatLiteral(text),
            Sexp::List(children) => {
                let inner = copies(children);
                assert(Sexp::List(inner)@->List_0 =~= nodes_of(inner@));
                assert(self@->List_0 =~= nodes_of(children@));
                Sexp::List(inner)
            },
        }
    }
}

impl<'a> Sexp<'a> {
    /// The literal of form `kind` with the given text.
    pub fn leaf(kind: Kind, text: &'a str) -> (sexp: Self)
        ensures
            sexp@ == Node::leaf(kind, text@),
    {
        match kind {
            Kind::StringLiteral => Sexp::StringLiteral(text),
            Kind::IntLiteral => Sexp::IntLiteral(text),
            Kind::HexIntLiteral => Sexp::HexIntLiteral(text),
            Kind::FloatLiteral => Sexp::FloatLiteral(text),
            Kind::Symbol => Sexp::Symbol(text),
        }
    }
}

/// The trees that a sequence of nodes stands for.
pub open spec fn nodes_of(sexps: Seq<Sexp>) -> Seq<Node> {
    Seq::new(sexps.len(), |i: int| sexps[i]@)
}

/// A list of children stands for the list of what they stand for.
pub proof fn lemma_list_view(children: Vec<Sexp>)
    ensures
        Sexp::List(children)@ == Node::List(nodes_of(children@)),
{
    assert(Sexp::List(children)@->List_0 =~= nodes_of(children@));
}

} // verus!
