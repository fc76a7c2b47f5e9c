//! What more text behind a text changes, and what it does not: the law
//! that a run of items in parentheses is read as the list of those items.

use crate::class::{is_escape_code, is_plain_char, is_separator, is_space, CharClass};
use crate::grammar::{
    document, item, items, lemma_item_bounds, lemma_items_bounds, lemma_list_bounds,
    lemma_literal_bounds, list, literal,
};
use crate::literal::{
    behind, hex_groups, hex_prefix, lemma_body_bounds, lemma_groups_bounds, lemma_match_bounds,
    sign, string_body, Kind, Span,
};
use crate::scan::{lemma_run_append, lemma_run_bounds, run};
use crate::sexp::Node;
use crate::token::lemma_matches_only;
use vstd::prelude::*;

verus! {

/// Whether every node of `nodes` is free of regions that could not be
/// read.
pub open spec fn all_sound(nodes: Seq<Node>) -> bool {
    forall|i: int| 0 <= i < nodes.len() ==> (#[trigger] nodes[i]).sound()
}

/// A list is free of such regions where all its children are.
proof fn lemma_sound_list(children: Seq<Node>)
    ensures
        Node::List(children).sound() == all_sound(children),
{
    if Node::List(children).sound() {
        assert forall|i: int| 0 <= i < children.len() implies (#[trigger] children[i]).sound() by {
            assert(Node::List(children)->List_0[i].sound());
        }
    }
    if all_sound(children) {
        assert forall|i: int| 0 <= i < children.len() implies (
        #[trigger] Node::List(children)->List_0[i]).sound() by {
            assert(children[i].sound());
        }
        assert(Node::List(children).sound());
    }
}

/// A run that starts at `k`, seen with more text behind the text.
proof fn lemma_run_at(r: Seq<char>, more: Seq<char>, k: int, class: CharClass)
    requires
        0 <= k <= r.len(),
    ensures
        (r + more).skip(k) == r.skip(k) + more,
        run((r + more).skip(k), class) == if k + run(r.skip(k), class) < r.len() {
            run(r.skip(k), class)
        } else {
            (r.len() - k + run(more, class)) as nat
        },
        k + run(r.skip(k), class) <= r.len(),
{
    assert((r + more).skip(k) =~= r.skip(k) + more);
    lemma_run_append(r.skip(k), more, class);
    lemma_run_bounds(r.skip(k), class);
}

/// The body of a string that ends inside the text, at a quote or at a
/// backslash with a character behind it, is not changed by more text.
proof fn lemma_body_append(r: Seq<char>, more: Seq<char>)
    requires
        string_body(r) < r.len(),
        r[string_body(r) as int] == '"' || string_body(r) + 1 < r.len(),
    ensures
        string_body(r + more) == string_body(r),
    decreases r.len(),
{
    let whole = r + more;
    assert(whole[0] == r[0]);
    if is_plain_char(r[0]) {
        assert(whole.skip(1) =~= r.skip(1) + more);
        assert(r.skip(1)[string_body(r.skip(1)) as int] == r[string_body(r) as int]);
        lemma_body_append(r.skip(1), more);
    } else if r[0] == '\\' && r.len() >= 2 && is_escape_code(r[1]) {
        assert(whole[1] == r[1]);
        assert(whole.skip(2) =~= r.skip(2) + more);
        lemma_body_bounds(r.skip(2));
        assert(r.skip(2)[string_body(r.skip(2)) as int] == r[string_body(r) as int]);
        lemma_body_append(r.skip(2), more);
    } else {
        if r.len() >= 2 {
            assert(whole[1] == r[1]);
        }
    }
}

/// Groups that end, or break, inside the text are not changed by more
/// text.
proof fn lemma_groups_append(r: Seq<char>, more: Seq<char>, p: int, count: nat)
    requires
        0 <= p <= r.len(),
        match hex_groups(r, p, count) {
            Ok(end) => end < r.len(),
            Err(at) => at < r.len(),
        },
    ensures
        hex_groups(r + more, p, count) == hex_groups(r, p, count),
    decreases count,
{
    lemma_run_at(r, more, p, CharClass::HexDigit);
    let n = run(r.skip(p), CharClass::HexDigit);
    if n >= 8 && count > 0 {
        if p + 8 < r.len() && r[p + 8] == '_' {
            lemma_groups_bounds(r, p + 9, (count - 1) as nat);
            lemma_groups_append(r, more, p + 9, (count - 1) as nat);
        }
    }
}

/// Whether what a form does at the front of `r` is settled by `r` alone:
/// it matches and its padding ends inside `r`, or no padding comes
/// behind; or it gets stuck inside `r`.
pub open spec fn settled(kind: Kind, r: Seq<char>, more: Seq<char>) -> bool {
    match kind.matched(r) {
        Ok(span) => span.next < r.len() || more.len() == 0 || !is_space(more[0]),
        Err(at) => at < r.len(),
    }
}

/// The padding behind a literal, seen with more text behind the text.
proof fn lemma_behind_kept(r: Seq<char>, more: Seq<char>, end: int)
    requires
        0 <= end <= r.len(),
        behind(r, end) < r.len() || more.len() == 0 || !is_space(more[0]),
    ensures
        behind(r + more, end) == behind(r, end),
{
    lemma_run_at(r, more, end, CharClass::Space);
    if more.len() == 0 || !is_space(more[0]) {
        assert(run(more, CharClass::Space) == 0);
    }
}

/// The padding in front, seen with more text behind the text.
proof fn lemma_front_kept(r: Seq<char>, more: Seq<char>)
    ensures
        run(r, CharClass::Space) < r.len() ==> run(r + more, CharClass::Space) == run(
            r,
            CharClass::Space,
        ),
        run(r, CharClass::Space) <= r.len(),
{
    lemma_run_at(r, more, 0, CharClass::Space);
    assert(r.skip(0) =~= r);
    assert((r + more).skip(0) =~= r + more);
}

/// A string that the text settles stays as it is with more text behind.
proof fn lemma_string_kept(r: Seq<char>, more: Seq<char>)
    requires
        settled(Kind::StringLiteral, r, more),
    ensures
        Kind::StringLiteral.matched(r + more) == Kind::StringLiteral.matched(r),
{
    lemma_match_bounds(r, Kind::StringLiteral);
    lemma_front_kept(r, more);
    let j = run(r, CharClass::Space) as int;
    if j < r.len() && r[j] == '"' {
        lemma_body_bounds(r.skip(j + 1));
        let q = j + 1 + string_body(r.skip(j + 1));
        assert((r + more).skip(j + 1) =~= r.skip(j + 1) + more);
        if q < r.len() {
            assert(r.skip(j + 1)[string_body(r.skip(j + 1)) as int] == r[q]);
            lemma_body_append(r.skip(j + 1), more);
            if r[q] == '"' && q + 1 < r.len() {
                lemma_run_bounds(r.skip(q + 1), CharClass::Space);
                if is_separator(r[q + 1]) {
                    lemma_behind_kept(r, more, q + 1);
                }
            }
        }
    }
}

/// An integer that the text settles stays as it is with more text behind.
proof fn lemma_int_kept(r: Seq<char>, more: Seq<char>)
    requires
        settled(Kind::IntLiteral, r, more),
    ensures
        Kind::IntLiteral.matched(r + more) == Kind::IntLiteral.matched(r),
{
    lemma_match_bounds(r, Kind::IntLiteral);
    lemma_front_kept(r, more);
    let j = run(r, CharClass::Space) as int;
    let d = j + sign(r, j);
    lemma_run_at(r, more, d, CharClass::Digit);
    let end = d + run(r.skip(d), CharClass::Digit);
    if Kind::IntLiteral.matched(r) is Ok {
        lemma_behind_kept(r, more, end);
    }
}

/// A hex blob that the text settles stays as it is with more text behind.
proof fn lemma_hex_kept(r: Seq<char>, more: Seq<char>)
    requires
        settled(Kind::HexIntLiteral, r, more),
    ensures
        Kind::HexIntLiteral.matched(r + more) == Kind::HexIntLiteral.matched(r),
{
    lemma_match_bounds(r, Kind::HexIntLiteral);
    lemma_front_kept(r, more);
    let j = run(r, CharClass::Space) as int;
    let p = j + hex_prefix(r, j);
    lemma_groups_bounds(r, p, 3);
    if let Ok(end) = hex_groups(r, p, 3) {
        if end < r.len() {
            lemma_groups_append(r, more, p, 3);
            if is_separator(r[end]) {
                lemma_behind_kept(r, more, end);
            }
        }
    } else {
        lemma_groups_append(r, more, p, 3);
    }
}

/// A float that the text settles stays as it is with more text behind.
proof fn lemma_float_kept(r: Seq<char>, more: Seq<char>)
    requires
        settled(Kind::FloatLiteral, r, more),
    ensures
        Kind::FloatLiteral.matched(r + more) == Kind::FloatLiteral.matched(r),
{
    lemma_match_bounds(r, Kind::FloatLiteral);
    lemma_front_kept(r, more);
    let j = run(r, CharClass::Space) as int;
    let d = j + sign(r, j);
    lemma_run_at(r, more, d, CharClass::Digit);
    let dot = d + run(r.skip(d), CharClass::Digit);
    if dot < r.len() {
        lemma_run_at(r, more, dot + 1, CharClass::Digit);
        let end = dot + 1 + run(r.skip(dot + 1), CharClass::Digit);
        if Kind::FloatLiteral.matched(r) is Ok {
            lemma_behind_kept(r, more, end);
        }
    }
}

/// A symbol that the text settles stays as it is with more text behind.
proof fn lemma_symbol_kept(r: Seq<char>, more: Seq<char>)
    requires
        settled(Kind::Symbol, r, more),
    ensures
        Kind::Symbol.matched(r + more) == Kind::Symbol.matched(r),
{
    lemma_match_bounds(r, Kind::Symbol);
    lemma_front_kept(r, more);
    let j = run(r, CharClass::Space) as int;
    lemma_run_at(r, more, j, CharClass::Symbol);
    let end = j + run(r.skip(j), CharClass::Symbol);
    if Kind::Symbol.matched(r) is Ok {
        lemma_behind_kept(r, more, end);
    }
}

/// What a form does is not changed by more text behind the text, where
/// the text alone settles it.
pub proof fn lemma_kept(kind: Kind, r: Seq<char>, more: Seq<char>)
    requires
        settled(kind, r, more),
    ensures
        kind.matched(r + more) == kind.matched(r),
{
    match kind {
        Kind::StringLiteral => lemma_string_kept(r, more),
        Kind::IntLiteral => lemma_int_kept(r, more),
        Kind::HexIntLiteral => lemma_hex_kept(r, more),
        Kind::FloatLiteral => lemma_float_kept(r, more),
        Kind::Symbol => lemma_symbol_kept(r, more),
    }
}


/// Up to the place where they end or break, groups hold no separator.
proof fn lemma_groups_scanned(r: Seq<char>, p: int, count: nat)
    requires
        0 <= p <= r.len(),
    ensures
        ({
            let reach = match hex_groups(r, p, count) {
                Ok(end) => end,
                Err(at) => at,
            };
            forall|i: int| p <= i < reach ==> !is_separator(#[trigger] r[i])
        }),
    decreases count,
{
    lemma_run_bounds(r.skip(p), CharClass::HexDigit);
    let n = run(r.skip(p), CharClass::HexDigit);
    let reach = match hex_groups(r, p, count) {
        Ok(end) => end,
        Err(at) => at,
    };
    if n >= 8 && count > 0 && p + 8 < r.len() && r[p + 8] == '_' {
        lemma_groups_scanned(r, p + 9, (count - 1) as nat);
    }
    assert forall|i: int| p <= i < reach implies !is_separator(#[trigger] r[i]) by {
        if i < p + n {
            assert(r[i] == r.skip(p)[i - p]);
        }
    }
}

/// A form other than the string that got stuck has met no separator from
/// the end of the padding up to that place, and no quote at its start.
proof fn lemma_scanned(kind: Kind, r: Seq<char>)
    requires
        kind != Kind::StringLiteral,
        kind.matched(r) is Err,
    ensures
        forall|i: int|
            run(r, CharClass::Space) <= i < kind.matched(r)->Err_0 ==> !is_separator(
                #[trigger] r[i],
            ),
        run(r, CharClass::Space) < kind.matched(r)->Err_0 ==> r[run(r, CharClass::Space) as int]
            != '"',
{
    lemma_run_bounds(r, CharClass::Space);
    let j = run(r, CharClass::Space) as int;
    let e = kind.matched(r)->Err_0;
    match kind {
        Kind::StringLiteral => {},
        Kind::IntLiteral => {
            let d = j + sign(r, j);
            lemma_run_bounds(r.skip(d), CharClass::Digit);
            assert forall|i: int| j <= i < e implies !is_separator(#[trigger] r[i]) by {
                if i >= d {
                    assert(r[i] == r.skip(d)[i - d]);
                }
            }
            if j < e && d == j {
                assert(r[j] == r.skip(d)[0]);
            }
        },
        Kind::HexIntLiteral => {
            let p = j + hex_prefix(r, j);
            lemma_groups_scanned(r, p, 3);
            lemma_groups_bounds(r, p, 3);
            lemma_run_bounds(r.skip(p), CharClass::HexDigit);
            if j < e && p == j {
                if run(r.skip(p), CharClass::HexDigit) > 0 {
                    assert(r[j] == r.skip(p)[0]);
                }
            }
        },
        Kind::FloatLiteral => {
            let d = j + sign(r, j);
            lemma_run_bounds(r.skip(d), CharClass::Digit);
            let dot = d + run(r.skip(d), CharClass::Digit);
            if dot < r.len() {
                lemma_run_bounds(r.skip(dot + 1), CharClass::Digit);
            }
            assert forall|i: int| j <= i < e implies !is_separator(#[trigger] r[i]) by {
                if d <= i < dot {
                    assert(r[i] == r.skip(d)[i - d]);
                } else if i > dot {
                    assert(r[i] == r.skip(dot + 1)[i - dot - 1]);
                }
            }
            if j < e && d == j {
                assert(r[j] == r.skip(d)[0]);
            }
        },
        Kind::Symbol => {
            lemma_run_bounds(r.skip(j), CharClass::Symbol);
            assert forall|i: int| j <= i < e implies !is_separator(#[trigger] r[i]) by {
                assert(r[i] == r.skip(j)[i - j]);
            }
            if j < e {
                assert(r[j] == r.skip(j)[0]);
            }
        },
    }
}

/// Where one form got stuck at the very end of the text, no other form
/// matches: a form that stops for want of text hides no literal.
pub proof fn lemma_stuck_at_end(kind: Kind, other: Kind, r: Seq<char>)
    requires
        kind.matched(r) == Err::<Span, int>(r.len() as int),
        kind != other,
    ensures
        other.matched(r) is Err,
{
    lemma_run_bounds(r, CharClass::Space);
    let j = run(r, CharClass::Space) as int;
    if other.matched(r) is Ok {
        lemma_matches_only(other, r);
        lemma_match_bounds(r, other);
        let span = other.matched(r)->Ok_0;
        if kind == Kind::StringLiteral {
            assert(r[j] == '"');
            if other == Kind::Symbol {
                lemma_run_bounds(r.skip(j), CharClass::Symbol);
                assert(r.skip(j)[0] == r[j]);
            } else if other == Kind::HexIntLiteral {
                let p = j + hex_prefix(r, j);
                lemma_run_bounds(r.skip(p), CharClass::HexDigit);
                lemma_groups_bounds(r, p, 3);
                assert(r.skip(p)[0] == r[j]);
            } else {
                let d = j + sign(r, j);
                lemma_run_bounds(r.skip(d), CharClass::Digit);
                assert(r.skip(d)[0] == r[j]);
            }
        } else {
            lemma_scanned(kind, r);
            if other == Kind::StringLiteral {
                assert(r[j] == '"');
            } else {
                assert(!is_separator(r[span.end]));
            }
        }
    }
}

/// The first literal that matches, and its span, stay the same with more
/// text behind, unless the literal's padding reaches the end of the text
/// and padding comes behind.
pub proof fn lemma_literal_kept(r: Seq<char>, more: Seq<char>)
    requires
        literal(r) is Ok,
        literal(r)->Ok_0.1.next < r.len() || more.len() == 0 || !is_space(more[0]),
    ensures
        literal(r + more) == literal(r),
{
    reveal(literal);
    let kind = literal(r)->Ok_0.0;
    lemma_kept(kind, r, more);
    lemma_earlier_stuck(Kind::StringLiteral, kind, r, more);
    lemma_earlier_stuck(Kind::IntLiteral, kind, r, more);
    lemma_earlier_stuck(Kind::HexIntLiteral, kind, r, more);
    lemma_earlier_stuck(Kind::FloatLiteral, kind, r, more);
}

/// A form that got stuck while another matches got stuck inside the text,
/// and so gets stuck with more text behind.
proof fn lemma_earlier_stuck(kind: Kind, other: Kind, r: Seq<char>, more: Seq<char>)
    requires
        other.matched(r) is Ok,
    ensures
        kind.matched(r) is Err ==> kind.matched(r + more) == kind.matched(r),
{
    if kind.matched(r) is Err {
        lemma_match_bounds(r, kind);
        if kind.matched(r)->Err_0 == r.len() {
            lemma_stuck_at_end(kind, other, r);
        }
        lemma_kept(kind, r, more);
    }
}

/// Where the padding is followed by a parenthesis, every literal form
/// gets stuck at that parenthesis.
proof fn lemma_parenthesis_is_no_literal(r: Seq<char>, kind: Kind)
    requires
        run(r, CharClass::Space) < r.len(),
        r[run(r, CharClass::Space) as int] == '(' || r[run(r, CharClass::Space) as int] == ')',
    ensures
        kind.matched(r) == Err::<Span, int>(run(r, CharClass::Space) as int),
{
    let j = run(r, CharClass::Space) as int;
    assert(r.skip(j)[0] == r[j]);
}


/// Where the padding is followed by a parenthesis, no literal matches,
/// and every form gets stuck at that parenthesis.
proof fn lemma_no_literal_at_parenthesis(r: Seq<char>)
    requires
        run(r, CharClass::Space) < r.len(),
        r[run(r, CharClass::Space) as int] == '(' || r[run(r, CharClass::Space) as int] == ')',
    ensures
        literal(r) == Err::<(Kind, Span), int>(run(r, CharClass::Space) as int),
{
    reveal(literal);
    lemma_parenthesis_is_no_literal(r, Kind::StringLiteral);
    lemma_parenthesis_is_no_literal(r, Kind::IntLiteral);
    lemma_parenthesis_is_no_literal(r, Kind::HexIntLiteral);
    lemma_parenthesis_is_no_literal(r, Kind::FloatLiteral);
    lemma_parenthesis_is_no_literal(r, Kind::Symbol);
}

/// No item starts at a closing parenthesis.
proof fn lemma_closing_is_no_item(r: Seq<char>)
    requires
        r.len() > 0,
        r[0] == ')',
    ensures
        item(r) == Err::<(Node, int), int>(0),
{
    reveal_with_fuel(item, 1);
    reveal_with_fuel(list, 1);
    reveal_with_fuel(items, 1);
    assert(run(r, CharClass::Space) == 0);
    lemma_no_literal_at_parenthesis(r);
}

/// A list that holds no region that could not be read is read in the same
/// way with more text behind, unless its padding reaches the end of the
/// text and padding comes behind.
#[verifier::rlimit(30)]
proof fn lemma_list_kept(r: Seq<char>, more: Seq<char>)
    requires
        list(r) is Ok,
        all_sound(list(r)->Ok_0.0),
        list(r)->Ok_0.1 < r.len() || more.len() == 0 || !is_space(more[0]),
    ensures
        list(r + more) == list(r),
        literal(r + more) is Err,
    decreases r.len(), 0int,
{
    reveal_with_fuel(item, 1);
    reveal_with_fuel(list, 1);
    reveal_with_fuel(items, 1);
    let whole = r + more;
    lemma_list_bounds(r);
    lemma_front_kept(r, more);
    let j = run(r, CharClass::Space) as int;
    assert(whole[j] == r[j]);
    lemma_no_literal_at_parenthesis(whole);
    let inner = r.skip(j + 1);
    lemma_items_bounds(inner);
    let end = j + 1 + items(inner).len;
    assert(whole.skip(j + 1) =~= inner + more);
    assert((inner + more)[items(inner).len] == r[end]);
    lemma_items_kept(inner, more);
    assert(whole[end] == r[end]);
    lemma_behind_kept(r, more, end + 1);
}

/// An item that holds no region that could not be read is read in the
/// same way with more text behind, unless its padding reaches the end of
/// the text and padding comes behind.
#[verifier::rlimit(30)]
pub proof fn lemma_item_kept(r: Seq<char>, more: Seq<char>)
    requires
        item(r) is Ok,
        item(r)->Ok_0.0.sound(),
        item(r)->Ok_0.1 < r.len() || more.len() == 0 || !is_space(more[0]),
    ensures
        item(r + more) == item(r),
    decreases r.len(), 1int,
{
    reveal_with_fuel(item, 1);
    reveal_with_fuel(list, 1);
    reveal_with_fuel(items, 1);
    if literal(r) is Ok {
        lemma_literal_kept(r, more);
        lemma_literal_bounds(r);
        let span = literal(r)->Ok_0.1;
        assert((r + more).subrange(span.start, span.end) =~= r.subrange(span.start, span.end));
    } else {
        assert(list(r) is Ok);
        let children = list(r)->Ok_0.0;
        assert(item(r)->Ok_0.0 == Node::List(children));
        assert(Node::List(children).sound());
        lemma_sound_list(children);
        lemma_list_kept(r, more);
    }
}

/// Items that hold no region that could not be read, and that end where a
/// closing parenthesis stands once more text is behind, are read in the
/// same way with that text behind.
#[verifier::rlimit(30)]
pub proof fn lemma_items_kept(r: Seq<char>, more: Seq<char>)
    requires
        all_sound(items(r).nodes),
        items(r).len < (r + more).len(),
        (r + more)[items(r).len] == ')',
    ensures
        items(r + more).nodes == items(r).nodes,
        items(r + more).len == items(r).len,
    decreases r.len(), 2int,
{
    reveal_with_fuel(item, 1);
    reveal_with_fuel(list, 1);
    reveal_with_fuel(items, 1);
    let whole = r + more;
    lemma_item_bounds(r);
    lemma_items_bounds(r);
    match item(r) {
        Ok((node, len)) => {
            let rest = items(r.skip(len));
            assert(items(r).nodes[0] == node);
            assert forall|i: int| 0 <= i < rest.nodes.len() implies (
            #[trigger] rest.nodes[i]).sound() by {
                assert(rest.nodes[i] == items(r).nodes[i + 1]);
            }
            lemma_items_bounds(r.skip(len));
            lemma_item_kept(r, more);
            assert(whole.skip(len) =~= r.skip(len) + more);
            assert((r.skip(len) + more)[rest.len] == whole[len + rest.len]);
            lemma_items_kept(r.skip(len), more);
        },
        Err(_) => {
            lemma_closing_is_no_item(whole);
        },
    }
}

/// Items in parentheses are a list of those items: where a text is read
/// as items that hold no region that could not be read, the same text in
/// parentheses is read as one list of the same items, in the same order.
#[verifier::rlimit(30)]
pub proof fn lemma_list_of_items(body: Seq<char>)
    requires
        document(body) is Ok,
        all_sound(document(body)->Ok_0),
    ensures
        document(seq!['('] + body + seq![')']) == Ok::<Seq<Node>, int>(
            seq![Node::List(document(body)->Ok_0)],
        ),
{
    reveal_with_fuel(item, 1);
    reveal_with_fuel(list, 1);
    reveal_with_fuel(items, 1);
    let nodes = document(body)->Ok_0;
    let s = seq!['('] + body + seq![')'];
    let close = seq![')'];
    assert(s[0] == '(');
    assert(run(s, CharClass::Space) == 0);
    lemma_no_literal_at_parenthesis(s);
    assert(s.skip(1) =~= body + close);
    assert((body + close)[body.len() as int] == ')');
    lemma_items_kept(body, close);
    let end = 1int + body.len();
    assert(s[end] == ')');
    assert(s.skip(end + 1) =~= Seq::<char>::empty());
    assert(run(s.skip(end + 1), CharClass::Space) == 0);
    assert(list(s) == Ok::<(Seq<Node>, int), int>((nodes, s.len() as int)));
    assert(item(s) == Ok::<(Node, int), int>((Node::List(nodes), s.len() as int)));
    assert(s.skip(s.len() as int) =~= Seq::<char>::empty());
    lemma_item_bounds(Seq::<char>::empty());
    assert(items(Seq::<char>::empty()).nodes =~= Seq::<Node>::empty());
    assert(items(s).nodes =~= seq![Node::List(nodes)]);
}

} // verus!
