//! Finding the parenthesis that closes a region, for regions that cannot
//! be read: only parentheses count, whatever stands between them.

use crate::scan::lemma_rest;
use crate::source::Source;
use vstd::prelude::*;

verus! {

/// With `open` parentheses open, the number of characters of `r` up to
/// and including the parenthesis that closes the outermost of them.
pub open spec fn closing(r: Seq<char>, open: nat) -> Option<int>
    decreases r.len(),
{
    if r.len() == 0 {
        None
    } else if r[0] == ')' && open <= 1 {
        Some(1)
    } else {
        let left: nat = if r[0] == '(' {
            open + 1
        } else if r[0] == ')' {
            (open - 1) as nat
        } else {
            open
        };
        match closing(r.skip(1), left) {
            Some(n) => Some(n + 1),
            None => None,
        }
    }
}

/// The length of the parenthesised region at the very front of `r`: from
/// an opening parenthesis to the one that closes it.
pub open spec fn enclosed(r: Seq<char>) -> Option<int> {
    if r.len() > 0 && r[0] == '(' {
        match closing(r.skip(1), 1) {
            Some(n) => Some(n + 1),
            None => None,
        }
    } else {
        None
    }
}

/// `m`, counted from `by` characters earlier.
pub open spec fn later(m: Option<int>, by: int) -> Option<int> {
    match m {
        Some(n) => Some(n + by),
        None => None,
    }
}

/// The position behind the parenthesised region that starts at `pos`, if
/// one starts there and is closed.
pub fn skip_enclosed(src: &Source, pos: usize) -> (res: Option<usize>)
    requires
        pos <= src@.len(),
    ensures
        res matches Some(end) ==> pos < end <= src@.len(),
        match (res, enclosed(src@.skip(pos as int))) {
            (Some(end), Some(n)) => end == pos + n,
            (None, None) => true,
            _ => false,
        },
{
    let n = src.len();
    proof {
        lemma_rest(src@, pos as int, 0);
        if pos < n {
            lemma_rest(src@, pos as int, 1);
        }
    }
    if !(pos < n && src.at(pos) == '(') {
        return None;
    }
    let ghost whole = closing(src@.skip(pos + 1), 1);
    let mut i: usize = pos + 1;
    let mut open: usize = 1;
    while i < n
        invariant
            n == src@.len(),
            pos < i <= n,
            1 <= open <= i - pos,
            enclosed(src@.skip(pos as int)) == later(whole, 1),
            whole == later(closing(src@.skip(i as int), open as nat), i - pos - 1),
        decreases n - i,
    {
        proof {
            lemma_rest(src@, i as int, 0);
            lemma_rest(src@, i as int, 1);
        }
        let c = src.at(i);
        if c == ')' {
            if open == 1 {
                return Some(i + 1);
            }
            open = open - 1;
        } else if c == '(' {
            open = open + 1;
        }
        i = i + 1;
    }
    None
}


/// The closing parenthesis lies inside the text.
pub proof fn lemma_closing_bounds(r: Seq<char>, open: nat)
    ensures
        closing(r, open) matches Some(n) ==> 1 <= n <= r.len(),
    decreases r.len(),
{
    if r.len() > 0 && !(r[0] == ')' && open <= 1) {
        let left: nat = if r[0] == '(' {
            open + 1
        } else if r[0] == ')' {
            (open - 1) as nat
        } else {
            open
        };
        lemma_closing_bounds(r.skip(1), left);
    }
}

/// A parenthesised region lies inside the text and holds both its
/// parentheses.
pub proof fn lemma_enclosed_bounds(r: Seq<char>)
    ensures
        enclosed(r) matches Some(n) ==> 2 <= n <= r.len(),
{
    if r.len() > 0 {
        lemma_closing_bounds(r.skip(1), 1);
    }
}

} // verus!
