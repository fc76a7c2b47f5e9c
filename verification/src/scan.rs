//! Runs of characters of one class, the building block of every recogniser.

use crate::class::CharClass;
use crate::source::Source;
use vstd::prelude::*;

verus! {

/// The number of characters at the front of `r` that belong to `class`.
pub open spec fn run(r: Seq<char>, class: CharClass) -> nat
    decreases r.len(),
{
    if r.len() > 0 && class.has(r[0]) {
        1 + run(r.skip(1), class)
    } else {
        0
    }
}

/// A run stays inside the text, holds only characters of its class, and
/// ends at the end of the text or before a character outside the class.
pub proof fn lemma_run_bounds(r: Seq<char>, class: CharClass)
    ensures
        run(r, class) <= r.len(),
        forall|k: int| 0 <= k < run(r, class) ==> class.has(#[trigger] r[k]),
        run(r, class) < r.len() ==> !class.has(r[run(r, class) as int]),
    decreases r.len(),
{
    if r.len() > 0 && class.has(r[0]) {
        let tail = r.skip(1);
        lemma_run_bounds(tail, class);
        assert forall|k: int| 0 <= k < run(r, class) implies class.has(#[trigger] r[k]) by {
            if k > 0 {
                assert(r[k] == tail[k - 1]);
            }
        }
        if run(r, class) < r.len() {
            assert(r[run(r, class) as int] == tail[run(tail, class) as int]);
        }
    }
}

/// A run is the only prefix that holds characters of the class alone and
/// cannot be made longer.
pub proof fn lemma_run_is(r: Seq<char>, class: CharClass, n: nat)
    requires
        n <= r.len(),
        forall|k: int| 0 <= k < n ==> class.has(#[trigger] r[k]),
        n < r.len() ==> !class.has(r[n as int]),
    ensures
        run(r, class) == n,
    decreases r.len(),
{
    if n > 0 {
        let tail = r.skip(1);
        assert forall|k: int| 0 <= k < n - 1 implies class.has(#[trigger] tail[k]) by {
            assert(tail[k] == r[k + 1]);
        }
        if n - 1 < tail.len() {
            assert(tail[n - 1] == r[n as int]);
        }
        lemma_run_is(tail, class, (n - 1) as nat);
    }
}

/// The text from `pos` on, read from `k` characters further, is the text
/// from `pos + k` on.
pub proof fn lemma_rest(s: Seq<char>, pos: int, k: int)
    requires
        0 <= pos,
        0 <= k,
        pos + k <= s.len(),
    ensures
        s.skip(pos).skip(k) == s.skip(pos + k),
        s.skip(pos).len() == s.len() - pos,
        k < s.len() - pos ==> s.skip(pos)[k] == s[pos + k],
{
    assert(s.skip(pos).skip(k) =~= s.skip(pos + k));
}

/// Skipping the first character of a run leaves the rest of the run.
pub proof fn lemma_run_step(s: Seq<char>, i: int, class: CharClass)
    requires
        0 <= i <= s.len(),
    ensures
        run(s.skip(i), class) == if i < s.len() && class.has(s[i]) {
            1 + run(s.skip(i + 1), class)
        } else {
            0
        },
{
    if i < s.len() {
        assert(s.skip(i)[0] == s[i]);
        assert(s.skip(i).skip(1) =~= s.skip(i + 1));
    }
}

/// The position at which the run of `class` that starts at `from` ends.
pub fn scan(src: &Source, from: usize, class: CharClass) -> (to: usize)
    requires
        from <= src@.len(),
    ensures
        to == from + run(src@.skip(from as int), class),
        to <= src@.len(),
{
    let n = src.len();
    let mut i: usize = from;
    while i < n && class.contains(src.at(i))
        invariant
            n == src@.len(),
            from <= i <= n,
            run(src@.skip(from as int), class) == (i - from) + run(src@.skip(i as int), class),
        decreases n - i,
    {
        proof {
            lemma_run_step(src@, i as int, class);
            lemma_run_step(src@, i + 1, class);
        }
        i = i + 1;
    }
    proof {
        lemma_run_step(src@, i as int, class);
    }
    i
}


/// A prefix of characters of the class is part of the run.
pub proof fn lemma_run_at_least(r: Seq<char>, class: CharClass, n: nat)
    requires
        n <= r.len(),
        forall|k: int| 0 <= k < n ==> class.has(#[trigger] r[k]),
    ensures
        run(r, class) >= n,
    decreases n,
{
    if n > 0 {
        let tail = r.skip(1);
        assert forall|k: int| 0 <= k < n - 1 implies class.has(#[trigger] tail[k]) by {
            assert(tail[k] == r[k + 1]);
        }
        lemma_run_at_least(tail, class, (n - 1) as nat);
    }
}

/// More text behind a run that ends inside the text does not change it;
/// a run that reaches the end goes on into what is added.
pub proof fn lemma_run_append(r: Seq<char>, more: Seq<char>, class: CharClass)
    ensures
        run(r + more, class) == if run(r, class) < r.len() {
            run(r, class)
        } else {
            r.len() + run(more, class)
        },
    decreases r.len(),
{
    if r.len() == 0 {
        assert(r + more =~= more);
    } else {
        assert((r + more)[0] == r[0]);
        assert((r + more).skip(1) =~= r.skip(1) + more);
        if class.has(r[0]) {
            lemma_run_append(r.skip(1), more, class);
        }
    }
}

} // verus!
