//! The text being read, held so that a character is found, and a part of
//! the text cut out, in constant time.

use vstd::prelude::*;
use vstd::utf8::{
    char_is_scalar, encode_scalar, encode_utf8, encode_utf8_decode_utf8,
    encode_utf8_first_scalar, encode_utf8_valid_utf8, is_char_boundary, length_of_first_scalar,
    pop_first_scalar,
};

verus! {

/// The number of bytes that the first `i` characters of `s` take.
pub open spec fn offset(s: Seq<char>, i: int) -> nat {
    encode_utf8(s.take(i)).len()
}

/// The bytes of two texts one behind the other are the bytes of the one
/// and then of the other.
proof fn lemma_bytes_of_both(a: Seq<char>, b: Seq<char>)
    ensures
        encode_utf8(a + b) == encode_utf8(a) + encode_utf8(b),
    decreases a.len(),
{
    if a.len() == 0 {
        assert(a + b =~= b);
        assert(encode_utf8(a) + encode_utf8(b) =~= encode_utf8(b));
    } else {
        assert((a + b).drop_first() =~= a.drop_first() + b);
        assert((a + b)[0] == a[0]);
        lemma_bytes_of_both(a.drop_first(), b);
        assert(encode_utf8(a + b) =~= encode_utf8(a) + encode_utf8(b));
    }
}

/// The bytes of a text are those of its first `i` characters and then
/// those of the rest.
proof fn lemma_bytes_split(s: Seq<char>, i: int)
    requires
        0 <= i <= s.len(),
    ensures
        encode_utf8(s) == encode_utf8(s.take(i)) + encode_utf8(s.skip(i)),
        encode_utf8(s).subrange(0, offset(s, i) as int) == encode_utf8(s.take(i)),
        encode_utf8(s).subrange(offset(s, i) as int, encode_utf8(s).len() as int) == encode_utf8(
            s.skip(i),
        ),
        offset(s, i) <= encode_utf8(s).len(),
{
    assert(s =~= s.take(i) + s.skip(i));
    lemma_bytes_of_both(s.take(i), s.skip(i));
    let front = encode_utf8(s.take(i));
    let back = encode_utf8(s.skip(i));
    assert((front + back).subrange(0, front.len() as int) =~= front);
    assert((front + back).subrange(front.len() as int, (front + back).len() as int) =~= back);
}

/// The bytes of a text of one character are the bytes of the character.
proof fn lemma_bytes_of_one(c: char)
    ensures
        encode_utf8(seq![c]) == encode_scalar(c as u32),
{
    let one = seq![c];
    assert(one[0] == c);
    assert(one.drop_first() =~= Seq::<char>::empty());
    assert(encode_utf8(Seq::<char>::empty()) =~= Seq::<u8>::empty());
    assert(encode_utf8(one) == encode_scalar(one[0] as u32) + encode_utf8(one.drop_first()));
    assert(encode_scalar(c as u32) + Seq::<u8>::empty() =~= encode_scalar(c as u32));
}

/// One character more takes the bytes of that character more.
proof fn lemma_offset_step(s: Seq<char>, i: int)
    requires
        0 <= i < s.len(),
    ensures
        offset(s, i + 1) == offset(s, i) + encode_scalar(s[i] as u32).len(),
{
    let one = seq![s[i]];
    assert(s.take(i + 1) =~= s.take(i) + one);
    lemma_bytes_of_both(s.take(i), one);
    lemma_bytes_of_one(s[i]);
}

/// A character starts at the byte behind the characters in front of it.
proof fn lemma_offset_is_boundary(s: Seq<char>, i: int)
    requires
        0 <= i <= s.len(),
    ensures
        is_char_boundary(encode_utf8(s), offset(s, i) as int),
    decreases i,
{
    encode_utf8_valid_utf8(s);
    if i > 0 {
        let bytes = encode_utf8(s);
        let tail = s.drop_first();
        encode_utf8_first_scalar(s);
        assert(pop_first_scalar(bytes) =~= encode_utf8(tail));
        lemma_offset_is_boundary(tail, i - 1);
        assert(s.take(i) =~= seq![s[0]] + tail.take(i - 1));
        lemma_bytes_of_both(seq![s[0]], tail.take(i - 1));
        lemma_bytes_of_one(s[0]);
        lemma_bytes_split(s, i);
        assert(offset(s, i) - length_of_first_scalar(bytes) == offset(tail, i - 1));
    } else {
        assert(s.take(0) =~= Seq::<char>::empty());
    }
}

/// Texts with the same bytes are the same text.
proof fn lemma_same_bytes(a: Seq<char>, b: Seq<char>)
    requires
        encode_utf8(a) == encode_utf8(b),
    ensures
        a == b,
{
    encode_utf8_decode_utf8(a);
    encode_utf8_decode_utf8(b);
}

/// The number of bytes that `c` takes.
fn width(c: char) -> (n: usize)
    ensures
        n == encode_scalar(c as u32).len(),
        1 <= n <= 4,
{
    proof {
        char_is_scalar(c);
    }
    let v = c as u32;
    if v < 0x80 {
        1
    } else if v < 0x800 {
        2
    } else if v < 0x10000 {
        3
    } else {
        4
    }
}

/// A source text together with its characters and the byte at which each
/// of them starts.
pub struct Source<'a> {
    text: &'a str,
    chars: Vec<char>,
    starts: Vec<usize>,
}

impl<'a> Source<'a> {
    #[verifier::type_invariant]
    spec fn wf(self) -> bool {
        &&& self.chars@ == self.text@
        &&& self.starts@.len() == self.chars@.len() + 1
        &&& forall|i: int|
            0 <= i <= self.chars@.len() ==> #[trigger] self.starts@[i] == offset(self.text@, i)
    }

    /// The characters of the text.
    pub closed spec fn view(self) -> Seq<char> {
        self.text@
    }

    /// Reads `text` once, character by character.
    pub fn new(text: &'a str) -> (src: Self)
        ensures
            src@ == text@,
    {
        let total = text.as_bytes().len();
        let mut chars: Vec<char> = Vec::new();
        let mut starts: Vec<usize> = Vec::new();
        let mut at: usize = 0;
        proof {
            assert(text@.take(0) =~= Seq::<char>::empty());
        }
        for c in it: text.chars()
            invariant
                it.seq() == text@,
                total == encode_utf8(text@).len(),
                chars@ == text@.take(it.index()),
                starts@.len() == it.index(),
                at == offset(text@, it.index()),
                forall|i: int| 0 <= i < it.index() ==> #[trigger] starts@[i] == offset(text@, i),
        {
            proof {
                lemma_offset_step(text@, it.index());
                lemma_bytes_split(text@, it.index() + 1);
            }
            chars.push(c);
            starts.push(at);
            at = at + width(c);
        }
        starts.push(at);
        assert(chars@ == text@);
        Source { text, chars, starts }
    }

    /// The number of characters.
    pub fn len(&self) -> (n: usize)
        ensures
            n == self@.len(),
    {
        proof {
            use_type_invariant(self);
        }
        self.chars.len()
    }

    /// The character at `i`.
    pub fn at(&self, i: usize) -> (c: char)
        requires
            i < self@.len(),
        ensures
            c == self@[i as int],
    {
        proof {
            use_type_invariant(self);
        }
        self.chars[i]
    }

    /// The part of the text from character `from` up to `to`, borrowed
    /// from the text.
    pub fn slice(&self, from: usize, to: usize) -> (part: &'a str)
        requires
            from <= to <= self@.len(),
        ensures
            part@ == self@.subrange(from as int, to as int),
    {
        proof {
            use_type_invariant(self);
        }
        let ghost s = self.text@;
        proof {
            lemma_offset_is_boundary(s, to as int);
            lemma_bytes_split(s, to as int);
        }
        let (head, _) = self.text.split_at(self.starts[to]);
        proof {
            lemma_same_bytes(head@, s.take(to as int));
            assert(s.take(to as int).take(from as int) =~= s.take(from as int));
            lemma_offset_is_boundary(head@, from as int);
            lemma_bytes_split(head@, from as int);
        }
        let (_, part) = head.split_at(self.starts[from]);
        proof {
            lemma_same_bytes(part@, head@.skip(from as int));
            assert(s.take(to as int).skip(from as int) =~= s.subrange(from as int, to as int));
        }
        part
    }
}

} // verus!
