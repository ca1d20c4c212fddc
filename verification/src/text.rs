//! Text as a sequence of characters, and the byte offsets that `str` counts in.

use vstd::prelude::*;

verus! {

/// The number of bytes that `text` takes in UTF-8.
pub open spec fn byte_len(text: Seq<char>) -> nat {
    vstd::utf8::encode_utf8(text).len()
}

/// The encoding of two texts in a row is the two encodings in a row.
pub proof fn lemma_encode_concat(a: Seq<char>, b: Seq<char>)
    ensures
        vstd::utf8::encode_utf8(a + b) == vstd::utf8::encode_utf8(a) + vstd::utf8::encode_utf8(b),
        byte_len(a + b) == byte_len(a) + byte_len(b),
    decreases a.len(),
{
    if a.len() == 0 {
        assert(a + b =~= b);
        assert(vstd::utf8::encode_utf8(a) + vstd::utf8::encode_utf8(b)
            =~= vstd::utf8::encode_utf8(b));
    } else {
        lemma_encode_concat(a.drop_first(), b);
        assert((a + b).drop_first() =~= a.drop_first() + b);
        assert(vstd::utf8::encode_utf8(a + b) =~= vstd::utf8::encode_utf8(a)
            + vstd::utf8::encode_utf8(b));
    }
}

/// Every character takes at least one byte.
pub proof fn lemma_byte_len_covers(text: Seq<char>)
    ensures
        text.len() <= byte_len(text),
    decreases text.len(),
{
    if text.len() > 0 {
        lemma_byte_len_covers(text.drop_first());
    }
}

/// Two texts with the same encoding are the same text.
pub proof fn lemma_encode_injective(a: Seq<char>, b: Seq<char>)
    requires
        vstd::utf8::encode_utf8(a) == vstd::utf8::encode_utf8(b),
    ensures
        a == b,
{
    vstd::utf8::encode_utf8_decode_utf8(a);
    vstd::utf8::encode_utf8_decode_utf8(b);
}

/// The byte offset at which one text ends and the next begins is a character boundary.
proof fn lemma_boundary(a: Seq<char>, b: Seq<char>)
    ensures
        vstd::utf8::is_char_boundary(vstd::utf8::encode_utf8(a + b), byte_len(a) as int),
    decreases a.len(),
{
    let bytes = vstd::utf8::encode_utf8(a + b);
    vstd::utf8::encode_utf8_valid_utf8(a + b);
    lemma_encode_concat(a, b);
    if a.len() > 0 {
        let rest = a.drop_first();
        lemma_boundary(rest, b);
        assert((a + b).drop_first() =~= rest + b);
        vstd::utf8::encode_utf8_first_scalar(a + b);
        assert(vstd::utf8::pop_first_scalar(bytes) =~= vstd::utf8::encode_utf8(rest + b));
    }
}

/// An ASCII character takes one byte.
pub proof fn lemma_one_byte(c: char)
    requires
        c as u32 <= 0x7F,
    ensures
        byte_len(seq![c]) == 1,
{
    reveal_with_fuel(vstd::utf8::encode_utf8, 2);
    let one = seq![c];
    assert(one.drop_first() =~= Seq::<char>::empty());
    assert(vstd::utf8::encode_utf8(one) =~= vstd::utf8::encode_scalar(c as u32));
}

/// The number of bytes that one character takes in UTF-8.
pub fn width(c: char) -> (r: usize)
    ensures
        r == vstd::utf8::encode_scalar(c as u32).len(),
        r == byte_len(seq![c]),
        1 <= r <= 4,
{
    proof {
        let one = seq![c];
        reveal_with_fuel(vstd::utf8::encode_utf8, 2);
        assert(one.drop_first() =~= Seq::<char>::empty());
        assert(vstd::utf8::encode_utf8(one) =~= vstd::utf8::encode_scalar(c as u32));
    }
    let code: u32 = c as u32;
    if code <= 0x7F {
        1
    } else if code <= 0x7FF {
        2
    } else if code <= 0xFFFF {
        3
    } else {
        4
    }
}

/// The number of bytes of `text`.
pub fn size(text: &str) -> (r: usize)
    ensures
        r == byte_len(text@),
{
    text.as_bytes().len()
}

/// The characters of `text`, one after the other.
pub fn chars(text: &str) -> (r: Vec<char>)
    ensures
        r@ == text@,
{
    let mut r: Vec<char> = Vec::new();
    for c in it: text.chars()
        invariant
            it.seq() == text@,
            r@ == text@.take(it.index() as int),
    {
        r.push(c);
        assert(text@.take(it.index() + 1) =~= text@.take(it.index() as int).push(c));
    }
    assert(text@.take(text@.len() as int) =~= text@);
    r
}

/// Whether two texts are the same.
pub fn same(a: &str, b: &str) -> (r: bool)
    ensures
        r == (a@ == b@),
{
    a.to_owned() == b.to_owned()
}

/// What follows `prefix` in `text`, if `text` starts with it.
pub fn strip_prefix<'a>(text: &'a str, prefix: &str) -> (r: Option<&'a str>)
    ensures
        match r {
            Some(rest) => prefix@.is_prefix_of(text@) && rest@ == text@.skip(prefix@.len() as int),
            None => !prefix@.is_prefix_of(text@),
        },
{
    let whole = chars(text);
    let start = chars(prefix);
    let n: usize = start.len();
    if whole.len() < n {
        return None;
    }
    let mut i: usize = 0;
    while i < n
        invariant
            whole@ == text@,
            start@ == prefix@,
            n == prefix@.len() <= text@.len(),
            i <= n,
            forall|j: int| 0 <= j < i ==> text@[j] == prefix@[j],
        decreases n - i,
    {
        if whole[i] != start[i] {
            assert(text@.take(n as int)[i as int] != prefix@[i as int]);
            return None;
        }
        i = i + 1;
    }
    assert(text@.take(n as int) =~= prefix@);
    let (_, rest) = split(text, size(prefix), Ghost(n as int));
    Some(rest)
}

/// Splits `text` in two at the byte offset at which its first `k` characters end.
pub(crate) fn split<'a>(text: &'a str, mid: usize, Ghost(k): Ghost<int>) -> (r: (&'a str, &'a str))
    requires
        0 <= k <= text@.len(),
        mid == byte_len(text@.take(k)),
    ensures
        r.0@ == text@.take(k),
        r.1@ == text@.skip(k),
{
    let ghost a = text@.take(k);
    let ghost b = text@.skip(k);
    proof {
        assert(text@ =~= a + b);
        lemma_boundary(a, b);
        lemma_encode_concat(a, b);
    }
    let r = text.split_at(mid);
    proof {
        let bytes = vstd::utf8::encode_utf8(text@);
        assert(bytes.subrange(0, mid as int) =~= vstd::utf8::encode_utf8(a));
        assert(bytes.subrange(mid as int, bytes.len() as int) =~= vstd::utf8::encode_utf8(b));
        lemma_encode_injective(r.0@, a);
        lemma_encode_injective(r.1@, b);
    }
    r
}

} // verus!
