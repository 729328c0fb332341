//! Byte offsets of characters in UTF-8 text.

use vstd::prelude::*;
use vstd::utf8::*;

verus! {

/// How many bytes the UTF-8 encoding of `c` takes.
pub open spec fn utf8_width(c: char) -> nat {
    if (c as u32) < 0x80 {
        1
    } else if (c as u32) < 0x800 {
        2
    } else if (c as u32) < 0x10000 {
        3
    } else {
        4
    }
}

/// How many bytes the UTF-8 encoding of `chars` takes.
pub open spec fn utf8_len(chars: Seq<char>) -> nat
    decreases chars.len(),
{
    if chars.len() == 0 {
        0
    } else {
        utf8_width(chars[0]) + utf8_len(chars.drop_first())
    }
}

/// The byte offset at which character number `p` of `chars` begins in the
/// UTF-8 encoding of `chars`.
pub open spec fn byte_offset(chars: Seq<char>, p: int) -> nat {
    if 0 <= p <= chars.len() {
        utf8_len(chars.take(p))
    } else {
        0
    }
}

/// `utf8_len` agrees with the length of the encoding that vstd defines.
pub proof fn lemma_utf8_len_is_encoded_len(chars: Seq<char>)
    ensures
        utf8_len(chars) == encode_utf8(chars).len(),
    decreases chars.len(),
{
    if chars.len() > 0 {
        char_is_scalar(chars[0]);
        lemma_utf8_len_is_encoded_len(chars.drop_first());
    }
}

/// Lengths add up over concatenation.
pub proof fn lemma_utf8_len_concat(a: Seq<char>, b: Seq<char>)
    ensures
        utf8_len(a + b) == utf8_len(a) + utf8_len(b),
    decreases a.len(),
{
    if a.len() == 0 {
        assert(a + b =~= b);
    } else {
        assert((a + b).drop_first() =~= a.drop_first() + b);
        lemma_utf8_len_concat(a.drop_first(), b);
    }
}

/// Every character takes at least one byte.
pub proof fn lemma_utf8_len_at_least_len(chars: Seq<char>)
    ensures
        utf8_len(chars) >= chars.len(),
    decreases chars.len(),
{
    if chars.len() > 0 {
        lemma_utf8_len_at_least_len(chars.drop_first());
    }
}

/// The offset of the next character is the offset of this one plus its width.
pub proof fn lemma_byte_offset_step(chars: Seq<char>, p: int)
    requires
        0 <= p < chars.len(),
    ensures
        byte_offset(chars, p + 1) == byte_offset(chars, p) + utf8_width(chars[p]),
{
    let one = seq![chars[p]];
    assert(chars.take(p + 1) =~= chars.take(p) + one);
    lemma_utf8_len_concat(chars.take(p), one);
    assert(one.drop_first() =~= Seq::<char>::empty());
    assert(utf8_len(one) == utf8_width(chars[p]) + utf8_len(one.drop_first()));
}

/// Offsets grow strictly with the position.
pub proof fn lemma_byte_offset_increases(chars: Seq<char>, p: int, q: int)
    requires
        0 <= p < q <= chars.len(),
    ensures
        byte_offset(chars, p) < byte_offset(chars, q),
{
    let mid = chars.subrange(p, q);
    assert(chars.take(q) =~= chars.take(p) + mid);
    lemma_utf8_len_concat(chars.take(p), mid);
    lemma_utf8_len_at_least_len(mid);
}

/// No offset exceeds the length of the encoding.
pub proof fn lemma_byte_offset_bounded(chars: Seq<char>, p: int)
    requires
        0 <= p <= chars.len(),
    ensures
        byte_offset(chars, p) <= encode_utf8(chars).len(),
{
    let rest = chars.subrange(p, chars.len() as int);
    assert(chars =~= chars.take(p) + rest);
    lemma_utf8_len_concat(chars.take(p), rest);
    lemma_utf8_len_is_encoded_len(chars);
}

/// How many bytes the UTF-8 encoding of `c` takes.
pub fn char_width(c: char) -> (w: usize)
    ensures
        w == utf8_width(c),
{
    let v: u32 = c as u32;
    if v < 0x80 {
        1
    } else if v < 0x800 {
        2
    } else if v < 0x10000 {
        3
    } else {
        4
    }
}

} // verus!
