//! Lengths of text, counted in UTF-8 code units.

use vstd::prelude::*;
use vstd::string::StringSliceAdditionalSpecFns;
use vstd::utf8::*;

verus! {

/// The number of code units that `c` takes in UTF-8.
pub open spec fn char_width(c: char) -> nat {
    encode_scalar(c as u32).len()
}

/// The number of code units that `text` takes in UTF-8.
pub open spec fn width(text: Seq<char>) -> nat {
    encode_utf8(text).len()
}

/// Encoding a concatenation gives the concatenation of the encodings.
pub proof fn lemma_encode_concat(a: Seq<char>, b: Seq<char>)
    ensures
        encode_utf8(a + b) == encode_utf8(a) + encode_utf8(b),
    decreases a.len(),
{
    if a.len() > 0 {
        assert((a + b).drop_first() =~= a.drop_first() + b);
        lemma_encode_concat(a.drop_first(), b);
    }
}

/// Widths add up over concatenation.
pub proof fn lemma_width_concat(a: Seq<char>, b: Seq<char>)
    ensures
        width(a + b) == width(a) + width(b),
{
    lemma_encode_concat(a, b);
}

/// A text of one character is as wide as that character.
pub proof fn lemma_width_single(c: char)
    ensures
        width(seq![c]) == char_width(c),
{
    reveal_with_fuel(encode_utf8, 2);
}

/// Two texts with the same encoding are the same text.
pub proof fn lemma_encode_injective(a: Seq<char>, b: Seq<char>)
    requires
        encode_utf8(a) == encode_utf8(b),
    ensures
        a == b,
{
    encode_utf8_decode_utf8(a);
    encode_utf8_decode_utf8(b);
}

/// The encoding of a text can be cut after the encoding of any of its prefixes.
pub proof fn lemma_prefix_is_boundary(a: Seq<char>, b: Seq<char>)
    ensures
        is_char_boundary(encode_utf8(a + b), width(a) as int),
    decreases a.len(),
{
    let text = a + b;
    let bytes = encode_utf8(text);
    encode_utf8_valid_utf8(text);
    if a.len() > 0 {
        encode_utf8_first_scalar(text);
        assert(text.drop_first() =~= a.drop_first() + b);
        assert(pop_first_scalar(bytes) =~= encode_utf8(text.drop_first()));
        lemma_prefix_is_boundary(a.drop_first(), b);
    }
}

/// The number of code units that `c` takes in UTF-8.
pub fn char_width_of(c: char) -> (n: usize)
    ensures
        n == char_width(c),
        1 <= n <= 4,
{
    let scalar: u32 = c as u32;
    if scalar < 0x80 {
        1
    } else if scalar < 0x800 {
        2
    } else if scalar < 0x1_0000 {
        3
    } else {
        4
    }
}

/// The number of code units that `text` takes in UTF-8.
pub fn width_of(text: &str) -> (n: usize)
    ensures
        n == width(text@),
{
    text.as_bytes().len()
}

/// Cuts `text` in two after its first `k` characters, which take `mid` code units.
pub(crate) fn cut<'a>(text: &'a str, Ghost(k): Ghost<int>, mid: usize) -> (parts: (
    &'a str,
    &'a str,
))
    requires
        0 <= k <= text@.len(),
        mid == width(text@.take(k)),
    ensures
        parts.0@ == text@.take(k),
        parts.1@ == text@.skip(k),
{
    let ghost head = text@.take(k);
    let ghost tail = text@.skip(k);
    proof {
        assert(text@ =~= head + tail);
        lemma_prefix_is_boundary(head, tail);
        lemma_encode_concat(head, tail);
    }
    let parts = text.split_at(mid);
    proof {
        assert(parts.0.spec_bytes() =~= encode_utf8(head));
        assert(parts.1.spec_bytes() =~= encode_utf8(tail));
        lemma_encode_injective(parts.0@, head);
        lemma_encode_injective(parts.1@, tail);
    }
    parts
}

} // verus!
