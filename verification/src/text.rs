//! String primitives: prefix test, search for a delimiter, and splitting a
//! string slice at a character position that is known by its byte offset.
//!
//! A string slice is read as its sequence of characters. The functions here
//! work on its bytes, and are proved to do to the characters what they say:
//! UTF-8 never puts a byte below 128 inside the encoding of another
//! character, and one text begins with another exactly where its bytes do.

use vstd::prelude::*;
use vstd::string::*;
use vstd::utf8::*;

verus! {

/// The number of characters of `s` that stand before the first occurrence of
/// `a` or `b`; the length of `s` where neither occurs.
pub open spec fn first_of(s: Seq<char>, a: char, b: char) -> int
    decreases s.len(),
{
    if s.len() == 0 || s[0] == a || s[0] == b {
        0
    } else {
        1 + first_of(s.drop_first(), a, b)
    }
}

/// The number of bytes that the first `k` characters of `s` take in UTF-8.
pub open spec fn byte_offset(s: Seq<char>, k: int) -> int {
    encode_utf8(s.take(k)).len() as int
}

/// `first_of` is a position in `s`, no character before it is `a` or `b`, and
/// the character at it, if there is one, is.
pub proof fn lemma_first_of(s: Seq<char>, a: char, b: char)
    ensures
        0 <= first_of(s, a, b) <= s.len(),
        forall|j: int| 0 <= j < first_of(s, a, b) ==> s[j] != a && s[j] != b,
        first_of(s, a, b) < s.len() ==> s[first_of(s, a, b)] == a || s[first_of(s, a, b)] == b,
    decreases s.len(),
{
    if s.len() == 0 || s[0] == a || s[0] == b {
    } else {
        let t = s.drop_first();
        lemma_first_of(t, a, b);
        assert forall|j: int| 0 <= j < first_of(s, a, b) implies s[j] != a && s[j] != b by {
            if j > 0 {
                assert(s[j] == t[j - 1]);
            }
        }
    }
}

/// Encoding distributes over concatenation.
pub proof fn lemma_encode_concat(a: Seq<char>, b: Seq<char>)
    ensures
        encode_utf8(a + b) =~= encode_utf8(a) + encode_utf8(b),
    decreases a.len(),
{
    if a.len() == 0 {
        assert(a + b =~= b);
    } else {
        assert((a + b).drop_first() =~= a.drop_first() + b);
        lemma_encode_concat(a.drop_first(), b);
    }
}

/// The end of an encoded prefix is a character boundary of the whole encoding.
pub proof fn lemma_boundary_after_prefix(a: Seq<char>, b: Seq<char>)
    ensures
        is_char_boundary(encode_utf8(a + b), encode_utf8(a).len() as int),
    decreases a.len(),
{
    let whole = encode_utf8(a + b);
    encode_utf8_valid_utf8(a + b);
    if a.len() == 0 {
    } else {
        let rest = a.drop_first();
        assert((a + b).drop_first() =~= rest + b);
        encode_utf8_first_scalar(a + b);
        assert(pop_first_scalar(whole) =~= encode_utf8(rest + b));
        lemma_boundary_after_prefix(rest, b);
        assert(encode_utf8(a).len() == encode_scalar(a[0] as u32).len() + encode_utf8(rest).len());
        assert(encode_utf8(a).len() > 0);
        lemma_encode_concat(a, b);
    }
}

/// Two character sequences with the same encoding are equal.
pub proof fn lemma_encode_injective(a: Seq<char>, b: Seq<char>)
    requires
        encode_utf8(a) == encode_utf8(b),
    ensures
        a == b,
{
    encode_utf8_decode_utf8(a);
    encode_utf8_decode_utf8(b);
}

/// One text begins with another exactly where its bytes begin with the
/// other's bytes.
pub proof fn lemma_prefix_by_bytes(prefix: Seq<char>, s: Seq<char>)
    ensures
        prefix.is_prefix_of(s) <==> encode_utf8(prefix).is_prefix_of(encode_utf8(s)),
    decreases prefix.len(),
{
    let front = encode_utf8(prefix);
    let whole = encode_utf8(s);
    if prefix.is_prefix_of(s) {
        assert(s =~= prefix + s.skip(prefix.len() as int));
        lemma_encode_concat(prefix, s.skip(prefix.len() as int));
    }
    if front.is_prefix_of(whole) && prefix.len() > 0 {
        encode_utf8_first_scalar(prefix);
        let width = encode_scalar(prefix[0] as u32).len() as int;
        assert(front.len() == width + encode_utf8(prefix.drop_first()).len());
        assert(s.len() > 0);
        encode_utf8_first_scalar(s);
        assert forall|i: int| 0 <= i < width implies whole[i] == front[i] by {
            assert(front[i] == whole.subrange(0, front.len() as int)[i]);
        }
        assert(decode_first_scalar(whole) == decode_first_scalar(front));
        char_u32_cast(s[0], s[0] as u32);
        char_u32_cast(prefix[0], prefix[0] as u32);
        assert(s[0] == prefix[0]);
        assert(encode_utf8(prefix.drop_first()) =~= front.skip(width));
        assert(encode_utf8(s.drop_first()) =~= whole.skip(width));
        assert(front.skip(width).is_prefix_of(whole.skip(width))) by {
            assert(front.skip(width) =~= whole.skip(width).subrange(
                0,
                front.skip(width).len() as int,
            )) by {
                assert forall|i: int| 0 <= i < front.len() - width implies front.skip(width)[i]
                    == whole.skip(width)[i] by {
                    assert(front[i + width] == whole.subrange(0, front.len() as int)[i + width]);
                }
            }
        }
        lemma_prefix_by_bytes(prefix.drop_first(), s.drop_first());
        assert(prefix =~= s.subrange(0, prefix.len() as int)) by {
            assert forall|i: int| 0 <= i < prefix.len() implies prefix[i] == s[i] by {
                if i > 0 {
                    assert(prefix.drop_first()[i - 1] == s.drop_first().subrange(
                        0,
                        prefix.len() - 1,
                    )[i - 1]);
                }
            }
        }
    }
}

/// Reports whether `s` begins with `prefix`.
pub(crate) fn starts_with(s: &str, prefix: &str) -> (r: bool)
    ensures
        r == prefix@.is_prefix_of(s@),
{
    let whole = s.as_bytes();
    let front = prefix.as_bytes();
    proof {
        lemma_prefix_by_bytes(prefix@, s@);
    }
    if front.len() > whole.len() {
        return false;
    }
    let mut i: usize = 0;
    while i < front.len()
        invariant
            0 <= i <= front@.len() <= whole@.len(),
            forall|j: int| 0 <= j < i ==> whole@[j] == front@[j],
            prefix@.is_prefix_of(s@) <==> front@.is_prefix_of(whole@),
        decreases front@.len() - i,
    {
        if whole[i] != front[i] {
            assert(front@[i as int] != whole@.subrange(0, front@.len() as int)[i as int]);
            return false;
        }
        i += 1;
    }
    assert(front@ =~= whole@.subrange(0, front@.len() as int));
    true
}

/// A byte with its highest bit set by the mask is not below 128.
proof fn lemma_high_bytes(low: u8)
    by (bit_vector)
    ensures
        0x80u8 | low >= 0x80,
        0xC0u8 | low >= 0x80,
        0xE0u8 | low >= 0x80,
        0xF0u8 | low >= 0x80,
{
}

/// A scalar value below 128 is its own byte.
proof fn lemma_low_byte(scalar: u32)
    by (bit_vector)
    requires
        scalar <= 0x7F,
    ensures
        (scalar & 0x7F) as u8 == scalar as u8,
        (scalar as u8) as u32 == scalar,
{
}

/// The bytes of a character: one byte below 128 with the character's own
/// value, or bytes from 128 on alone.
pub proof fn lemma_bytes_of_char(c: char)
    ensures
        c as u32 <= 0x7F ==> encode_scalar(c as u32) =~= seq![c as u8],
        c as u32 > 0x7F ==> forall|i: int|
            0 <= i < encode_scalar(c as u32).len() ==> #[trigger] encode_scalar(c as u32)[i]
                >= 0x80,
        encode_scalar(c as u32).len() > 0,
{
    let scalar = c as u32;
    char_is_scalar(c);
    if scalar <= 0x7F {
        lemma_low_byte(scalar);
    } else {
        lemma_high_bytes((scalar & 0x3F) as u8);
        lemma_high_bytes(((scalar >> 6) & 0x3F) as u8);
        lemma_high_bytes(((scalar >> 12) & 0x3F) as u8);
        lemma_high_bytes(((scalar >> 6) & 0x1F) as u8);
        lemma_high_bytes(((scalar >> 12) & 0x0F) as u8);
        lemma_high_bytes(((scalar >> 18) & 0x7) as u8);
    }
}

/// Where the first `a` or `b` stands among the bytes of `s`, for `a` and `b`
/// below 128: no byte before the offset of `first_of` is one of the two, and
/// the byte at it, if there is one, is.
pub proof fn lemma_first_of_bytes(s: Seq<char>, a: char, b: char)
    requires
        a as u32 <= 0x7F,
        b as u32 <= 0x7F,
    ensures
        0 <= byte_offset(s, first_of(s, a, b)) <= encode_utf8(s).len(),
        forall|j: int|
            0 <= j < byte_offset(s, first_of(s, a, b)) ==> (#[trigger] encode_utf8(s)[j]) != a as u8
                && encode_utf8(s)[j] != b as u8,
        first_of(s, a, b) < s.len() ==> byte_offset(s, first_of(s, a, b)) < encode_utf8(s).len()
            && (encode_utf8(s)[byte_offset(s, first_of(s, a, b))] == a as u8 || encode_utf8(
            s,
        )[byte_offset(s, first_of(s, a, b))] == b as u8),
        first_of(s, a, b) == s.len() ==> byte_offset(s, first_of(s, a, b)) == encode_utf8(s).len(),
    decreases s.len(),
{
    let k = first_of(s, a, b);
    let bytes = encode_utf8(s);
    lemma_first_of(s, a, b);
    lemma_low_byte(a as u32);
    lemma_low_byte(b as u32);
    if s.len() == 0 {
        assert(s.take(0) =~= Seq::<char>::empty());
    } else if s[0] == a || s[0] == b {
        assert(s.take(0) =~= Seq::<char>::empty());
        lemma_bytes_of_char(s[0]);
    } else {
        let tail = s.drop_first();
        let first = encode_scalar(s[0] as u32);
        lemma_first_of_bytes(tail, a, b);
        lemma_bytes_of_char(s[0]);
        assert(s.take(k) =~= seq![s[0]] + tail.take(k - 1));
        lemma_encode_concat(seq![s[0]], tail.take(k - 1));
        lemma_encode_one(s[0]);
        assert(byte_offset(s, k) == first.len() + byte_offset(tail, k - 1));
        assert forall|j: int| 0 <= j < byte_offset(s, k) implies (#[trigger] bytes[j]) != a as u8
            && bytes[j] != b as u8 by {
            if j < first.len() {
                assert(bytes[j] == first[j]);
                if s[0] as u32 <= 0x7F {
                    lemma_low_byte(s[0] as u32);
                    char_u32_cast(s[0], s[0] as u32);
                    char_u32_cast(a, a as u32);
                    char_u32_cast(b, b as u32);
                }
            } else {
                assert(bytes[j] == encode_utf8(tail)[j - first.len()]);
            }
        }
        if k < s.len() {
            assert(bytes[byte_offset(s, k)] == encode_utf8(tail)[byte_offset(tail, k - 1)]);
        }
    }
}

/// The byte offset of the first `a` or `b` in `s`, for `a` and `b` below 128.
pub(crate) fn find_either(s: &str, a: char, b: char) -> (r: Option<usize>)
    requires
        a as u32 <= 0x7F,
        b as u32 <= 0x7F,
    ensures
        first_of(s@, a, b) == s@.len() ==> r is None,
        first_of(s@, a, b) < s@.len() ==> r is Some && r->0 == byte_offset(
            s@,
            first_of(s@, a, b),
        ),
{
    let bytes = s.as_bytes();
    let first = a as u8;
    let second = b as u8;
    proof {
        lemma_first_of(s@, a, b);
        lemma_first_of_bytes(s@, a, b);
    }
    let ghost at = byte_offset(s@, first_of(s@, a, b));
    let mut i: usize = 0;
    while i < bytes.len()
        invariant
            0 <= i <= bytes@.len(),
            bytes@ == encode_utf8(s@),
            first == a as u8,
            second == b as u8,
            at == byte_offset(s@, first_of(s@, a, b)),
            0 <= at <= bytes@.len(),
            0 <= first_of(s@, a, b) <= s@.len(),
            forall|j: int| 0 <= j < at ==> (#[trigger] bytes@[j]) != first && bytes@[j] != second,
            first_of(s@, a, b) < s@.len() ==> at < bytes@.len() && (bytes@[at] == first
                || bytes@[at] == second),
            first_of(s@, a, b) == s@.len() ==> at == bytes@.len(),
            i <= at,
        decreases bytes@.len() - i,
    {
        if bytes[i] == first || bytes[i] == second {
            return Some(i);
        }
        i += 1;
    }
    None
}

/// The bytes of one character are those of its scalar value.
pub proof fn lemma_encode_one(c: char)
    ensures
        encode_utf8(seq![c]) =~= encode_scalar(c as u32),
{
    reveal_with_fuel(encode_utf8, 2);
    assert(seq![c].drop_first() =~= Seq::<char>::empty());
}

/// The number of bytes that `c` takes in UTF-8.
pub(crate) fn utf8_width(c: char) -> (r: usize)
    ensures
        r == encode_utf8(seq![c]).len(),
{
    proof {
        lemma_encode_one(c);
        char_is_scalar(c);
    }
    let scalar = c as u32;
    if scalar < 0x80 {
        1
    } else if scalar < 0x800 {
        2
    } else if scalar < 0x10000 {
        3
    } else {
        4
    }
}

/// Splits `s` after its first `k` characters, which take `n` bytes.
pub(crate) fn split_after<'a>(s: &'a str, n: usize, Ghost(k): Ghost<int>) -> (r: (&'a str, &'a str))
    requires
        0 <= k <= s@.len(),
        n == byte_offset(s@, k),
    ensures
        r.0@ == s@.take(k),
        r.1@ == s@.skip(k),
{
    let ghost head = s@.take(k);
    let ghost tail = s@.skip(k);
    proof {
        assert(s@ =~= head + tail);
        lemma_boundary_after_prefix(head, tail);
        lemma_encode_concat(head, tail);
    }
    let r = s.split_at(n);
    proof {
        assert(r.0.spec_bytes() =~= encode_utf8(head));
        assert(r.1.spec_bytes() =~= encode_utf8(tail));
        lemma_encode_injective(r.0@, head);
        lemma_encode_injective(r.1@, tail);
    }
    r
}

/// Takes the first character off `s`.
pub(crate) fn split_first<'a>(s: &'a str) -> (r: (char, &'a str))
    requires
        s@.len() > 0,
    ensures
        r.0 == s@[0],
        r.1@ == s@.skip(1),
{
    let c = s.get_char(0);
    let n = utf8_width(c);
    assert(s@.take(1) =~= seq![c]);
    let (_, rest) = split_after(s, n, Ghost(1));
    (c, rest)
}

} // verus!
