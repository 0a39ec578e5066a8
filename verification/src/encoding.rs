//! Facts about UTF-8 that let a search on the bytes of a text speak of its
//! characters: an ASCII byte in well-formed UTF-8 always is a character of its own.
use vstd::prelude::*;
use vstd::utf8::*;

verus! {

/// The character that an ASCII byte encodes.
pub open spec fn ascii(b: u8) -> char {
    b as char
}

proof fn lemma_width_1_byte(v: u32)
    by (bit_vector)
    requires
        v <= 0x7f,
    ensures
        (v & 0x7f) as u8 == v as u8,
        (v & 0x7f) as u8 <= 0x7f,
{
}

proof fn lemma_byte_codepoint(b: u8)
    by (bit_vector)
    requires
        b <= 0x7f,
    ensures
        (b & 0x7f) as u32 == b as u32,
{
}

/// The encoding of an ASCII character is the one byte of its number.
pub proof fn lemma_encode_ascii(b: u8)
    requires
        b < 0x80,
    ensures
        encode_utf8(seq![ascii(b)]) == seq![b],
{
    let c = ascii(b);
    let s = seq![c];
    lemma_width_1_byte(c as u32);
    assert(encode_scalar(c as u32) == seq![b]);
    assert(s.drop_first() =~= Seq::<char>::empty());
    assert(encode_utf8(s.drop_first()) =~= Seq::<u8>::empty());
    assert(encode_utf8(s) =~= seq![b]);
}

/// Encoding goes through concatenation.
pub proof fn lemma_encode_concat(x: Seq<char>, y: Seq<char>)
    ensures
        encode_utf8(x + y) == encode_utf8(x) + encode_utf8(y),
    decreases x.len(),
{
    if x.len() == 0 {
        assert(x + y =~= y);
        assert(encode_utf8(x) + encode_utf8(y) =~= encode_utf8(y));
    } else {
        assert((x + y).drop_first() =~= x.drop_first() + y);
        assert((x + y)[0] == x[0]);
        lemma_encode_concat(x.drop_first(), y);
        assert(encode_utf8(x + y) =~= encode_utf8(x) + encode_utf8(y));
    }
}

/// Two texts with the same encoding are the same text.
pub proof fn lemma_encode_injective(x: Seq<char>, y: Seq<char>)
    requires
        encode_utf8(x) == encode_utf8(y),
    ensures
        x == y,
{
    encode_utf8_decode_utf8(x);
    encode_utf8_decode_utf8(y);
}

/// A text is empty exactly when its encoding is.
pub proof fn lemma_encode_empty(t: Seq<char>)
    ensures
        encode_utf8(t).len() == 0 <==> t.len() == 0,
{
    if t.len() > 0 {
        encode_utf8_first_scalar(t);
    }
}

/// The first byte of an encoding is an ASCII byte exactly when the first
/// character is that ASCII character.
pub proof fn lemma_first_byte(t: Seq<char>, b: u8)
    requires
        t.len() > 0,
        b < 0x80,
    ensures
        encode_utf8(t).len() > 0,
        encode_utf8(t)[0] == b <==> t[0] == ascii(b),
{
    let v = t[0] as u32;
    char_is_scalar(t[0]);
    char_u32_cast(t[0], v);
    encode_utf8_first_scalar(t);
    let bytes = encode_utf8(t);
    assert(bytes.len() > 0);
    if bytes[0] == b {
        lemma_byte_codepoint(b);
        assert(decode_first_scalar(bytes) == b as u32);
        assert(v == b as u32);
        assert(t[0] == ascii(b));
    }
    if t[0] == ascii(b) {
        lemma_width_1_byte(v);
        assert(encode_scalar(v)[0] == b);
        assert(bytes[0] == b);
    }
}

/// An ASCII character of a text shows as its byte in the encoding.
pub proof fn lemma_ascii_char_in_bytes(s: Seq<char>, b: u8)
    requires
        b < 0x80,
        s.contains(ascii(b)),
    ensures
        encode_utf8(s).contains(b),
    decreases s.len(),
{
    let j = choose|j: int| 0 <= j < s.len() && s[j] == ascii(b);
    let bytes = encode_utf8(s);
    if j == 0 {
        lemma_first_byte(s, b);
        assert(bytes[0] == b);
    } else {
        let rest = s.drop_first();
        assert(rest[j - 1] == ascii(b));
        lemma_ascii_char_in_bytes(rest, b);
        let k = choose|k: int| 0 <= k < encode_utf8(rest).len() && encode_utf8(rest)[k] == b;
        let head = encode_scalar(s[0] as u32);
        assert(bytes =~= head + encode_utf8(rest));
        assert(bytes[head.len() + k] == b);
    }
}

/// The place where the encoding of a first part ends starts a character of the
/// whole, or ends it.
pub proof fn lemma_boundary_at_concat(x: Seq<char>, y: Seq<char>)
    ensures
        is_char_boundary(encode_utf8(x + y), encode_utf8(x).len() as int),
    decreases x.len(),
{
    let bytes = encode_utf8(x + y);
    encode_utf8_valid_utf8(x + y);
    if x.len() > 0 {
        let rest = x.drop_first();
        assert((x + y).drop_first() =~= rest + y);
        assert((x + y)[0] == x[0]);
        encode_utf8_first_scalar(x + y);
        lemma_encode_concat(x, y);
        lemma_boundary_at_concat(rest, y);
        assert(pop_first_scalar(bytes) =~= encode_utf8(rest + y));
        assert(encode_utf8(x).len() == encode_scalar(x[0] as u32).len() + encode_utf8(rest).len());
    }
}

/// A well-formed start of well-formed bytes ends where a character starts, or
/// at the end.
pub proof fn lemma_boundary_at_prefix(bytes: Seq<u8>, k: int)
    requires
        valid_utf8(bytes),
        0 <= k <= bytes.len(),
        valid_utf8(bytes.subrange(0, k)),
    ensures
        is_char_boundary(bytes, k),
    decreases bytes.len(),
{
    if k > 0 {
        let start = bytes.subrange(0, k);
        let n = length_of_first_scalar(bytes);
        assert(start[0] == bytes[0]);
        assert(n == length_of_first_scalar(start));
        assert(n <= k);
        assert(pop_first_scalar(bytes).subrange(0, k - n) =~= pop_first_scalar(start));
        lemma_boundary_at_prefix(pop_first_scalar(bytes), k - n);
    }
}

/// Where an encoding starts with `k` ASCII bytes, these are the first `k`
/// characters, and the bytes after them encode the characters after them.
pub proof fn lemma_ascii_start(t: Seq<char>, k: int)
    requires
        0 <= k <= encode_utf8(t).len(),
        forall|i: int| 0 <= i < k ==> encode_utf8(t)[i] < 0x80,
    ensures
        k <= t.len(),
        forall|i: int| 0 <= i < k ==> #[trigger] t[i] == ascii(encode_utf8(t)[i]),
        encode_utf8(t.skip(k)) == encode_utf8(t).skip(k),
    decreases k,
{
    let bytes = encode_utf8(t);
    if k == 0 {
        assert(t.skip(0) =~= t);
        assert(bytes.skip(0) =~= bytes);
    } else {
        lemma_encode_empty(t);
        let first = bytes[0];
        let rest = t.drop_first();
        lemma_first_byte(t, first);
        assert(t =~= seq![ascii(first)] + rest);
        lemma_encode_ascii(first);
        lemma_encode_concat(seq![ascii(first)], rest);
        assert(bytes =~= seq![first] + encode_utf8(rest));
        assert forall|i: int| 0 <= i < k - 1 implies encode_utf8(rest)[i] < 0x80 by {
            assert(encode_utf8(rest)[i] == bytes[i + 1]);
        }
        lemma_ascii_start(rest, k - 1);
        assert forall|i: int| 0 <= i < k implies #[trigger] t[i] == ascii(bytes[i]) by {
            if i > 0 {
                assert(t[i] == rest[i - 1]);
                assert(bytes[i] == encode_utf8(rest)[i - 1]);
            }
        }
        assert(t.skip(k) =~= rest.skip(k - 1));
        assert(bytes.skip(k) =~= encode_utf8(rest).skip(k - 1));
    }
}

} // verus!
