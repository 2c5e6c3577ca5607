//! UTF-8 facts and helpers shared by normalization, masking and the PHP layer.

use vstd::prelude::*;
use vstd::utf8::*;

verus! {

broadcast use vstd::seq_lib::group_seq_properties;

/// Number of UTF-8 bytes of a character sequence.
pub open spec fn utf8_len(s: Seq<char>) -> int {
    encode_utf8(s).len() as int
}

/// The UTF-8 encoding of one character.
pub open spec fn char_bytes(c: char) -> Seq<u8> {
    encode_scalar(c as u32)
}

/// Encoding a sequence with one more character appends that character's bytes.
pub proof fn lemma_encode_utf8_push(s: Seq<char>, c: char)
    ensures
        encode_utf8(s.push(c)) == encode_utf8(s) + char_bytes(c),
    decreases s.len(),
{
    if s.len() == 0 {
        assert(s.push(c).drop_first() =~= Seq::<char>::empty());
        assert(encode_utf8(s.push(c)) =~= encode_utf8(s) + char_bytes(c));
    } else {
        lemma_encode_utf8_push(s.drop_first(), c);
        assert(s.push(c).drop_first() =~= s.drop_first().push(c));
        assert(encode_utf8(s.push(c)) =~= encode_utf8(s) + char_bytes(c));
    }
}

/// Encoding distributes over concatenation.
pub proof fn lemma_encode_utf8_concat(a: Seq<char>, b: Seq<char>)
    ensures
        encode_utf8(a + b) == encode_utf8(a) + encode_utf8(b),
    decreases a.len(),
{
    if a.len() == 0 {
        assert(a + b =~= b);
        assert(encode_utf8(a + b) =~= encode_utf8(a) + encode_utf8(b));
    } else {
        lemma_encode_utf8_concat(a.drop_first(), b);
        assert((a + b).drop_first() =~= a.drop_first() + b);
        assert(encode_utf8(a + b) =~= encode_utf8(a) + encode_utf8(b));
    }
}

/// A character encodes to between one and four bytes.
pub proof fn lemma_char_bytes_len(c: char)
    ensures
        1 <= char_bytes(c).len() <= 4,
{
}

/// Encoding never shrinks a prefix: longer prefixes have longer encodings.
pub proof fn lemma_utf8_len_take_monotone(s: Seq<char>, i: int, j: int)
    requires
        0 <= i <= j <= s.len(),
    ensures
        utf8_len(s.take(i)) <= utf8_len(s.take(j)),
        i < j ==> utf8_len(s.take(i)) < utf8_len(s.take(j)),
        utf8_len(s.take(j)) <= utf8_len(s),
{
    assert(s.take(j) =~= s.take(i) + s.subrange(i, j));
    lemma_encode_utf8_concat(s.take(i), s.subrange(i, j));
    assert(s =~= s.take(j) + s.skip(j));
    lemma_encode_utf8_concat(s.take(j), s.skip(j));
    if i < j {
        let mid = s.subrange(i, j);
        assert(mid =~= seq![mid[0]] + mid.drop_first());
        lemma_encode_utf8_concat(seq![mid[0]], mid.drop_first());
        assert(seq![mid[0]].drop_first() =~= Seq::<char>::empty());
        lemma_char_bytes_len(mid[0]);
    }
}

/// The end of the encoding of any prefix is a character boundary of the whole encoding.
pub proof fn lemma_prefix_is_char_boundary(s: Seq<char>, k: int)
    requires
        0 <= k <= s.len(),
    ensures
        is_char_boundary(encode_utf8(s), utf8_len(s.take(k))),
    decreases k,
{
    broadcast use encode_utf8_valid_utf8;

    let bytes = encode_utf8(s);
    if k == 0 {
        assert(s.take(0) =~= Seq::<char>::empty());
    } else {
        encode_utf8_first_scalar(s);
        let rest = s.drop_first();
        assert(pop_first_scalar(bytes) =~= encode_utf8(rest));
        lemma_prefix_is_char_boundary(rest, k - 1);
        assert(s.take(k) =~= seq![s[0]] + rest.take(k - 1));
        lemma_encode_utf8_concat(seq![s[0]], rest.take(k - 1));
        assert(seq![s[0]].drop_first() =~= Seq::<char>::empty());
        assert(encode_utf8(seq![s[0]]) =~= char_bytes(s[0]));
        lemma_utf8_len_take_monotone(s, 0, k);
        assert(s.take(0) =~= Seq::<char>::empty());
    }
}

/// A boundary of a valid sequence that lies at or after `a` (itself a
/// boundary) is a boundary of the suffix that starts at `a`.
pub proof fn lemma_boundary_in_suffix(bytes: Seq<u8>, a: int, b: int)
    requires
        valid_utf8(bytes),
        0 <= a <= b <= bytes.len(),
        is_char_boundary(bytes, a),
        is_char_boundary(bytes, b),
    ensures
        valid_utf8(bytes.subrange(a, bytes.len() as int)),
        is_char_boundary(bytes.subrange(a, bytes.len() as int), b - a),
{
    valid_utf8_split(bytes, a);
    let sub = bytes.subrange(a, bytes.len() as int);
    if b == bytes.len() {
        is_char_boundary_start_end_of_seq(sub);
    } else {
        is_char_boundary_iff_not_is_continuation_byte(bytes, b);
        assert(sub[b - a] == bytes[b]);
        is_char_boundary_iff_not_is_continuation_byte(sub, b - a);
    }
}

/// The bytes `[start, end)` of `text`, which lie between character boundaries.
pub fn slice_str(text: &str, start: usize, end: usize) -> (r: &str)
    requires
        start <= end <= encode_utf8(text@).len(),
        is_char_boundary(encode_utf8(text@), start as int),
        is_char_boundary(encode_utf8(text@), end as int),
    ensures
        encode_utf8(r@) == encode_utf8(text@).subrange(start as int, end as int),
{
    let ghost bytes = encode_utf8(text@);
    proof {
        encode_utf8_valid_utf8(text@);
        lemma_boundary_in_suffix(bytes, start as int, end as int);
    }
    let (_, rest) = text.split_at(start);
    let (piece, _) = rest.split_at(end - start);
    assert(encode_utf8(piece@) =~= bytes.subrange(start as int, end as int));
    piece
}

/// The number of UTF-8 bytes that encode `c`.
pub fn char_utf8_len(c: char) -> (n: usize)
    ensures
        n == char_bytes(c).len(),
{
    let v = c as u32;
    if v <= 0x7F {
        1
    } else if v <= 0x7FF {
        2
    } else if v <= 0xFFFF {
        3
    } else {
        4
    }
}

/// Appends the UTF-8 encoding of `c` to `out`.
pub fn push_utf8(out: &mut Vec<u8>, c: char)
    ensures
        final(out)@ == old(out)@ + char_bytes(c),
{
    proof {
        char_is_scalar(c);
    }
    let v = c as u32;
    if v <= 0x7F {
        out.push((v & 0x7F) as u8);
    } else if v <= 0x7FF {
        out.push(0xC0 | ((v >> 6) & 0x1F) as u8);
        out.push(0x80 | (v & 0x3F) as u8);
    } else if v <= 0xFFFF {
        out.push(0xE0 | ((v >> 12) & 0x0F) as u8);
        out.push(0x80 | ((v >> 6) & 0x3F) as u8);
        out.push(0x80 | (v & 0x3F) as u8);
    } else {
        out.push(0xF0 | ((v >> 18) & 0x7) as u8);
        out.push(0x80 | ((v >> 12) & 0x3F) as u8);
        out.push(0x80 | ((v >> 6) & 0x3F) as u8);
        out.push(0x80 | (v & 0x3F) as u8);
    }
    assert(final(out)@ =~= old(out)@ + char_bytes(c));
}

/// `String::push`: appends one character.
#[verifier::external_body]
pub(crate) fn push_char(s: &mut String, c: char)
    ensures
        final(s)@ == old(s)@.push(c),
{
    s.push(c);
}

} // verus!
