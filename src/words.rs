use vstd::prelude::*;
use vstd::string::StringSliceAdditionalSpecFns;
use vstd::utf8::*;

verus! {

/// The UTF-8 encoding of characters that include a space includes the byte
/// of a space.
proof fn lemma_encode_space(c: Seq<char>)
    requires
        c.contains(' '),
    ensures
        encode_utf8(c).contains(32u8),
    decreases c.len(),
{
    let head = encode_scalar(c[0] as u32);
    let tail = c.drop_first();
    assert(encode_utf8(c) == head + encode_utf8(tail));
    if c[0] == ' ' {
        assert(' ' as u32 == 32u32);
        assert((32u32 & 0x7Fu32) as u8 == 32u8) by (bit_vector);
        assert(encode_utf8(c)[0] == 32u8);
    } else {
        let k = choose|k: int| 0 <= k < c.len() && c[k] == ' ';
        assert(tail[k - 1] == ' ');
        lemma_encode_space(tail);
        let q = choose|q: int| 0 <= q < encode_utf8(tail).len() && encode_utf8(tail)[q] == 32u8;
        assert(encode_utf8(c)[head.len() + q] == 32u8);
    }
}

/// The first word of `s`: the characters before its first space, or the
/// whole of `s` when it has none. The result borrows from `s`.
pub fn first_word(s: &str) -> (r: &str)
    ensures
        r@ == s@.take(r@.len() as int),
        !r@.contains(' '),
        r@.len() < s@.len() ==> s@[r@.len() as int] == ' ',
{
    let bytes = s.as_bytes();
    let mut i: usize = 0;
    while i < bytes.len() && bytes[i] != 32u8
        invariant
            i <= bytes@.len(),
            bytes@ == s.spec_bytes(),
            forall|q: int| 0 <= q < i ==> bytes@[q] != 32u8,
        decreases bytes@.len() - i,
    {
        i = i + 1;
    }
    let ghost b = bytes@;
    proof {
        encode_utf8_valid_utf8(s@);
        if i == b.len() {
            is_char_boundary_start_end_of_seq(b);
        } else {
            is_char_boundary_iff_not_is_continuation_byte(b, i as int);
        }
    }
    let (w, _) = s.split_at(i);
    proof {
        encode_utf8_decode_utf8(w@);
        encode_utf8_decode_utf8(s@);
        decode_utf8_split(b, i as int);
        let rb = b.subrange(i as int, b.len() as int);
        assert(s@ =~= w@ + decode_utf8(rb));
        assert(s@.take(w@.len() as int) =~= w@);
        if i < b.len() {
            valid_utf8_split(b, i as int);
            assert(rb[0] == 32u8);
            assert((32u8 & 0x7Fu8) as u32 == 32u32) by (bit_vector);
            assert(decode_first_scalar(rb) == 32u32);
            char_u32_cast(' ', 32u32);
            assert(decode_utf8(rb)[0] == ' ');
        }
        if w@.contains(' ') {
            lemma_encode_space(w@);
            let q = choose|q: int| 0 <= q < encode_utf8(w@).len() && encode_utf8(w@)[q] == 32u8;
            assert(b[q] == 32u8);
        }
    }
    w
}

/// The first word of `s`, as a string of its own.
pub fn first_word_gives_ownership(s: &str) -> (r: String)
    ensures
        r@ == s@.take(r@.len() as int),
        !r@.contains(' '),
        r@.len() < s@.len() ==> s@[r@.len() as int] == ' ',
{
    first_word(s).to_owned()
}

} // verus!
