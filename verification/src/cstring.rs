use vstd::prelude::*;
use vstd::string::StringSliceAdditionalSpecFns;
use vstd::utf8::{encode_scalar, encode_utf8, is_scalar, char_is_scalar};

verus! {

/// Whether a byte sequence holds a zero byte.
pub open spec fn has_zero_byte(b: Seq<u8>) -> bool {
    exists|i: int| 0 <= i < b.len() && b[i] == 0
}

/// The bytes of a C string that holds `s`: the UTF-8 encoding of `s`
/// followed by one zero byte.
pub open spec fn c_string_bytes(s: Seq<char>) -> Seq<u8> {
    encode_utf8(s).push(0u8)
}

/// Returns the bytes of a C string for `s`: its UTF-8 bytes and a
/// terminating zero byte. The bytes of `s` are taken as they are, zero
/// bytes included.
pub fn str_to_cstring(s: &str) -> (r: Vec<u8>)
    ensures
        r@ == c_string_bytes(s@),
{
    let bytes = s.as_bytes();
    let mut v: Vec<u8> = Vec::new();
    let mut i: usize = 0;
    while i < bytes.len()
        invariant
            i <= bytes.len(),
            v@ == bytes@.subrange(0, i as int),
        decreases bytes.len() - i,
    {
        v.push(bytes[i]);
        i = i + 1;
    }
    v.push(0u8);
    assert(bytes@.subrange(0, bytes@.len() as int) == bytes@);
    v
}

proof fn lemma_scalar_zero_byte(v: u32)
    requires
        is_scalar(v),
    ensures
        has_zero_byte(encode_scalar(v)) <==> v == 0,
{
    let e = encode_scalar(v);
    if v <= 0x7F {
        assert(((v & 0x7F) as u8 == 0) <==> v == 0) by (bit_vector)
            requires
                v <= 0x7F,
        ;
        assert(e[0] == (v & 0x7F) as u8);
    } else {
        assert forall|x: u8| #![auto] (0xC0u8 | x) != 0 && (0x80u8 | x) != 0 && (0xE0u8 | x) != 0
            && (0xF0u8 | x) != 0 by {
            assert((0xC0u8 | x) != 0 && (0x80u8 | x) != 0 && (0xE0u8 | x) != 0 && (0xF0u8 | x)
                != 0) by (bit_vector);
        }
        assert(!has_zero_byte(e));
    }
}

proof fn lemma_encode_zero_byte(s: Seq<char>)
    ensures
        has_zero_byte(encode_utf8(s)) <==> s.contains('\0'),
    decreases s.len(),
{
    if s.len() > 0 {
        let head = encode_scalar(s[0] as u32);
        let tail = encode_utf8(s.drop_first());
        char_is_scalar(s[0]);
        lemma_scalar_zero_byte(s[0] as u32);
        lemma_encode_zero_byte(s.drop_first());
        let all = encode_utf8(s);
        assert(all == head + tail);
        assert((s[0] as u32 == 0) <==> s[0] == '\0') by {
            vstd::utf8::char_u32_cast(s[0], s[0] as u32);
        }
        if has_zero_byte(all) {
            let i = choose|i: int| 0 <= i < all.len() && all[i] == 0;
            if i < head.len() {
                assert(head[i] == 0);
                assert(s[0] == '\0');
            } else {
                assert(tail[i - head.len()] == 0);
                let k = choose|k: int| 0 <= k < s.drop_first().len() && s.drop_first()[k] == '\0';
                assert(s[k + 1] == '\0');
            }
        }
        if s.contains('\0') {
            let k = choose|k: int| 0 <= k < s.len() && s[k] == '\0';
            if k == 0 {
                let i = choose|i: int| 0 <= i < head.len() && head[i] == 0;
                assert(all[i] == 0);
            } else {
                assert(s.drop_first()[k - 1] == '\0');
                let i = choose|i: int| 0 <= i < tail.len() && tail[i] == 0;
                assert(all[head.len() + i] == 0);
            }
        }
    }
}

/// A C string made from `s` ends at its last byte, so that a C reader sees
/// all of `s`, exactly when `s` holds no NUL character; its last byte is
/// always zero.
pub proof fn lemma_c_string_whole(s: Seq<char>)
    ensures
        c_string_bytes(s).last() == 0,
        !has_zero_byte(c_string_bytes(s).drop_last()) <==> !s.contains('\0'),
{
    lemma_encode_zero_byte(s);
    assert(c_string_bytes(s).drop_last() == encode_utf8(s));
}

} // verus!
