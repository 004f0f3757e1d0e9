//! Taking a `&str` apart at its front.
//!
//! The matchers only ever consume ASCII characters, so they look at the
//! first byte of the input instead of decoding it. The lemmas here justify
//! that: a first byte below `0x80` is the first character, and the bytes
//! after it are the rest of the text.
use vstd::prelude::*;
use vstd::string::StringSliceAdditionalSpecFns;
use vstd::utf8::*;

verus! {

/// A character is known by its code point.
pub proof fn lemma_char_by_code(c: char, d: char)
    requires
        c as u32 == d as u32,
    ensures
        c == d,
{
    char_u32_cast(c, c as u32);
    char_u32_cast(d, d as u32);
}

/// The first byte of the UTF-8 encoding of `chars` is below `0x80` exactly
/// when the first character is ASCII, and is then that character's code
/// point; the bytes after it encode the remaining characters.
pub proof fn lemma_encode_first(chars: Seq<char>)
    requires
        chars.len() > 0,
    ensures
        encode_utf8(chars).len() > 0,
        encode_utf8(chars)[0] < 0x80 <==> (chars[0] as u32) < 0x80,
        (chars[0] as u32) < 0x80 ==> {
            &&& encode_utf8(chars)[0] == chars[0] as u32
            &&& encode_utf8(chars).skip(1) == encode_utf8(chars.drop_first())
        },
{
    let c = chars[0] as u32;
    let rest = encode_utf8(chars.drop_first());
    assert(encode_utf8(chars) == encode_scalar(c) + rest);
    char_is_scalar(chars[0]);
    if has_width_1_encoding(c) {
        assert(leading_byte_width_1(c) == c) by (bit_vector)
            requires
                c <= 0x7f,
        ;
        assert((encode_scalar(c) + rest).skip(1) =~= rest);
    } else if has_width_2_encoding(c) {
        assert(leading_byte_width_2(c) >= 0x80) by (bit_vector);
    } else if has_width_3_encoding(c) {
        assert(leading_byte_width_3(c) >= 0x80) by (bit_vector);
    } else {
        assert(leading_byte_width_4(c) >= 0x80) by (bit_vector);
    }
}

/// Only the empty text is encoded by no bytes.
pub proof fn lemma_encode_empty(chars: Seq<char>)
    ensures
        encode_utf8(chars).len() == 0 <==> chars.len() == 0,
{
    if chars.len() > 0 {
        lemma_encode_first(chars);
    }
}

/// An encoding can be cut after its first byte where the first character
/// is ASCII.
pub proof fn lemma_encode_cut_after_first(chars: Seq<char>)
    requires
        chars.len() > 0,
        (chars[0] as u32) < 0x80,
    ensures
        is_char_boundary(encode_utf8(chars), 1),
{
    let bytes = encode_utf8(chars);
    encode_utf8_valid_utf8(chars);
    lemma_encode_first(chars);
    encode_utf8_valid_utf8(chars.drop_first());
    assert(length_of_first_scalar(bytes) == 1);
    assert(pop_first_scalar(bytes) =~= bytes.skip(1));
    reveal_with_fuel(is_char_boundary, 2);
}

/// A text is known by its encoding.
pub proof fn lemma_encode_injective(a: Seq<char>, b: Seq<char>)
    requires
        encode_utf8(a) == encode_utf8(b),
    ensures
        a == b,
{
    encode_utf8_decode_utf8(a);
    encode_utf8_decode_utf8(b);
}

/// Whether `c` is an ASCII character, encoded in UTF-8 as one byte.
pub open spec fn is_ascii_char(c: char) -> bool {
    (c as u32) < 0x80
}

/// The first character of `input` and the input after it, where there is a
/// first character and it is ASCII; `None` where the input is empty or
/// starts with any other character.
pub fn split_first_ascii<'a>(input: &'a str) -> (r: Option<(char, &'a str)>)
    ensures
        r is Some <==> input@.len() > 0 && is_ascii_char(input@[0]),
        r matches Some((c, rest)) ==> c == input@[0] && rest@ == input@.drop_first(),
{
    let bytes = input.as_bytes();
    proof {
        lemma_encode_empty(input@);
        if input@.len() > 0 {
            lemma_encode_first(input@);
        }
    }
    if bytes.len() > 0 && bytes[0] < 0x80 {
        let c = bytes[0] as char;
        proof {
            lemma_char_by_code(c, input@[0]);
            lemma_encode_cut_after_first(input@);
        }
        let (_, rest) = input.split_at(1);
        proof {
            let encoded = input.spec_bytes();
            assert(encoded.subrange(1, encoded.len() as int) =~= encoded.skip(1));
            lemma_encode_injective(rest@, input@.drop_first());
        }
        Some((c, rest))
    } else {
        None
    }
}

} // verus!
