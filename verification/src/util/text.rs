//! Text helpers around the standard library's string and character
//! functions, and the decoding of UTF-8 one scalar at a time.
use vstd::prelude::*;
use vstd::string::StringSliceAdditionalSpecFns;
use vstd::utf8::{
    codepoint_width_2, codepoint_width_3, codepoint_width_4, decode_first_scalar, decode_utf8,
    encode_utf8_decode_utf8, is_continuation_byte, length_of_first_scalar, pop_first_scalar,
    valid_first_scalar, valid_utf8,
};

verus! {

/// What the `Debug` formatting of a string (`<str as Debug>::fmt`) writes
/// for the character `c` between the quotes: the character itself, or an
/// escape such as `\n`, `\"` or `\u{301}`.
pub uninterp spec fn debug_escape(c: char) -> Seq<char>;

/// `format!("{:?}", s)` for the one-character string `s` holding `c`,
/// without the surrounding quotes; its contract claims only that the text
/// is the named escape of `c`.
#[verifier::external_body]
pub fn escape_debug(c: char) -> (s: String)
    ensures
        s@ == debug_escape(c),
{
    let quoted = format!("{:?}", String::from(c));
    quoted[1..quoted.len() - 1].to_string()
}

/// `char::from_u32` (std): the character with the given scalar value, or
/// `None` when the value is not a Unicode scalar value (above `0x10FFFF` or a
/// surrogate).
#[verifier::external_body]
pub fn char_from_u32(v: u32) -> (c: Option<char>)
    ensures
        c is Some <==> (v <= 0x10FFFF && !(0xD800 <= v <= 0xDFFF)),
        c matches Some(ch) ==> ch as u32 == v,
{
    char::from_u32(v)
}

/// `String::push` (std): appends one character.
#[verifier::external_body]
pub fn push_char(s: &mut String, c: char)
    ensures
        final(s)@ == old(s)@.push(c),
{
    s.push(c)
}

/// `std::str::from_utf8`: the text that the bytes encode, or `None` when
/// they are not well-formed UTF-8. The contract claims that exactly
/// well-formed UTF-8 is accepted and that the text's bytes are the input.
#[verifier::external_body]
pub fn str_from_utf8(bytes: &[u8]) -> (r: Option<&str>)
    ensures
        r is Some <==> valid_utf8(bytes@),
        r matches Some(s) ==> s.spec_bytes() == bytes@,
{
    std::str::from_utf8(bytes).ok()
}

/// The text of well-formed UTF-8 has at most as many characters as bytes.
pub proof fn lemma_decode_len(bytes: Seq<u8>)
    requires
        valid_utf8(bytes),
    ensures
        decode_utf8(bytes).len() <= bytes.len(),
    decreases bytes.len(),
{
    if bytes.len() > 0 {
        lemma_decode_len(pop_first_scalar(bytes));
    }
}

/// The characters of a text decoded from its bytes are the text.
pub proof fn lemma_str_chars(s: &str, bytes: Seq<u8>)
    requires
        s.spec_bytes() == bytes,
    ensures
        valid_utf8(bytes),
        s@ == decode_utf8(bytes),
{
    vstd::utf8::encode_utf8_valid_utf8(s@);
    encode_utf8_decode_utf8(s@);
}

/// The second byte that may follow a 3-byte leading byte in well-formed UTF-8.
pub open spec fn second_byte_ok_3(b0: u8, b1: u8) -> bool {
    ||| (b0 == 0xE0 && 0xA0 <= b1 <= 0xBF)
    ||| (0xE1 <= b0 <= 0xEC && 0x80 <= b1 <= 0xBF)
    ||| (b0 == 0xED && 0x80 <= b1 <= 0x9F)
    ||| (0xEE <= b0 <= 0xEF && 0x80 <= b1 <= 0xBF)
}

/// The second byte that may follow a 4-byte leading byte in well-formed UTF-8.
pub open spec fn second_byte_ok_4(b0: u8, b1: u8) -> bool {
    ||| (b0 == 0xF0 && 0x90 <= b1 <= 0xBF)
    ||| (0xF1 <= b0 <= 0xF3 && 0x80 <= b1 <= 0xBF)
    ||| (b0 == 0xF4 && 0x80 <= b1 <= 0x8F)
}

/// The length of the invalid sequence at the start of `b`, which does not
/// begin with a well-formed scalar: the longest start of it that some
/// well-formed scalar could begin with, and at least one byte.
pub open spec fn invalid_sequence_len(b: Seq<u8>) -> int {
    let b0 = b[0];
    if 0xE0 <= b0 <= 0xEF {
        if b.len() >= 2 && second_byte_ok_3(b0, b[1]) {
            2
        } else {
            1
        }
    } else if 0xF0 <= b0 <= 0xF4 {
        if b.len() >= 2 && second_byte_ok_4(b0, b[1]) {
            if b.len() >= 3 && is_continuation_byte(b[2]) {
                3
            } else {
                2
            }
        } else {
            1
        }
    } else {
        1
    }
}

/// One step of UTF-8 decoding: a scalar and its length in bytes, or the
/// length of an invalid sequence.
pub enum Utf8Step {
    Scalar(char, usize),
    Invalid(usize),
}

/// Which 2-byte sequences encode a scalar without overlong encoding.
proof fn lemma_width_2(b0: u8, b1: u8)
    requires
        0xC0 <= b0 <= 0xDF,
        0x80 <= b1 <= 0xBF,
    ensures
        (codepoint_width_2(b0, b1) >= 0x80) <==> (b0 >= 0xC2),
        codepoint_width_2(b0, b1) <= 0x7FF,
{
    assert((codepoint_width_2(b0, b1) >= 0x80) <==> (b0 >= 0xC2)) by (bit_vector)
        requires
            0xC0 <= b0 <= 0xDF,
            0x80 <= b1 <= 0xBF,
    ;
    assert(codepoint_width_2(b0, b1) <= 0x7FF) by (bit_vector);
}

/// Which 3-byte sequences encode a scalar: neither overlong nor a surrogate.
proof fn lemma_width_3(b0: u8, b1: u8, b2: u8)
    requires
        0xE0 <= b0 <= 0xEF,
        0x80 <= b1 <= 0xBF,
        0x80 <= b2 <= 0xBF,
    ensures
        second_byte_ok_3(b0, b1) <==> (codepoint_width_3(b0, b1, b2) >= 0x800 && !(0xD800
            <= codepoint_width_3(b0, b1, b2) <= 0xDFFF)),
        codepoint_width_3(b0, b1, b2) <= 0xFFFF,
{
    assert(second_byte_ok_3(b0, b1) <==> (codepoint_width_3(b0, b1, b2) >= 0x800 && !(0xD800
        <= codepoint_width_3(b0, b1, b2) <= 0xDFFF))) by (bit_vector)
        requires
            0xE0 <= b0 <= 0xEF,
            0x80 <= b1 <= 0xBF,
            0x80 <= b2 <= 0xBF,
    ;
    assert(codepoint_width_3(b0, b1, b2) <= 0xFFFF) by (bit_vector);
}

/// Which 4-byte sequences encode a scalar: neither overlong nor above `0x10FFFF`.
proof fn lemma_width_4(b0: u8, b1: u8, b2: u8, b3: u8)
    requires
        0xF0 <= b0 <= 0xF7,
        0x80 <= b1 <= 0xBF,
        0x80 <= b2 <= 0xBF,
        0x80 <= b3 <= 0xBF,
    ensures
        (b0 <= 0xF4 && second_byte_ok_4(b0, b1)) <==> (0x10000 <= codepoint_width_4(
            b0,
            b1,
            b2,
            b3,
        ) <= 0x10FFFF),
{
    assert((b0 <= 0xF4 && second_byte_ok_4(b0, b1)) <==> (0x10000 <= codepoint_width_4(
        b0,
        b1,
        b2,
        b3,
    ) <= 0x10FFFF)) by (bit_vector)
        requires
            0xF0 <= b0 <= 0xF7,
            0x80 <= b1 <= 0xBF,
            0x80 <= b2 <= 0xBF,
            0x80 <= b3 <= 0xBF,
    ;
}

/// Decodes the scalar at index `i` of `b`, or measures the invalid sequence there.
pub fn decode_step(b: &[u8], i: usize) -> (r: Utf8Step)
    requires
        i < b.len(),
    ensures
        ({
            let rest = b@.subrange(i as int, b@.len() as int);
            match r {
                Utf8Step::Scalar(c, n) => valid_first_scalar(rest) && c == (decode_first_scalar(
                    rest,
                ) as char) && n == length_of_first_scalar(rest),
                Utf8Step::Invalid(n) => !valid_first_scalar(rest) && n == invalid_sequence_len(
                    rest,
                ),
            }
        }),
{
    let ghost rest = b@.subrange(i as int, b@.len() as int);
    let rem = b.len() - i;
    let b0 = b[i];
    assert(rest[0] == b0);
    if b0 < 0x80 {
        let v: u32 = (b0 & 0x7F) as u32;
        match char_from_u32(v) {
            Some(c) => {
                proof {
                    vstd::utf8::char_u32_cast(c, v);
                }
                return Utf8Step::Scalar(c, 1);
            },
            None => {
                assert(false);
                return Utf8Step::Invalid(1);
            },
        }
    }
    if b0 < 0xC0 || b0 >= 0xF8 {
        return Utf8Step::Invalid(1);
    }
    if b0 < 0xE0 {
        if rem < 2 || b[i + 1] < 0x80 || b[i + 1] > 0xBF {
            if rem >= 2 {
                assert(rest[1] == b[i + 1]);
            }
            return Utf8Step::Invalid(1);
        }
        let b1 = b[i + 1];
        assert(rest[1] == b1);
        proof {
            lemma_width_2(b0, b1);
        }
        if b0 < 0xC2 {
            return Utf8Step::Invalid(1);
        }
        let v: u32 = (((b0 & 0x1F) as u32) << 6) | ((b1 & 0x3F) as u32);
        assert(v == codepoint_width_2(b0, b1));
        match char_from_u32(v) {
            Some(c) => {
                proof {
                    vstd::utf8::char_u32_cast(c, v);
                }
                return Utf8Step::Scalar(c, 2);
            },
            None => {
                assert(false);
                return Utf8Step::Invalid(1);
            },
        }
    }
    if b0 < 0xF0 {
        if rem < 2 {
            return Utf8Step::Invalid(1);
        }
        let b1 = b[i + 1];
        assert(rest[1] == b1);
        let ok1 = (b0 == 0xE0 && 0xA0 <= b1 && b1 <= 0xBF) || (0xE1 <= b0 && b0 <= 0xEC && 0x80
            <= b1 && b1 <= 0xBF) || (b0 == 0xED && 0x80 <= b1 && b1 <= 0x9F) || (0xEE <= b0
            && 0x80 <= b1 && b1 <= 0xBF);
        if !ok1 {
            proof {
                if rem >= 3 && 0x80 <= b1 <= 0xBF && 0x80 <= b[i + 2] <= 0xBF {
                    assert(rest[2] == b[i + 2]);
                    lemma_width_3(b0, b1, b[i + 2]);
                }
            }
            return Utf8Step::Invalid(1);
        }
        if rem < 3 || b[i + 2] < 0x80 || b[i + 2] > 0xBF {
            if rem >= 3 {
                assert(rest[2] == b[i + 2]);
            }
            return Utf8Step::Invalid(2);
        }
        let b2 = b[i + 2];
        assert(rest[2] == b2);
        proof {
            lemma_width_3(b0, b1, b2);
        }
        let v: u32 = (((b0 & 0x0F) as u32) << 12) | (((b1 & 0x3F) as u32) << 6) | ((b2
            & 0x3F) as u32);
        assert(v == codepoint_width_3(b0, b1, b2));
        match char_from_u32(v) {
            Some(c) => {
                proof {
                    vstd::utf8::char_u32_cast(c, v);
                }
                return Utf8Step::Scalar(c, 3);
            },
            None => {
                assert(false);
                return Utf8Step::Invalid(1);
            },
        }
    }
    // b0 is a 4-byte leading byte pattern (0xF0..=0xF7)
    if rem < 2 {
        return Utf8Step::Invalid(1);
    }
    let b1 = b[i + 1];
    assert(rest[1] == b1);
    let ok1 = (b0 == 0xF0 && 0x90 <= b1 && b1 <= 0xBF) || (0xF1 <= b0 && b0 <= 0xF3 && 0x80 <= b1
        && b1 <= 0xBF) || (b0 == 0xF4 && 0x80 <= b1 && b1 <= 0x8F);
    if !ok1 {
        proof {
            if rem >= 4 && 0x80 <= b1 <= 0xBF && 0x80 <= b[i + 2] <= 0xBF && 0x80 <= b[i + 3]
                <= 0xBF {
                assert(rest[2] == b[i + 2]);
                assert(rest[3] == b[i + 3]);
                lemma_width_4(b0, b1, b[i + 2], b[i + 3]);
            }
        }
        return Utf8Step::Invalid(1);
    }
    if rem < 3 || b[i + 2] < 0x80 || b[i + 2] > 0xBF {
        if rem >= 3 {
            assert(rest[2] == b[i + 2]);
        }
        return Utf8Step::Invalid(2);
    }
    let b2 = b[i + 2];
    assert(rest[2] == b2);
    if rem < 4 || b[i + 3] < 0x80 || b[i + 3] > 0xBF {
        if rem >= 4 {
            assert(rest[3] == b[i + 3]);
        }
        return Utf8Step::Invalid(3);
    }
    let b3 = b[i + 3];
    assert(rest[3] == b3);
    proof {
        lemma_width_4(b0, b1, b2, b3);
    }
    let v: u32 = (((b0 & 0x07) as u32) << 18) | (((b1 & 0x3F) as u32) << 12) | (((b2 & 0x3F)
        as u32) << 6) | ((b3 & 0x3F) as u32);
    assert(v == codepoint_width_4(b0, b1, b2, b3));
    match char_from_u32(v) {
        Some(c) => {
            proof {
                vstd::utf8::char_u32_cast(c, v);
            }
            Utf8Step::Scalar(c, 4)
        },
        None => {
            assert(false);
            Utf8Step::Invalid(1)
        },
    }
}

} // verus!
