use crate::text::{remaining, text};
use vstd::prelude::*;
use vstd::utf8::{
    decode_first_scalar, decode_utf8, decode_utf8_encode_utf8, encode_utf8_first_scalar,
    is_char_boundary, is_char_boundary_iff_not_is_continuation_byte, length_of_first_scalar,
    pop_first_scalar, valid_first_scalar, valid_utf8, valid_utf8_split,
};

verus! {

/// The code points with the property `White_Space`: U+0009 to U+000D,
/// U+0020, U+0085, U+00A0, U+1680, U+2000 to U+200A, U+2028, U+2029, U+202F,
/// U+205F and U+3000.
pub open spec fn is_whitespace_scalar(c: u32) -> bool {
    ||| 0x09 <= c <= 0x0D
    ||| c == 0x20
    ||| c == 0x85
    ||| c == 0xA0
    ||| c == 0x1680
    ||| 0x2000 <= c <= 0x200A
    ||| c == 0x2028
    ||| c == 0x2029
    ||| c == 0x202F
    ||| c == 0x205F
    ||| c == 0x3000
}

/// The character is whitespace.
pub open spec fn is_whitespace(c: char) -> bool {
    is_whitespace_scalar(c as u32)
}

/// The encoding of a whitespace character starts at byte `i`.
pub open spec fn whitespace_at(bytes: Seq<u8>, i: int) -> bool {
    &&& 0 <= i < bytes.len()
    &&& valid_first_scalar(remaining(bytes, i))
    &&& is_whitespace_scalar(decode_first_scalar(remaining(bytes, i)))
}

/// The number of bytes of the character whose encoding starts at byte `i`.
pub open spec fn char_width(bytes: Seq<u8>, i: int) -> int {
    length_of_first_scalar(remaining(bytes, i))
}

/// The byte at `i`, or 0 behind the end: no encoding of a whitespace
/// character holds a 0.
pub open spec fn byte_at(bytes: Seq<u8>, i: int) -> u8 {
    if 0 <= i < bytes.len() {
        bytes[i]
    } else {
        0
    }
}

/// The bytes of the encodings of the whitespace characters, by their
/// lengths: the length of the one that the three bytes start with, or 0.
pub open spec fn encoded_whitespace_width(b0: u8, b1: u8, b2: u8) -> int {
    if b0 == 0x20 || 0x09 <= b0 <= 0x0D {
        1
    } else if b0 == 0xC2 && (b1 == 0x85 || b1 == 0xA0) {
        2
    } else if b0 == 0xE1 && b1 == 0x9A && b2 == 0x80 {
        3
    } else if b0 == 0xE2 && b1 == 0x80 && (0x80 <= b2 <= 0x8A || b2 == 0xA8 || b2 == 0xA9 || b2
        == 0xAF) {
        3
    } else if b0 == 0xE2 && b1 == 0x81 && b2 == 0x9F {
        3
    } else if b0 == 0xE3 && b1 == 0x80 && b2 == 0x80 {
        3
    } else {
        0
    }
}

/// The length of the encoding of a whitespace character that starts at byte
/// `i`, or 0 where none does.
pub open spec fn whitespace_width_at(bytes: Seq<u8>, i: int) -> int {
    if 0 <= i < bytes.len() {
        encoded_whitespace_width(bytes[i], byte_at(bytes, i + 1), byte_at(bytes, i + 2))
    } else {
        0
    }
}

proof fn lemma_one_byte(b0: u8)
    by (bit_vector)
    requires
        b0 <= 0x7f,
    ensures
        (b0 & 0x7F) as u32 == b0 as u32,
{
}

proof fn lemma_two_bytes(b0: u8, b1: u8)
    by (bit_vector)
    requires
        0xc0 <= b0 <= 0xdf,
        0x80 <= b1 <= 0xbf,
    ensures
        ({
            let c = (((b0 & 0x1F) as u32) << 6) | ((b1 & 0x3f) as u32);
            &&& c <= 0x7ff
            &&& c == 0x85 <==> b0 == 0xC2 && b1 == 0x85
            &&& c == 0xA0 <==> b0 == 0xC2 && b1 == 0xA0
        }),
{
}

proof fn lemma_three_bytes(b0: u8, b1: u8, b2: u8)
    by (bit_vector)
    requires
        0xe0 <= b0 <= 0xef,
        0x80 <= b1 <= 0xbf,
        0x80 <= b2 <= 0xbf,
    ensures
        ({
            let c = (((b0 & 0x0F) as u32) << 12) | (((b1 & 0x3f) as u32) << 6) | ((b2
                & 0x3f) as u32);
            &&& c == 0x1680 <==> b0 == 0xE1 && b1 == 0x9A && b2 == 0x80
            &&& 0x2000 <= c <= 0x200A <==> b0 == 0xE2 && b1 == 0x80 && 0x80 <= b2 <= 0x8A
            &&& c == 0x2028 <==> b0 == 0xE2 && b1 == 0x80 && b2 == 0xA8
            &&& c == 0x2029 <==> b0 == 0xE2 && b1 == 0x80 && b2 == 0xA9
            &&& c == 0x202F <==> b0 == 0xE2 && b1 == 0x80 && b2 == 0xAF
            &&& c == 0x205F <==> b0 == 0xE2 && b1 == 0x81 && b2 == 0x9F
            &&& c == 0x3000 <==> b0 == 0xE3 && b1 == 0x80 && b2 == 0x80
            &&& c == 0x85 || c == 0xA0 || c == 0x20 || 0x09 <= c <= 0x0D ==> c < 0x800
        }),
{
}

/// The encoding of a whitespace character starts at byte `i` exactly where
/// the bytes from `i` on are those of one, and it is as long as they are.
pub proof fn lemma_whitespace_bytes(bytes: Seq<u8>, i: int)
    ensures
        whitespace_at(bytes, i) <==> whitespace_width_at(bytes, i) > 0,
        whitespace_at(bytes, i) ==> char_width(bytes, i) == whitespace_width_at(bytes, i) && i
            + char_width(bytes, i) <= bytes.len(),
{
    if 0 <= i < bytes.len() {
        let tail = remaining(bytes, i);
        let b0 = bytes[i];
        assert(tail[0] == b0);
        if b0 <= 0x7f {
            lemma_one_byte(b0);
        } else if 0xc0 <= b0 <= 0xdf {
            if tail.len() >= 2 {
                let b1 = bytes[i + 1];
                assert(tail[1] == b1);
                if 0x80 <= b1 <= 0xbf {
                    lemma_two_bytes(b0, b1);
                }
            }
        } else if 0xe0 <= b0 <= 0xef {
            if tail.len() >= 3 {
                let b1 = bytes[i + 1];
                let b2 = bytes[i + 2];
                assert(tail[1] == b1);
                assert(tail[2] == b2);
                if 0x80 <= b1 <= 0xbf && 0x80 <= b2 <= 0xbf {
                    lemma_three_bytes(b0, b1, b2);
                }
            }
        }
    }
}

/// In a well-formed buffer a whitespace character's encoding starts at byte
/// `i` exactly where a character starts at `i` and the text from there on
/// starts with a whitespace character.
pub proof fn lemma_whitespace_is_a_character(bytes: Seq<u8>, i: int)
    requires
        valid_utf8(bytes),
        0 <= i < bytes.len(),
    ensures
        whitespace_at(bytes, i) <==> is_char_boundary(bytes, i) && is_whitespace(
            decode_utf8(remaining(bytes, i))[0],
        ),
{
    is_char_boundary_iff_not_is_continuation_byte(bytes, i);
    let tail = remaining(bytes, i);
    assert(tail[0] == bytes[i]);
    if is_char_boundary(bytes, i) {
        valid_utf8_split(bytes, i);
        let chars = decode_utf8(tail);
        decode_utf8_encode_utf8(tail);
        assert(chars.len() > 0);
        encode_utf8_first_scalar(chars);
    }
}

/// No character of `chars` is whitespace.
pub open spec fn no_whitespace(chars: Seq<char>) -> bool {
    forall|m: int| 0 <= m < chars.len() ==> !is_whitespace(#[trigger] chars[m])
}

/// In a well-formed buffer, where no whitespace character's encoding starts
/// before the character boundary `i`, the text before `i` holds no
/// whitespace character.
pub proof fn lemma_no_whitespace_before(bytes: Seq<u8>, i: int)
    requires
        valid_utf8(bytes),
        is_char_boundary(bytes, i),
        forall|j: int| 0 <= j < i ==> !whitespace_at(bytes, j),
    ensures
        no_whitespace(text(bytes, 0, i)),
    decreases bytes.len(),
{
    reveal_with_fuel(is_char_boundary, 2);
    let before = bytes.subrange(0, i);
    if i > 0 {
        valid_utf8_split(bytes, i);
        let width = length_of_first_scalar(bytes);
        let rest = pop_first_scalar(bytes);
        assert(remaining(bytes, 0) =~= bytes);
        assert(!whitespace_at(bytes, 0));
        assert forall|j: int| 0 <= j < i - width implies !whitespace_at(rest, j) by {
            assert(remaining(rest, j) =~= remaining(bytes, j + width));
            assert(!whitespace_at(bytes, j + width));
        }
        lemma_no_whitespace_before(rest, i - width);
        assert(pop_first_scalar(before) =~= rest.subrange(0, i - width));
        let chars = decode_utf8(before);
        decode_utf8_encode_utf8(before);
        encode_utf8_first_scalar(chars);
        assert(decode_first_scalar(before) == decode_first_scalar(bytes));
        assert(chars =~= seq![chars[0]] + text(rest, 0, i - width));
        assert forall|m: int| 0 <= m < chars.len() implies !is_whitespace(#[trigger] chars[m]) by {
            if m > 0 {
                assert(chars[m] == text(rest, 0, i - width)[m - 1]);
            }
        }
    } else {
        assert(before =~= Seq::<u8>::empty());
    }
}

/// In the encoding of a text without whitespace characters, no whitespace
/// character's encoding starts anywhere.
pub proof fn lemma_no_whitespace_encoded(bytes: Seq<u8>, i: int)
    requires
        valid_utf8(bytes),
        no_whitespace(decode_utf8(bytes)),
    ensures
        !whitespace_at(bytes, i),
    decreases bytes.len(),
{
    if 0 <= i < bytes.len() {
        let chars = decode_utf8(bytes);
        let width = length_of_first_scalar(bytes);
        let rest = pop_first_scalar(bytes);
        if i == 0 {
            assert(remaining(bytes, 0) =~= bytes);
            decode_utf8_encode_utf8(bytes);
            encode_utf8_first_scalar(chars);
            assert(!is_whitespace(chars[0]));
        } else if i < width {
            assert(remaining(bytes, i)[0] == bytes[i]);
        } else {
            assert(remaining(rest, i - width) =~= remaining(bytes, i));
            assert forall|m: int| 0 <= m < decode_utf8(rest).len() implies !is_whitespace(
                #[trigger] decode_utf8(rest)[m],
            ) by {
                assert(decode_utf8(rest)[m] == chars[m + 1]);
            }
            lemma_no_whitespace_encoded(rest, i - width);
        }
    }
}

/// The length of the encoding of a whitespace character that starts at
/// `bytes[i]`, or 0 where none does.
pub fn whitespace_width(bytes: &[u8], i: usize) -> (width: usize)
    requires
        i < bytes@.len(),
    ensures
        width == whitespace_width_at(bytes@, i as int),
        width > 0 <==> whitespace_at(bytes@, i as int),
        width > 0 ==> width == char_width(bytes@, i as int) && i + width <= bytes@.len(),
{
    proof {
        lemma_whitespace_bytes(bytes@, i as int);
    }
    let left = bytes.len() - i;
    let b0 = bytes[i];
    let b1: u8 = if left > 1 {
        bytes[i + 1]
    } else {
        0
    };
    let b2: u8 = if left > 2 {
        bytes[i + 2]
    } else {
        0
    };
    if b0 == 0x20 || (0x09 <= b0 && b0 <= 0x0D) {
        1
    } else if b0 == 0xC2 && (b1 == 0x85 || b1 == 0xA0) {
        2
    } else if b0 == 0xE1 && b1 == 0x9A && b2 == 0x80 {
        3
    } else if b0 == 0xE2 && b1 == 0x80 && ((0x80 <= b2 && b2 <= 0x8A) || b2 == 0xA8 || b2 == 0xA9
        || b2 == 0xAF) {
        3
    } else if b0 == 0xE2 && b1 == 0x81 && b2 == 0x9F {
        3
    } else if b0 == 0xE3 && b1 == 0x80 && b2 == 0x80 {
        3
    } else {
        0
    }
}

} // verus!
