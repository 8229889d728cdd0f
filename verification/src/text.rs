use vstd::prelude::*;
use vstd::string::StringSliceAdditionalSpecFns;
use vstd::utf8::*;

verus! {

/// The characters that `bytes[from..to]` encode.
pub open spec fn text(bytes: Seq<u8>, from: int, to: int) -> Seq<char> {
    decode_utf8(bytes.subrange(from, to))
}

/// What is left of `bytes` behind its first `n` bytes.
pub open spec fn remaining(bytes: Seq<u8>, n: int) -> Seq<u8> {
    if 0 <= n <= bytes.len() {
        bytes.subrange(n, bytes.len() as int)
    } else {
        Seq::empty()
    }
}

/// A character ends where the next one starts, or at the end of the
/// buffer, and no character starts inside it.
pub proof fn lemma_boundary_after_char(bytes: Seq<u8>, i: int)
    requires
        valid_utf8(bytes),
        is_char_boundary(bytes, i),
        0 <= i < bytes.len(),
    ensures
        valid_first_scalar(remaining(bytes, i)),
        i + length_of_first_scalar(remaining(bytes, i)) <= bytes.len(),
        is_char_boundary(bytes, i + length_of_first_scalar(remaining(bytes, i))),
        forall|j: int|
            i < j < i + length_of_first_scalar(remaining(bytes, i)) ==> is_continuation_byte(
                #[trigger] bytes[j],
            ),
{
    broadcast use group_utf8_lib;

    let tail = remaining(bytes, i);
    assert(valid_utf8(tail));
    let width = length_of_first_scalar(tail);
    let rest = pop_first_scalar(tail);
    assert(rest =~= bytes.subrange(i + width, bytes.len() as int));
    assert(valid_utf8(rest));
    assert forall|j: int| i < j < i + width implies is_continuation_byte(#[trigger] bytes[j]) by {
        assert(bytes[j] == tail[j - i]);
    }
    if i + width < bytes.len() {
        assert(valid_first_scalar(rest));
        assert(rest[0] == bytes[i + width]);
        assert(!is_continuation_byte(rest[0]));
        assert(is_char_boundary(bytes, i + width));
    } else {
        assert(is_char_boundary(bytes, bytes.len() as int));
    }
}

/// A byte below 128 is a character of its own: a character starts at it and
/// another one, or the end, right behind it.
pub proof fn lemma_boundary_at_ascii(bytes: Seq<u8>, i: int)
    requires
        valid_utf8(bytes),
        0 <= i < bytes.len(),
        bytes[i] < 128,
    ensures
        is_char_boundary(bytes, i),
        is_char_boundary(bytes, i + 1),
{
    broadcast use group_utf8_lib;

    assert(!is_continuation_byte(bytes[i]));
    assert(remaining(bytes, i)[0] == bytes[i]);
    lemma_boundary_after_char(bytes, i);
}

/// The part of `buffer` behind its first `n` bytes.
pub fn skip_bytes(buffer: &str, n: usize) -> (rest: &str)
    requires
        is_char_boundary(buffer.spec_bytes(), n as int),
    ensures
        n <= buffer.spec_bytes().len(),
        rest.spec_bytes() == remaining(buffer.spec_bytes(), n as int),
{
    broadcast use group_utf8_lib;

    assert(n <= buffer.spec_bytes().len()) by {
        reveal_with_fuel(is_char_boundary, 1);
    }
    let (_, rest) = buffer.split_at(n);
    rest
}

/// An owned copy of the characters in `buffer[from..to]`.
pub fn copy_text(buffer: &str, from: usize, to: usize) -> (s: String)
    requires
        from <= to,
        is_char_boundary(buffer.spec_bytes(), from as int),
        is_char_boundary(buffer.spec_bytes(), to as int),
    ensures
        s@ == text(buffer.spec_bytes(), from as int, to as int),
{
    broadcast use group_utf8_lib;

    let ghost bytes = buffer.spec_bytes();
    assert(to <= bytes.len()) by {
        reveal_with_fuel(is_char_boundary, 1);
    }
    let (head, _) = buffer.split_at(to);
    assert(head.spec_bytes() == bytes.subrange(0, to as int));
    assert(is_char_boundary(head.spec_bytes(), from as int)) by {
        if from < to {
            assert(head.spec_bytes()[from as int] == bytes[from as int]);
            is_char_boundary_iff_not_is_continuation_byte(bytes, from as int);
            is_char_boundary_iff_not_is_continuation_byte(head.spec_bytes(), from as int);
        } else {
            is_char_boundary_start_end_of_seq(head.spec_bytes());
        }
    }
    let (_, middle) = head.split_at(from);
    assert(middle.spec_bytes() =~= bytes.subrange(from as int, to as int));
    middle.to_owned()
}

} // verus!
