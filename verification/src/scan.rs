use crate::resp::{
    syntax_error, ErrorModel, ParseError, CARRIAGE_RETURN, LINE_FEED, NO_CLOSING_TERMINATOR,
    NO_TERMINATOR, NO_WHITESPACE,
};
use crate::text::text;
use crate::whitespace::{
    is_whitespace, lemma_no_whitespace_before, lemma_whitespace_is_a_character, no_whitespace,
    whitespace_at, whitespace_width,
};
use vstd::prelude::*;
use vstd::string::StringSliceAdditionalSpecFns;
use vstd::utf8::{
    decode_utf8, decode_utf8_split, encode_utf8_decode_utf8, encode_utf8_valid_utf8,
    is_char_boundary, is_char_boundary_start_end_of_seq, valid_utf8, valid_utf8_split,
};

verus! {

/// The carriage return and the line feed stand at `i` and `i + 1`.
pub open spec fn terminator_at(bytes: Seq<u8>, i: int) -> bool {
    &&& 0 <= i
    &&& i + 1 < bytes.len()
    &&& bytes[i] == CARRIAGE_RETURN
    &&& bytes[i + 1] == LINE_FEED
}

/// A terminator stands at `i` and none starts before `i`.
pub open spec fn is_first_terminator(bytes: Seq<u8>, i: int) -> bool {
    &&& terminator_at(bytes, i)
    &&& forall|j: int| 0 <= j < i ==> !terminator_at(bytes, j)
}

pub open spec fn has_terminator(bytes: Seq<u8>) -> bool {
    exists|i: int| is_first_terminator(bytes, i)
}

/// A terminator stands at `i` and none starts after `i`.
pub open spec fn is_last_terminator(bytes: Seq<u8>, i: int) -> bool {
    &&& terminator_at(bytes, i)
    &&& forall|j: int| i < j ==> !terminator_at(bytes, j)
}

pub open spec fn has_last_terminator(bytes: Seq<u8>) -> bool {
    exists|i: int| is_last_terminator(bytes, i)
}

/// Where the last terminator starts. Meaningful when there is one.
pub open spec fn last_terminator(bytes: Seq<u8>) -> int {
    choose|i: int| is_last_terminator(bytes, i)
}

/// A whitespace character starts at byte `i` and none before `i`.
pub open spec fn is_first_whitespace(bytes: Seq<u8>, i: int) -> bool {
    &&& whitespace_at(bytes, i)
    &&& forall|j: int| 0 <= j < i ==> !whitespace_at(bytes, j)
}

pub open spec fn has_whitespace(bytes: Seq<u8>) -> bool {
    exists|i: int| is_first_whitespace(bytes, i)
}

/// The byte at which the first whitespace character starts. Meaningful when
/// there is one.
pub open spec fn first_whitespace(bytes: Seq<u8>) -> int {
    choose|i: int| is_first_whitespace(bytes, i)
}

/// Where the first terminator starts. Meaningful when there is one.
pub open spec fn first_terminator(bytes: Seq<u8>) -> int {
    choose|i: int| is_first_terminator(bytes, i)
}

/// What a search for an index yields: the index, or a syntax error that
/// carries `message`.
pub open spec fn found_or(found: bool, index: int, message: Seq<char>) -> Result<int, ErrorModel> {
    if found {
        Ok(index)
    } else {
        Err(ErrorModel::SyntaxError(message))
    }
}

/// Model of an index search's outcome.
pub open spec fn index_outcome(r: Result<usize, ParseError>) -> Result<int, ErrorModel> {
    match r {
        Ok(i) => Ok(i as int),
        Err(e) => Err(e@),
    }
}

/// Where a terminator stands anywhere, there is a first one, at that place
/// or before it.
pub proof fn lemma_terminator_has_first(bytes: Seq<u8>, i: int)
    requires
        terminator_at(bytes, i),
    ensures
        has_terminator(bytes),
        first_terminator(bytes) <= i,
    decreases i,
{
    if exists|j: int| 0 <= j < i && terminator_at(bytes, j) {
        let j = choose|j: int| 0 <= j < i && terminator_at(bytes, j);
        lemma_terminator_has_first(bytes, j);
    } else {
        lemma_first_terminator_is(bytes, i);
    }
}

/// Where a terminator stands anywhere, there is a last one, at that place
/// or behind it.
pub proof fn lemma_terminator_has_last(bytes: Seq<u8>, i: int)
    requires
        terminator_at(bytes, i),
    ensures
        has_last_terminator(bytes),
        last_terminator(bytes) >= i,
    decreases bytes.len() - i,
{
    if exists|j: int| i < j && terminator_at(bytes, j) {
        let j = choose|j: int| i < j && terminator_at(bytes, j);
        lemma_terminator_has_last(bytes, j);
    } else {
        lemma_last_terminator_is(bytes, i);
    }
}

/// Where a whitespace character starts anywhere, there is a first one, at
/// that place or before it.
pub proof fn lemma_whitespace_has_first(bytes: Seq<u8>, i: int)
    requires
        whitespace_at(bytes, i),
    ensures
        has_whitespace(bytes),
        first_whitespace(bytes) <= i,
    decreases i,
{
    if exists|j: int| 0 <= j < i && whitespace_at(bytes, j) {
        let j = choose|j: int| 0 <= j < i && whitespace_at(bytes, j);
        lemma_whitespace_has_first(bytes, j);
    } else {
        lemma_first_whitespace_is(bytes, i);
    }
}

/// Only one index can be the first terminator.
pub proof fn lemma_first_terminator_is(bytes: Seq<u8>, i: int)
    requires
        is_first_terminator(bytes, i),
    ensures
        has_terminator(bytes),
        first_terminator(bytes) == i,
{
}

/// Only one index can be the last terminator.
pub proof fn lemma_last_terminator_is(bytes: Seq<u8>, i: int)
    requires
        is_last_terminator(bytes, i),
    ensures
        has_last_terminator(bytes),
        last_terminator(bytes) == i,
{
}

/// Only one index can be the start of the first whitespace character.
pub proof fn lemma_first_whitespace_is(bytes: Seq<u8>, i: int)
    requires
        is_first_whitespace(bytes, i),
    ensures
        has_whitespace(bytes),
        first_whitespace(bytes) == i,
{
}

/// Finds the first terminator of `buffer`.
pub fn get_terminator_index(buffer: &str) -> (r: Result<usize, ParseError>)
    ensures
        index_outcome(r) == found_or(
            has_terminator(buffer.spec_bytes()),
            first_terminator(buffer.spec_bytes()),
            NO_TERMINATOR@,
        ),
        r is Ok <==> exists|i: int| terminator_at(buffer.spec_bytes(), i),
{
    let bytes = buffer.as_bytes();
    let n = bytes.len();
    let mut i: usize = 1;
    while i < n
        invariant
            n == bytes@.len(),
            bytes@ == buffer.spec_bytes(),
            1 <= i,
            forall|j: int| 0 <= j < i - 1 ==> !terminator_at(bytes@, j),
        decreases n - i,
    {
        if bytes[i - 1] == CARRIAGE_RETURN && bytes[i] == LINE_FEED {
            proof {
                lemma_first_terminator_is(bytes@, i - 1);
            }
            return Ok(i - 1);
        }
        i += 1;
    }
    Err(syntax_error(NO_TERMINATOR))
}

/// Finds the last terminator of `buffer`.
pub fn get_rterminator_index(buffer: &str) -> (r: Result<usize, ParseError>)
    ensures
        index_outcome(r) == found_or(
            has_last_terminator(buffer.spec_bytes()),
            last_terminator(buffer.spec_bytes()),
            NO_CLOSING_TERMINATOR@,
        ),
        r is Ok <==> exists|i: int| terminator_at(buffer.spec_bytes(), i),
{
    let bytes = buffer.as_bytes();
    let n = bytes.len();
    let mut i: usize = n;
    while i > 1
        invariant
            n == bytes@.len(),
            bytes@ == buffer.spec_bytes(),
            i <= n,
            forall|j: int| i - 1 <= j ==> !terminator_at(bytes@, j),
        decreases i,
    {
        if bytes[i - 2] == CARRIAGE_RETURN && bytes[i - 1] == LINE_FEED {
            proof {
                lemma_last_terminator_is(bytes@, i - 2);
            }
            return Ok(i - 2);
        }
        i -= 1;
    }
    Err(syntax_error(NO_CLOSING_TERMINATOR))
}

/// Finds the first whitespace character of `buffer`: the index of its first
/// byte.
pub fn get_whitespace_index(buffer: &str) -> (r: Result<usize, ParseError>)
    ensures
        index_outcome(r) == found_or(
            has_whitespace(buffer.spec_bytes()),
            first_whitespace(buffer.spec_bytes()),
            NO_WHITESPACE@,
        ),
        r is Ok <==> exists|i: int| whitespace_at(buffer.spec_bytes(), i),
        r is Err <==> no_whitespace(buffer@),
        r matches Ok(i) ==> {
            &&& is_char_boundary(buffer.spec_bytes(), i as int)
            &&& is_whitespace(
                text(buffer.spec_bytes(), i as int, buffer.spec_bytes().len() as int)[0],
            )
            &&& no_whitespace(text(buffer.spec_bytes(), 0, i as int))
        },
{
    let bytes = buffer.as_bytes();
    let n = bytes.len();
    let mut i: usize = 0;
    proof {
        encode_utf8_valid_utf8(buffer@);
        encode_utf8_decode_utf8(buffer@);
    }
    while i < n
        invariant
            n == bytes@.len(),
            bytes@ == buffer.spec_bytes(),
            valid_utf8(bytes@),
            decode_utf8(bytes@) == buffer@,
            forall|j: int| 0 <= j < i ==> !whitespace_at(bytes@, j),
        decreases n - i,
    {
        if whitespace_width(bytes, i) > 0 {
            proof {
                lemma_first_whitespace_is(bytes@, i as int);
                lemma_whitespace_is_a_character(bytes@, i as int);
                lemma_no_whitespace_before(bytes@, i as int);
                valid_utf8_split(bytes@, i as int);
                decode_utf8_split(bytes@, i as int);
                let head = text(bytes@, 0, i as int);
                let tail = text(bytes@, i as int, n as int);
                assert(tail.len() > 0);
                assert(buffer@ =~= head + tail);
                assert(buffer@[head.len() as int] == tail[0]);
            }
            return Ok(i);
        }
        i += 1;
    }
    proof {
        is_char_boundary_start_end_of_seq(bytes@);
        lemma_no_whitespace_before(bytes@, n as int);
        assert(bytes@.subrange(0, n as int) =~= bytes@);
    }
    Err(syntax_error(NO_WHITESPACE))
}

} // verus!
