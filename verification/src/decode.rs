use crate::number::{decimal, length, parse_decimal, parse_length};
use crate::resp::{
    classify_tag, errors_model, is_supported, items_model, lemma_aggregate_view, lemma_array_view,
    syntax_error, tag_of, Data, DataModel, Error, ErrorModel, ParseError, Tag, CARRIAGE_RETURN,
    INVALID_INTEGER, INVALID_LENGTH, LINE_FEED, MISSING_ELEMENT, NO_CLOSING_TERMINATOR,
    NO_TERMINATOR, NO_WHITESPACE, TAG_ARRAY, TAG_BULK_STRING, TAG_ERROR, TAG_INTEGER, TAG_STRING,
};
use crate::scan::{
    first_terminator, first_whitespace, get_terminator_index, get_whitespace_index,
    has_terminator, has_whitespace, index_outcome, is_first_terminator, terminator_at,
};
use crate::text::{
    copy_text, lemma_boundary_after_char, lemma_boundary_at_ascii, remaining, skip_bytes, text,
};
use crate::whitespace::{
    char_width, lemma_no_whitespace_before, no_whitespace, whitespace_at, whitespace_width,
};
use vstd::prelude::*;
use vstd::string::StringSliceAdditionalSpecFns;
use vstd::utf8::{
    encode_utf8_valid_utf8, is_char_boundary, is_char_boundary_iff_not_is_continuation_byte,
    is_char_boundary_start_end_of_seq, is_continuation_byte, valid_utf8, valid_utf8_split,
};

verus! {

/// Model of what a decoding function returns.
pub open spec fn outcome(r: Result<(Data, usize), ParseError>) -> Result<
    (DataModel, nat),
    ErrorModel,
> {
    match r {
        Ok((data, consumed)) => Ok((data@, consumed as nat)),
        Err(e) => Err(e@),
    }
}

/// Where the first line of a message with the given tag ends: the index of
/// its terminator.
pub open spec fn line_end(bytes: Seq<u8>, tag: u8) -> Result<int, ErrorModel> {
    if bytes.len() == 0 {
        Err(ErrorModel::EmptyBuffer)
    } else if bytes[0] != tag {
        Err(ErrorModel::InvalidPrefix)
    } else if !has_terminator(bytes) {
        Err(ErrorModel::SyntaxError(NO_TERMINATOR@))
    } else {
        Ok(first_terminator(bytes))
    }
}

/// A simple string: the text between the tag and the first terminator.
pub open spec fn decoded_string(bytes: Seq<u8>) -> Result<(DataModel, nat), ErrorModel> {
    match line_end(bytes, TAG_STRING) {
        Err(e) => Err(e),
        Ok(t) => Ok((DataModel::String(text(bytes, 1, t)), (t + 2) as nat)),
    }
}

/// An integer: the decimal number between the tag and the first terminator.
pub open spec fn decoded_integer(bytes: Seq<u8>) -> Result<(DataModel, nat), ErrorModel> {
    match line_end(bytes, TAG_INTEGER) {
        Err(e) => Err(e),
        Ok(t) => match decimal(bytes.subrange(1, t)) {
            Some(v) => Ok((DataModel::Integer(v), (t + 2) as nat)),
            None => Err(ErrorModel::SyntaxError(INVALID_INTEGER@)),
        },
    }
}

/// A simple error: the line is split at its first whitespace character into
/// the kind before it and the message behind it.
pub open spec fn decoded_error(bytes: Seq<u8>) -> Result<(DataModel, nat), ErrorModel> {
    match line_end(bytes, TAG_ERROR) {
        Err(e) => Err(e),
        Ok(t) => {
            let w = first_whitespace(bytes);
            if has_whitespace(bytes) && w < t {
                Ok(
                    (
                        DataModel::Error {
                            kind: text(bytes, 1, w),
                            message: text(bytes, w + char_width(bytes, w), t),
                        },
                        (t + 2) as nat,
                    ),
                )
            } else {
                Err(ErrorModel::SyntaxError(NO_WHITESPACE@))
            }
        },
    }
}

/// A bulk string: the first line declares the payload's length in bytes; the
/// payload follows the first terminator and a terminator follows the payload.
/// The declared length alone says where the payload ends.
pub open spec fn decoded_bulk_string(bytes: Seq<u8>) -> Result<(DataModel, nat), ErrorModel> {
    match line_end(bytes, TAG_BULK_STRING) {
        Err(e) => Err(e),
        Ok(t) => match length(bytes.subrange(1, t)) {
            Some(n) => if terminator_at(bytes, t + 2 + n) {
                Ok((DataModel::BulkString(text(bytes, t + 2, t + 2 + n)), (t + 2 + n + 2) as nat))
            } else {
                Err(ErrorModel::SyntaxError(NO_CLOSING_TERMINATOR@))
            },
            None => Err(ErrorModel::SyntaxError(INVALID_LENGTH@)),
        },
    }
}

/// What decoding a run of array elements has yielded so far.
pub struct Elements {
    /// The elements that decoded, each with the bytes it took up.
    pub items: Seq<(DataModel, nat)>,
    /// The bytes that those elements took up together.
    pub consumed: nat,
    /// The failures of the elements that did not decode.
    pub errors: Seq<ErrorModel>,
}

/// The entries that a failed element adds to its array's failure: those of
/// an aggregate, or the one error itself.
pub open spec fn entries(e: ErrorModel) -> Seq<ErrorModel> {
    match e {
        ErrorModel::Aggregate(es) => es,
        _ => seq![e],
    }
}

/// A message of any supported type: the first byte selects the type.
pub open spec fn decoded(bytes: Seq<u8>) -> Result<(DataModel, nat), ErrorModel>
    decreases bytes.len(), 2nat, 0nat,
{
    if bytes.len() == 0 {
        Err(ErrorModel::EmptyBuffer)
    } else {
        match tag_of(bytes[0]) {
            Tag::String => decoded_string(bytes),
            Tag::Error => decoded_error(bytes),
            Tag::Integer => decoded_integer(bytes),
            Tag::BulkString => decoded_bulk_string(bytes),
            Tag::Array => decoded_array(bytes),
            Tag::Reserved | Tag::Unknown => Err(ErrorModel::InvalidPrefix),
        }
    }
}

/// An array: the first line declares the number of elements, which follow
/// one behind the other. All of them are tried. If any fails, the array fails
/// with the entries of all failures. An element that the buffer has no byte
/// left for fails with a syntax error: the array is shorter than declared.
pub open spec fn decoded_array(bytes: Seq<u8>) -> Result<(DataModel, nat), ErrorModel>
    decreases bytes.len(), 1nat, 0nat,
{
    match line_end(bytes, TAG_ARRAY) {
        Err(e) => Err(e),
        Ok(t) => match decimal(bytes.subrange(1, t)) {
            Some(n) => if n < 0 {
                Err(ErrorModel::SyntaxError(INVALID_LENGTH@))
            } else {
                let elements = decoded_elements(remaining(bytes, t + 2), n as nat);
                if elements.errors.len() == 0 {
                    Ok((DataModel::Array(elements.items), (t + 2 + elements.consumed) as nat))
                } else {
                    Err(ErrorModel::Aggregate(elements.errors))
                }
            },
            None => Err(ErrorModel::SyntaxError(INVALID_LENGTH@)),
        },
    }
}

/// The first `count` elements at the start of `bytes`. Each is decoded where
/// the elements that decoded before it end; one that fails moves nothing.
pub open spec fn decoded_elements(bytes: Seq<u8>, count: nat) -> Elements
    decreases bytes.len(), 3nat, count,
{
    if count == 0 {
        Elements { items: Seq::empty(), consumed: 0, errors: Seq::empty() }
    } else {
        let before = decoded_elements(bytes, (count - 1) as nat);
        let rest = remaining(bytes, before.consumed as int);
        let element = if rest.len() == 0 {
            Err(ErrorModel::SyntaxError(MISSING_ELEMENT@))
        } else {
            decoded(rest)
        };
        match element {
            Ok((data, consumed)) => Elements {
                items: before.items.push((data, consumed)),
                consumed: before.consumed + consumed,
                errors: before.errors,
            },
            Err(e) => Elements {
                items: before.items,
                consumed: before.consumed,
                errors: before.errors + entries(e),
            },
        }
    }
}

/// A message that decodes ends right behind a terminator, and so inside the
/// buffer.
pub proof fn lemma_decoded_ends_behind_terminator(bytes: Seq<u8>)
    ensures
        decoded(bytes) matches Ok((_, consumed)) ==> terminator_at(bytes, consumed - 2),
    decreases bytes.len(), 1nat, 0nat,
{
    if bytes.len() > 0 && bytes[0] == TAG_ARRAY {
        if let Ok(t) = line_end(bytes, TAG_ARRAY) {
            if let Some(n) = decimal(bytes.subrange(1, t)) {
                if n >= 0 {
                    lemma_elements_end_behind_terminator(remaining(bytes, t + 2), n as nat);
                }
            }
        }
    }
}

/// The elements that decoded end inside the buffer, and right behind a
/// terminator unless they took up nothing.
pub proof fn lemma_elements_end_behind_terminator(bytes: Seq<u8>, count: nat)
    ensures
        ({
            let elements = decoded_elements(bytes, count);
            &&& elements.consumed <= bytes.len()
            &&& elements.consumed > 0 ==> terminator_at(bytes, elements.consumed - 2)
        }),
    decreases bytes.len(), 2nat, count,
{
    if count > 0 {
        lemma_elements_end_behind_terminator(bytes, (count - 1) as nat);
        let before = decoded_elements(bytes, (count - 1) as nat);
        lemma_decoded_ends_behind_terminator(remaining(bytes, before.consumed as int));
    }
}

/// Checks the tag of `buffer` and finds the terminator of its first line.
fn find_line_end(buffer: &str, tag: u8) -> (r: Result<usize, ParseError>)
    requires
        tag < 128,
        tag != CARRIAGE_RETURN,
    ensures
        index_outcome(r) == line_end(buffer.spec_bytes(), tag),
        r matches Ok(t) ==> {
            &&& 1 <= t
            &&& t + 2 <= usize::MAX
            &&& is_first_terminator(buffer.spec_bytes(), t as int)
            &&& is_char_boundary(buffer.spec_bytes(), 1)
            &&& is_char_boundary(buffer.spec_bytes(), t as int)
            &&& is_char_boundary(buffer.spec_bytes(), t + 2)
        },
{
    let bytes = buffer.as_bytes();
    if bytes.len() == 0 {
        return Err(ParseError::EmptyBuffer);
    }
    if bytes[0] != tag {
        return Err(ParseError::InvalidPrefix);
    }
    let t = get_terminator_index(buffer)?;
    proof {
        encode_utf8_valid_utf8(buffer@);
        lemma_boundary_at_ascii(bytes@, 0);
        lemma_boundary_at_ascii(bytes@, t as int);
        lemma_boundary_at_ascii(bytes@, t + 1);
    }
    Ok(t)
}

/// Decodes the simple string at the start of `buffer`.
pub fn parse_string(buffer: &str) -> (r: Result<(Data, usize), ParseError>)
    ensures
        outcome(r) == decoded_string(buffer.spec_bytes()),
{
    let t = find_line_end(buffer, TAG_STRING)?;
    let data = copy_text(buffer, 1, t);
    Ok((Data::String(data), t + 2))
}

/// Decodes the integer at the start of `buffer`.
pub fn parse_integer(buffer: &str) -> (r: Result<(Data, usize), ParseError>)
    ensures
        outcome(r) == decoded_integer(buffer.spec_bytes()),
{
    let t = find_line_end(buffer, TAG_INTEGER)?;
    match parse_decimal(buffer.as_bytes(), 1, t) {
        Some(v) => Ok((Data::Integer(v), t + 2)),
        None => Err(syntax_error(INVALID_INTEGER)),
    }
}

/// Decodes the simple error at the start of `buffer`.
pub fn parse_error(buffer: &str) -> (r: Result<(Data, usize), ParseError>)
    ensures
        outcome(r) == decoded_error(buffer.spec_bytes()),
        r matches Ok((Data::Error(e), _)) ==> no_whitespace(e.kind@),
{
    let t = find_line_end(buffer, TAG_ERROR)?;
    let w = get_whitespace_index(buffer)?;
    if w >= t {
        return Err(syntax_error(NO_WHITESPACE));
    }
    let width = whitespace_width(buffer.as_bytes(), w);
    proof {
        let bytes = buffer.spec_bytes();
        encode_utf8_valid_utf8(buffer@);
        assert(!is_continuation_byte(remaining(bytes, w as int)[0]));
        is_char_boundary_iff_not_is_continuation_byte(bytes, w as int);
        lemma_boundary_after_char(bytes, w as int);
        assert(w + width <= t) by {
            if t < w + width {
                assert(is_continuation_byte(bytes[t as int]));
            }
        }
        let line = remaining(bytes, 1);
        valid_utf8_split(bytes, 1);
        assert(line[w - 1] == bytes[w as int]);
        is_char_boundary_iff_not_is_continuation_byte(line, w - 1);
        assert forall|j: int| 0 <= j < w - 1 implies !whitespace_at(line, j) by {
            assert(remaining(line, j) =~= remaining(bytes, j + 1));
            assert(!whitespace_at(bytes, j + 1));
        }
        lemma_no_whitespace_before(line, w - 1);
        assert(line.subrange(0, w - 1) =~= bytes.subrange(1, w as int));
    }
    let kind = copy_text(buffer, 1, w);
    let message = copy_text(buffer, w + width, t);
    Ok((Data::Error(Error { message, kind }), t + 2))
}

/// Decodes the bulk string at the start of `buffer`.
pub fn parse_bulk_string(buffer: &str) -> (r: Result<(Data, usize), ParseError>)
    ensures
        outcome(r) == decoded_bulk_string(buffer.spec_bytes()),
{
    let t = find_line_end(buffer, TAG_BULK_STRING)?;
    let bytes = buffer.as_bytes();
    let n = match parse_length(bytes, 1, t) {
        Some(n) => n,
        None => {
            return Err(syntax_error(INVALID_LENGTH));
        },
    };
    let start = t + 2;
    let available = bytes.len() - start;
    if available < 2 || n > available - 2 {
        return Err(syntax_error(NO_CLOSING_TERMINATOR));
    }
    let end = start + n;
    if bytes[end] != CARRIAGE_RETURN || bytes[end + 1] != LINE_FEED {
        return Err(syntax_error(NO_CLOSING_TERMINATOR));
    }
    proof {
        encode_utf8_valid_utf8(buffer@);
        lemma_boundary_at_ascii(bytes@, end as int);
    }
    let data = copy_text(buffer, start, end);
    Ok((Data::BulkString(data), end + 2))
}

/// The model of the state that decoding an array's elements is in.
pub open spec fn elements_model(
    items: Seq<(Data, usize)>,
    consumed: usize,
    errors: Seq<ParseError>,
) -> Elements {
    Elements {
        items: items_model(items),
        consumed: consumed as nat,
        errors: errors_model(errors),
    }
}

/// Decodes the array at the start of `buffer`.
pub fn parse_array(buffer: &str) -> (r: Result<(Data, usize), ParseError>)
    ensures
        outcome(r) == decoded_array(buffer.spec_bytes()),
    decreases buffer.spec_bytes().len(), 0nat,
{
    let t = find_line_end(buffer, TAG_ARRAY)?;
    let declared = match parse_decimal(buffer.as_bytes(), 1, t) {
        Some(n) => n,
        None => {
            return Err(syntax_error(INVALID_LENGTH));
        },
    };
    if declared < 0 {
        return Err(syntax_error(INVALID_LENGTH));
    }
    let count = declared as usize;
    let start = t + 2;
    let total = buffer.as_bytes().len();
    let body = skip_bytes(buffer, start);
    let ghost all = body.spec_bytes();
    let mut items: Vec<(Data, usize)> = Vec::new();
    let mut errors: Vec<ParseError> = Vec::new();
    let mut consumed: usize = 0;
    let mut tried: usize = 0;
    proof {
        encode_utf8_valid_utf8(body@);
        is_char_boundary_start_end_of_seq(all);
        assert(items_model(items@) =~= Seq::empty());
        assert(errors_model(errors@) =~= Seq::empty());
    }
    while tried < count
        invariant
            all == body.spec_bytes(),
            start + all.len() == total == buffer.spec_bytes().len(),
            start > 0,
            valid_utf8(all),
            tried <= count,
            consumed <= all.len(),
            is_char_boundary(all, consumed as int),
            elements_model(items@, consumed, errors@) == decoded_elements(all, tried as nat),
        decreases count - tried,
    {
        let rest = skip_bytes(body, consumed);
        let ghost before = (items@, errors@);
        let element = if rest.len() == 0 {
            Err(syntax_error(MISSING_ELEMENT))
        } else {
            parse(rest)
        };
        match element {
            Ok((data, n)) => {
                proof {
                    lemma_decoded_ends_behind_terminator(rest.spec_bytes());
                    lemma_boundary_at_ascii(all, consumed + n - 1);
                }
                items.push((data, n));
                consumed += n;
                assert(items_model(items@) =~= items_model(before.0).push((data@, n as nat)));
            },
            Err(e) => {
                match e {
                    ParseError::Aggregate(es) => {
                        proof {
                            lemma_aggregate_view(es);
                        }
                        let mut es = es;
                        errors.append(&mut es);
                    },
                    other => {
                        errors.push(other);
                    },
                }
                assert(errors_model(errors@) =~= errors_model(before.1) + entries(e@));
            },
        }
        tried += 1;
    }
    if errors.len() == 0 {
        proof {
            lemma_array_view(items);
        }
        Ok((Data::Array(items), start + consumed))
    } else {
        proof {
            lemma_aggregate_view(errors);
        }
        Err(ParseError::Aggregate(errors))
    }
}

/// Decodes the message at the start of `buffer`: its value, and the number
/// of bytes that it takes up.
pub fn parse(buffer: &str) -> (r: Result<(Data, usize), ParseError>)
    ensures
        outcome(r) == decoded(buffer.spec_bytes()),
        buffer.spec_bytes().len() == 0 ==> r matches Err(ParseError::EmptyBuffer),
        buffer.spec_bytes().len() > 0 && !is_supported(buffer.spec_bytes()[0]) ==> r matches Err(
            ParseError::InvalidPrefix,
        ),
        r matches Ok((_, consumed)) ==> 3 <= consumed <= buffer.spec_bytes().len(),
    decreases buffer.spec_bytes().len(), 1nat,
{
    let bytes = buffer.as_bytes();
    if bytes.len() == 0 {
        return Err(ParseError::EmptyBuffer);
    }
    proof {
        lemma_decoded_ends_behind_terminator(bytes@);
    }
    match classify_tag(bytes[0]) {
        Tag::String => parse_string(buffer),
        Tag::Error => parse_error(buffer),
        Tag::Integer => parse_integer(buffer),
        Tag::BulkString => parse_bulk_string(buffer),
        Tag::Array => parse_array(buffer),
        Tag::Reserved | Tag::Unknown => Err(ParseError::InvalidPrefix),
    }
}

} // verus!
