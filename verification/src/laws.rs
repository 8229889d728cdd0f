use crate::decode::{
    decoded, decoded_elements, entries, lemma_decoded_ends_behind_terminator,
    lemma_elements_end_behind_terminator, line_end,
};
use crate::number::{decimal, digits_of, is_decimal, lemma_digits_of, length, magnitude};
use crate::resp::{
    DataModel, ErrorModel, CARRIAGE_RETURN, LINE_FEED, MISSING_ELEMENT, SPACE, TAG_ARRAY,
    TAG_BULK_STRING, TAG_ERROR, TAG_INTEGER, TAG_STRING,
};
use crate::scan::{
    first_terminator, first_whitespace, is_first_terminator, lemma_first_terminator_is,
    lemma_first_whitespace_is, terminator_at,
};
use crate::text::remaining;
use crate::whitespace::{
    char_width, lemma_no_whitespace_encoded, lemma_whitespace_bytes, no_whitespace, whitespace_at,
    whitespace_width_at,
};
use vstd::prelude::*;
use vstd::utf8::{encode_utf8, encode_utf8_decode_utf8, encode_utf8_valid_utf8};

verus! {

/// No terminator starts anywhere in `bytes`.
pub open spec fn terminator_free(bytes: Seq<u8>) -> bool {
    forall|i: int| !terminator_at(bytes, i)
}

/// The two bytes of a terminator.
pub open spec fn terminator() -> Seq<u8> {
    seq![CARRIAGE_RETURN, LINE_FEED]
}

/// A line: a tag, a field without a terminator in it, and a terminator.
pub open spec fn line(tag: u8, field: Seq<u8>) -> Seq<u8> {
    seq![tag] + field + terminator()
}

/// The first terminator of a line, whatever follows the line, is the one
/// that ends it.
pub proof fn lemma_line_end(tag: u8, field: Seq<u8>, rest: Seq<u8>)
    requires
        tag != CARRIAGE_RETURN,
        terminator_free(field),
    ensures
        line_end(line(tag, field) + rest, tag) == Ok::<int, ErrorModel>(field.len() as int + 1),
        (line(tag, field) + rest).subrange(1, field.len() as int + 1) == field,
        remaining(line(tag, field) + rest, field.len() as int + 3) == rest,
{
    let bytes = line(tag, field) + rest;
    let t: int = field.len() as int + 1;
    assert forall|j: int| 0 <= j < t implies !terminator_at(bytes, j) by {
        if 1 <= j && j + 1 < t {
            assert(!terminator_at(field, j - 1));
        }
    }
    lemma_first_terminator_is(bytes, t);
    assert(remaining(bytes, t + 2) =~= rest);
}

/// A well-formed decimal field holds no terminator.
pub proof fn lemma_decimal_is_terminator_free(field: Seq<u8>)
    requires
        is_decimal(field),
    ensures
        terminator_free(field),
{
    assert forall|i: int| !terminator_at(field, i) by {
        if 0 <= i && i + 1 < field.len() {
            let sign = field.len() - magnitude(field).len();
            assert(magnitude(field)[i + 1 - sign] == field[i + 1]);
        }
    }
}

/// Every encoding of a simple string decodes to its text and takes up
/// exactly the encoding, whatever follows it in the buffer.
pub proof fn lemma_decodes_encoded_string(content: Seq<char>, rest: Seq<u8>)
    requires
        terminator_free(encode_utf8(content)),
    ensures
        decoded(line(TAG_STRING, encode_utf8(content)) + rest) == Ok::<
            (DataModel, nat),
            ErrorModel,
        >((DataModel::String(content), line(TAG_STRING, encode_utf8(content)).len())),
{
    lemma_line_end(TAG_STRING, encode_utf8(content), rest);
    encode_utf8_decode_utf8(content);
}

/// Every encoding of an integer decodes to its value and takes up exactly
/// the encoding, whatever follows it in the buffer.
pub proof fn lemma_decodes_encoded_integer(field: Seq<u8>, rest: Seq<u8>)
    requires
        decimal(field) is Some,
    ensures
        decoded(line(TAG_INTEGER, field) + rest) == Ok::<(DataModel, nat), ErrorModel>(
            (DataModel::Integer(decimal(field)->0), line(TAG_INTEGER, field).len()),
        ),
{
    lemma_decimal_is_terminator_free(field);
    lemma_line_end(TAG_INTEGER, field, rest);
}

/// Every encoding of a simple error, with one space between a kind without
/// a whitespace character and the message, decodes to that kind and message and takes up
/// exactly the encoding, whatever follows it in the buffer.
pub proof fn lemma_decodes_encoded_error(kind: Seq<char>, message: Seq<char>, rest: Seq<u8>)
    requires
        no_whitespace(kind),
        terminator_free(encode_utf8(message)),
    ensures
        decoded(
            line(TAG_ERROR, encode_utf8(kind) + seq![SPACE] + encode_utf8(message)) + rest,
        ) == Ok::<(DataModel, nat), ErrorModel>(
            (
                DataModel::Error { kind, message },
                line(TAG_ERROR, encode_utf8(kind) + seq![SPACE] + encode_utf8(message)).len(),
            ),
        ),
{
    let k = encode_utf8(kind);
    let m = encode_utf8(message);
    let field = k + seq![SPACE] + m;
    let bytes = line(TAG_ERROR, field) + rest;
    let w: int = k.len() as int + 1;
    encode_utf8_valid_utf8(kind);
    encode_utf8_decode_utf8(kind);
    assert forall|i: int| !whitespace_at(k, i) by {
        lemma_no_whitespace_encoded(k, i);
    }
    assert forall|i: int| !terminator_at(field, i) by {
        if 0 <= i && i + 1 < field.len() {
            if i < k.len() {
                lemma_whitespace_bytes(k, i);
            } else if i > k.len() {
                assert(!terminator_at(m, i - k.len() - 1));
            }
        }
    }
    lemma_line_end(TAG_ERROR, field, rest);
    assert(bytes[w] == SPACE);
    lemma_whitespace_bytes(bytes, w);
    assert forall|j: int| 0 <= j < w implies !whitespace_at(bytes, j) by {
        lemma_whitespace_bytes(bytes, j);
        if 1 <= j {
            lemma_whitespace_bytes(k, j - 1);
            assert(bytes[j] == k[j - 1]);
            if j + 1 < w {
                assert(bytes[j + 1] == k[j]);
            }
            if j + 2 < w {
                assert(bytes[j + 2] == k[j + 1]);
            }
        }
    }
    lemma_first_whitespace_is(bytes, w);
    assert(bytes.subrange(1, w) =~= k);
    assert(bytes.subrange(w + 1, field.len() as int + 1) =~= m);
    encode_utf8_decode_utf8(kind);
    encode_utf8_decode_utf8(message);
}

/// Every encoding of a bulk string, whose first line declares the byte
/// length of the payload, decodes to the payload and takes up exactly the
/// encoding, whatever the payload holds and whatever follows in the buffer.
pub proof fn lemma_decodes_encoded_bulk_string(field: Seq<u8>, payload: Seq<char>, rest: Seq<u8>)
    requires
        length(field) == Some(encode_utf8(payload).len()),
    ensures
        decoded(line(TAG_BULK_STRING, field) + encode_utf8(payload) + terminator() + rest)
            == Ok::<(DataModel, nat), ErrorModel>(
            (
                DataModel::BulkString(payload),
                line(TAG_BULK_STRING, field).len() + encode_utf8(payload).len() + 2,
            ),
        ),
{
    let p = encode_utf8(payload);
    let tail = p + terminator() + rest;
    let bytes = line(TAG_BULK_STRING, field) + p + terminator() + rest;
    assert(bytes =~= line(TAG_BULK_STRING, field) + tail);
    lemma_decimal_is_terminator_free(field);
    lemma_line_end(TAG_BULK_STRING, field, tail);
    let start: int = field.len() as int + 3;
    assert(bytes.subrange(start, start + p.len()) =~= p);
    encode_utf8_decode_utf8(payload);
}

/// The encoding of any payload as a bulk string, with its byte length
/// written in decimal digits, decodes to the payload and takes up the tag,
/// the digits, the payload and both terminators, whatever the payload holds
/// and whatever follows in the buffer.
pub proof fn lemma_decodes_any_bulk_string(payload: Seq<char>, rest: Seq<u8>)
    ensures
        ({
            let p = encode_utf8(payload);
            let field = digits_of(p.len());
            decoded(line(TAG_BULK_STRING, field) + p + terminator() + rest) == Ok::<
                (DataModel, nat),
                ErrorModel,
            >((DataModel::BulkString(payload), 1 + field.len() + 2 + p.len() + 2))
        }),
{
    let p = encode_utf8(payload);
    lemma_digits_of(p.len());
    lemma_decodes_encoded_bulk_string(digits_of(p.len()), payload, rest);
}

/// An array that declares no element decodes to the empty array and takes
/// up its first line, whatever follows that line.
pub proof fn lemma_empty_array(bytes: Seq<u8>)
    requires
        line_end(bytes, TAG_ARRAY) is Ok,
        decimal(bytes.subrange(1, line_end(bytes, TAG_ARRAY)->Ok_0)) == Some(0int),
    ensures
        decoded(bytes) == Ok::<(DataModel, nat), ErrorModel>(
            (DataModel::Array(Seq::empty()), (line_end(bytes, TAG_ARRAY)->Ok_0 + 2) as nat),
        ),
{
}

/// What trying the element with the given index yields, among the elements
/// at the start of `bytes`.
pub open spec fn attempt(bytes: Seq<u8>, index: nat) -> Result<(DataModel, nat), ErrorModel> {
    let rest = remaining(bytes, decoded_elements(bytes, index).consumed as int);
    if rest.len() == 0 {
        Err(ErrorModel::SyntaxError(MISSING_ELEMENT@))
    } else {
        decoded(rest)
    }
}

/// How many of the first `count` elements fail.
pub open spec fn failures(bytes: Seq<u8>, count: nat) -> nat
    decreases count,
{
    if count == 0 {
        0
    } else {
        let failed: nat = if attempt(bytes, (count - 1) as nat) is Err {
            1
        } else {
            0
        };
        failures(bytes, (count - 1) as nat) + failed
    }
}

/// Each of the first `count` elements that fails adds one entry: none fails
/// with an aggregate of several.
pub open spec fn one_entry_each(bytes: Seq<u8>, count: nat) -> bool {
    forall|i: nat|
        i < count ==> (#[trigger] attempt(bytes, i) matches Err(e) ==> entries(e).len() == 1)
}

/// No entry is an aggregate.
pub open spec fn is_flat(errors: Seq<ErrorModel>) -> bool {
    forall|i: int| 0 <= i < errors.len() ==> !(#[trigger] errors[i] is Aggregate)
}

/// A failure that is an aggregate holds at least one entry, and no entry of
/// it is an aggregate again.
pub proof fn lemma_aggregate_is_flat(bytes: Seq<u8>)
    ensures
        decoded(bytes) matches Err(ErrorModel::Aggregate(errors)) ==> errors.len() > 0 && is_flat(
            errors,
        ),
    decreases bytes.len(), 1nat, 0nat,
{
    if bytes.len() > 0 && bytes[0] == TAG_ARRAY {
        if let Ok(t) = line_end(bytes, TAG_ARRAY) {
            if let Some(n) = decimal(bytes.subrange(1, t)) {
                if n >= 0 {
                    lemma_elements_account(remaining(bytes, t + 2), n as nat);
                }
            }
        }
    }
}

/// Of `count` elements each one either decodes, and is among the items, or
/// fails, and adds its entries to the errors. The errors hold no aggregate
/// and one entry at least for each element that failed: exactly as many
/// entries as elements failed, where each failure adds one entry.
pub proof fn lemma_elements_account(bytes: Seq<u8>, count: nat)
    ensures
        ({
            let elements = decoded_elements(bytes, count);
            &&& elements.items.len() + failures(bytes, count) == count
            &&& is_flat(elements.errors)
            &&& elements.errors.len() >= failures(bytes, count)
            &&& one_entry_each(bytes, count) ==> elements.errors.len() == failures(
                bytes,
                count,
            )
        }),
    decreases bytes.len(), 2nat, count,
{
    if count > 0 {
        let last = (count - 1) as nat;
        lemma_elements_account(bytes, last);
        let before = decoded_elements(bytes, last);
        lemma_aggregate_is_flat(remaining(bytes, before.consumed as int));
        if one_entry_each(bytes, count) {
            assert(one_entry_each(bytes, last)) by {
                assert forall|i: nat| i < last implies (#[trigger] attempt(bytes, i) matches Err(
                    e,
                ) ==> entries(e).len() == 1) by {
                    assert(i < count);
                }
            }
        }
    }
}

/// An array of which at least one element fails, fails with one aggregate.
/// It holds an entry at least for each element that failed, none of them an
/// aggregate, and exactly as many entries as elements failed, where each
/// failure adds one entry. An array of which no element fails holds as many
/// items as its first line declares.
pub proof fn lemma_array_aggregates_failures(bytes: Seq<u8>)
    requires
        line_end(bytes, TAG_ARRAY) is Ok,
        decimal(bytes.subrange(1, line_end(bytes, TAG_ARRAY)->Ok_0)) is Some,
        decimal(bytes.subrange(1, line_end(bytes, TAG_ARRAY)->Ok_0))->0 >= 0,
    ensures
        ({
            let t = line_end(bytes, TAG_ARRAY)->Ok_0;
            let n = decimal(bytes.subrange(1, t))->0 as nat;
            let body = remaining(bytes, t + 2);
            let k = failures(body, n);
            &&& k > 0 ==> {
                &&& decoded(bytes) matches Err(ErrorModel::Aggregate(errors))
                &&& errors == decoded_elements(body, n).errors
                &&& is_flat(errors)
                &&& errors.len() >= k
                &&& one_entry_each(body, n) ==> errors.len() == k
            }
            &&& k == 0 ==> {
                &&& decoded(bytes) matches Ok((DataModel::Array(items), _))
                &&& items.len() == n
            }
        }),
{
    let t = line_end(bytes, TAG_ARRAY)->Ok_0;
    let n = decimal(bytes.subrange(1, t))->0 as nat;
    lemma_elements_account(remaining(bytes, t + 2), n);
    lemma_failures_leave_errors(remaining(bytes, t + 2), n);
}

/// The errors are empty exactly where no element failed.
pub proof fn lemma_failures_leave_errors(bytes: Seq<u8>, count: nat)
    ensures
        decoded_elements(bytes, count).errors.len() == 0 <==> failures(bytes, count) == 0,
    decreases count,
{
    lemma_elements_account(bytes, count);
    if count > 0 {
        lemma_failures_leave_errors(bytes, (count - 1) as nat);
    }
}

/// The bytes that the given items took up together.
pub open spec fn total_consumed(items: Seq<(DataModel, nat)>) -> nat
    decreases items.len(),
{
    if items.len() == 0 {
        0
    } else {
        total_consumed(items.drop_last()) + items.last().1
    }
}

/// The elements took up what the items that decoded took up, one by one.
pub proof fn lemma_elements_consumed(bytes: Seq<u8>, count: nat)
    ensures
        decoded_elements(bytes, count).consumed == total_consumed(
            decoded_elements(bytes, count).items,
        ),
    decreases count,
{
    if count > 0 {
        let before = decoded_elements(bytes, (count - 1) as nat);
        lemma_elements_consumed(bytes, (count - 1) as nat);
        let after = decoded_elements(bytes, count);
        if after.items.len() > before.items.len() {
            assert(after.items.drop_last() =~= before.items);
        }
    }
}

/// Where none of `count` elements fails, the items are what the attempts
/// yielded, in order, and each attempt starts where the items before it end.
pub proof fn lemma_elements_are_attempts(bytes: Seq<u8>, count: nat, i: nat)
    requires
        failures(bytes, count) == 0,
        i < count,
    ensures
        ({
            let items = decoded_elements(bytes, count).items;
            &&& items.len() == count
            &&& decoded_elements(bytes, i).items == items.subrange(0, i as int)
            &&& decoded(remaining(bytes, total_consumed(items.subrange(0, i as int)) as int))
                == Ok::<(DataModel, nat), ErrorModel>(items[i as int])
        }),
    decreases count,
{
    let last = (count - 1) as nat;
    let items = decoded_elements(bytes, count).items;
    let before = decoded_elements(bytes, last);
    lemma_elements_account(bytes, count);
    lemma_elements_account(bytes, last);
    assert(attempt(bytes, last) is Ok);
    assert(items.subrange(0, last as int) =~= before.items);
    if i < last {
        lemma_elements_are_attempts(bytes, last, i);
        assert(items.subrange(0, i as int) =~= before.items.subrange(0, i as int));
    } else {
        lemma_elements_consumed(bytes, last);
    }
}

/// An array takes up its first line and what its elements take up, and
/// nothing more.
pub proof fn lemma_array_consumed(bytes: Seq<u8>)
    requires
        decoded(bytes) matches Ok((DataModel::Array(_), _)),
    ensures
        ({
            let items = decoded(bytes)->Ok_0.0->Array_0;
            let t = first_terminator(bytes);
            &&& bytes[0] == TAG_ARRAY
            &&& is_first_terminator(bytes, t)
            &&& decimal(bytes.subrange(1, t)) == Some(items.len() as int)
            &&& decoded(bytes)->Ok_0.1 == t + 2 + total_consumed(items)
        }),
{
    let t = first_terminator(bytes);
    let n = decimal(bytes.subrange(1, t))->0 as nat;
    let body = remaining(bytes, t + 2);
    lemma_elements_consumed(body, n);
    lemma_elements_account(body, n);
    lemma_failures_leave_errors(body, n);
}

/// Each element of an array is what decoding yields where the elements
/// before it end: a nested array is decoded as any array is.
pub proof fn lemma_array_element(bytes: Seq<u8>, i: int)
    requires
        decoded(bytes) matches Ok((DataModel::Array(items), _)) && 0 <= i < items.len(),
    ensures
        ({
            let items = decoded(bytes)->Ok_0.0->Array_0;
            let start = first_terminator(bytes) + 2 + total_consumed(items.subrange(0, i));
            decoded(remaining(bytes, start)) == Ok::<(DataModel, nat), ErrorModel>(items[i])
        }),
{
    let items = decoded(bytes)->Ok_0.0->Array_0;
    let t = first_terminator(bytes);
    let n = decimal(bytes.subrange(1, t))->0 as nat;
    let body = remaining(bytes, t + 2);
    lemma_array_consumed(bytes);
    lemma_failures_leave_errors(body, n);
    lemma_elements_are_attempts(body, n, i as nat);
    let offset = total_consumed(items.subrange(0, i)) as int;
    lemma_elements_consumed(body, i as nat);
    lemma_elements_end_behind_terminator(body, i as nat);
    assert(remaining(body, offset) =~= remaining(bytes, t + 2 + offset));
}

/// How deep the arrays of a value nest: 0 for a scalar, 1 for an array of
/// scalars or an empty one.
pub open spec fn depth(data: DataModel) -> nat
    decreases data,
{
    match data {
        DataModel::Array(items) => 1 + deepest(items),
        _ => 0,
    }
}

/// The depth of the deepest of the given items.
pub open spec fn deepest(items: Seq<(DataModel, nat)>) -> nat
    decreases items,
{
    if items.len() == 0 {
        0
    } else {
        let before = deepest(items.drop_last());
        let last = depth(items.last().0);
        if before >= last {
            before
        } else {
            last
        }
    }
}

/// How deep the array headers nest in the message at the start of `bytes`:
/// 0 where it is no array, else one more than its deepest element.
pub open spec fn nesting(bytes: Seq<u8>) -> nat
    decreases bytes.len(), 1nat, 0nat,
{
    match line_end(bytes, TAG_ARRAY) {
        Err(_) => 0,
        Ok(t) => match decimal(bytes.subrange(1, t)) {
            Some(n) => if n < 0 {
                0
            } else {
                1 + deepest_nesting(remaining(bytes, t + 2), n as nat)
            },
            None => 0,
        },
    }
}

/// The nesting of the deepest of the first `count` elements at the start of
/// `bytes`.
pub open spec fn deepest_nesting(bytes: Seq<u8>, count: nat) -> nat
    decreases bytes.len(), 2nat, count,
{
    if count == 0 {
        0
    } else {
        let before = deepest_nesting(bytes, (count - 1) as nat);
        let start = decoded_elements(bytes, (count - 1) as nat).consumed;
        let last = nesting(remaining(bytes, start as int));
        if before >= last {
            before
        } else {
            last
        }
    }
}

/// A value that was decoded nests as deep as the array headers of its
/// encoding do.
pub proof fn lemma_depth_is_nesting(bytes: Seq<u8>)
    requires
        decoded(bytes) is Ok,
    ensures
        depth(decoded(bytes)->Ok_0.0) == nesting(bytes),
    decreases bytes.len(), 1nat, 0nat,
{
    if bytes[0] == TAG_ARRAY {
        let t = first_terminator(bytes);
        let n = decimal(bytes.subrange(1, t))->0 as nat;
        let body = remaining(bytes, t + 2);
        lemma_failures_leave_errors(body, n);
        lemma_deepest_is_nesting(body, n);
    }
}

/// Where none of `count` elements fails, the deepest item nests as deep as
/// the deepest element's encoding.
pub proof fn lemma_deepest_is_nesting(bytes: Seq<u8>, count: nat)
    requires
        failures(bytes, count) == 0,
    ensures
        deepest(decoded_elements(bytes, count).items) == deepest_nesting(bytes, count),
    decreases bytes.len(), 2nat, count,
{
    if count > 0 {
        let last = (count - 1) as nat;
        let before = decoded_elements(bytes, last);
        lemma_deepest_is_nesting(bytes, last);
        lemma_depth_is_nesting(remaining(bytes, before.consumed as int));
        assert(decoded_elements(bytes, count).items.drop_last() =~= before.items);
    }
}

/// The two buffers hold the same first `n` bytes.
pub open spec fn same_start(a: Seq<u8>, b: Seq<u8>, n: int) -> bool {
    &&& 0 <= n <= a.len()
    &&& n <= b.len()
    &&& a.subrange(0, n) == b.subrange(0, n)
}

/// A message that decodes is decoded from the bytes it takes up alone: a
/// buffer that starts with the same bytes decodes to the same value and
/// count, whatever follows them.
pub proof fn lemma_decoded_reads_what_it_consumes(bytes: Seq<u8>, other: Seq<u8>)
    requires
        decoded(bytes) is Ok,
        same_start(bytes, other, decoded(bytes)->Ok_0.1 as int),
    ensures
        decoded(other) == decoded(bytes),
    decreases bytes.len(), 1nat, 0nat,
{
    let consumed = decoded(bytes)->Ok_0.1 as int;
    let t = first_terminator(bytes);
    lemma_decoded_ends_behind_terminator(bytes);
    assert forall|j: int| 0 <= j < consumed implies bytes[j] == other[j] by {
        assert(bytes.subrange(0, consumed)[j] == other.subrange(0, consumed)[j]);
    }
    assert forall|j: int| 0 <= j < t implies !terminator_at(other, j) by {
        assert(!terminator_at(bytes, j));
    }
    lemma_first_terminator_is(other, t);
    assert(bytes.subrange(1, t) =~= other.subrange(1, t));
    if bytes[0] == TAG_ERROR {
        let w = first_whitespace(bytes);
        assert forall|j: int| 0 <= j <= w implies whitespace_width_at(bytes, j)
            == whitespace_width_at(other, j) by {
            assert(bytes[j] == other[j] && bytes[j + 1] == other[j + 1] && bytes[j + 2]
                == other[j + 2]);
        }
        assert forall|j: int| 0 <= j <= w implies whitespace_at(bytes, j) == whitespace_at(
            other,
            j,
        ) by {
            lemma_whitespace_bytes(bytes, j);
            lemma_whitespace_bytes(other, j);
        }
        lemma_first_whitespace_is(other, w);
        lemma_whitespace_bytes(bytes, w);
        lemma_whitespace_bytes(other, w);
        let behind = w + char_width(bytes, w);
        assert(bytes.subrange(1, w) =~= other.subrange(1, w));
        assert(bytes.subrange(behind, t) =~= other.subrange(behind, t));
    } else if bytes[0] == TAG_BULK_STRING {
        let n = length(bytes.subrange(1, t))->0 as int;
        assert(bytes.subrange(t + 2, t + 2 + n) =~= other.subrange(t + 2, t + 2 + n));
    } else if bytes[0] == TAG_ARRAY {
        let n = decimal(bytes.subrange(1, t))->0 as nat;
        let body = remaining(bytes, t + 2);
        let other_body = remaining(other, t + 2);
        let taken = decoded_elements(body, n).consumed as int;
        lemma_failures_leave_errors(body, n);
        lemma_elements_end_behind_terminator(body, n);
        assert(body.subrange(0, taken) =~= bytes.subrange(0, consumed).subrange(t + 2, consumed));
        assert(other_body.subrange(0, taken) =~= other.subrange(0, consumed).subrange(
            t + 2,
            consumed,
        ));
        lemma_elements_read_what_they_consume(body, other_body, n);
    }
}

/// Elements that all decode are decoded from the bytes they take up alone.
pub proof fn lemma_elements_read_what_they_consume(bytes: Seq<u8>, other: Seq<u8>, count: nat)
    requires
        failures(bytes, count) == 0,
        same_start(bytes, other, decoded_elements(bytes, count).consumed as int),
    ensures
        decoded_elements(other, count) == decoded_elements(bytes, count),
    decreases bytes.len(), 2nat, count,
{
    if count > 0 {
        let last = (count - 1) as nat;
        let taken = decoded_elements(bytes, count).consumed as int;
        let start = decoded_elements(bytes, last).consumed as int;
        lemma_elements_end_behind_terminator(bytes, count);
        assert(bytes.subrange(0, start) =~= bytes.subrange(0, taken).subrange(0, start));
        assert(other.subrange(0, start) =~= other.subrange(0, taken).subrange(0, start));
        lemma_elements_read_what_they_consume(bytes, other, last);
        let here = remaining(bytes, start);
        let there = remaining(other, start);
        assert(here.subrange(0, taken - start) =~= bytes.subrange(0, taken).subrange(
            start,
            taken,
        ));
        assert(there.subrange(0, taken - start) =~= other.subrange(0, taken).subrange(
            start,
            taken,
        ));
        lemma_decoded_reads_what_it_consumes(here, there);
    }
}

/// The given encodings one behind the other.
pub open spec fn concat(parts: Seq<Seq<u8>>) -> Seq<u8>
    decreases parts.len(),
{
    if parts.len() == 0 {
        Seq::empty()
    } else {
        concat(parts.drop_last()) + parts.last()
    }
}

/// `part` decodes, and the message takes up all of it.
pub open spec fn decodes_whole(part: Seq<u8>) -> bool {
    decoded(part) matches Ok((_, consumed)) && consumed == part.len()
}

/// What the given encodings decode to, each with its length.
pub open spec fn items_of(parts: Seq<Seq<u8>>) -> Seq<(DataModel, nat)> {
    Seq::new(parts.len(), |i: int| decoded(parts[i])->Ok_0)
}

/// Two runs of encodings put together are the first run's bytes and then
/// the second's.
pub proof fn lemma_concat_add(a: Seq<Seq<u8>>, b: Seq<Seq<u8>>)
    ensures
        concat(a + b) == concat(a) + concat(b),
    decreases b.len(),
{
    if b.len() > 0 {
        assert((a + b).drop_last() =~= a + b.drop_last());
        lemma_concat_add(a, b.drop_last());
    }
}

/// Encodings that each decode whole, put one behind the other, are decoded
/// one by one, whatever follows them.
pub proof fn lemma_elements_of_parts(parts: Seq<Seq<u8>>, rest: Seq<u8>, count: nat)
    requires
        count <= parts.len(),
        forall|i: int| 0 <= i < parts.len() ==> decodes_whole(#[trigger] parts[i]),
    ensures
        ({
            let elements = decoded_elements(concat(parts) + rest, count);
            &&& elements.items == items_of(parts.subrange(0, count as int))
            &&& elements.consumed == concat(parts.subrange(0, count as int)).len()
            &&& elements.errors == Seq::<ErrorModel>::empty()
        }),
    decreases count,
{
    let taken = parts.subrange(0, count as int);
    if count > 0 {
        let last = (count - 1) as nat;
        lemma_elements_of_parts(parts, rest, last);
        let body = concat(parts) + rest;
        let done = parts.subrange(0, last as int);
        let part = parts[last as int];
        let later = parts.subrange(count as int, parts.len() as int);
        assert(parts =~= taken + later);
        assert(taken.drop_last() =~= done);
        lemma_concat_add(taken, later);
        let here = remaining(body, concat(done).len() as int);
        assert(here.subrange(0, part.len() as int) =~= part);
        assert(part.subrange(0, part.len() as int) =~= part);
        lemma_decoded_reads_what_it_consumes(part, here);
    }
}

/// Every encoding of an array, whose first line declares the number of the
/// elements and whose elements each decode whole, decodes to the elements'
/// values, each with its length, and takes up the first line and the
/// elements, whatever follows them in the buffer.
pub proof fn lemma_decodes_encoded_array(count: Seq<u8>, parts: Seq<Seq<u8>>, rest: Seq<u8>)
    requires
        decimal(count) == Some(parts.len() as int),
        forall|i: int| 0 <= i < parts.len() ==> decodes_whole(#[trigger] parts[i]),
    ensures
        decoded(line(TAG_ARRAY, count) + concat(parts) + rest) == Ok::<
            (DataModel, nat),
            ErrorModel,
        >((DataModel::Array(items_of(parts)), line(TAG_ARRAY, count).len() + concat(parts).len())),
{
    let tail = concat(parts) + rest;
    let bytes = line(TAG_ARRAY, count) + concat(parts) + rest;
    assert(bytes =~= line(TAG_ARRAY, count) + tail);
    lemma_decimal_is_terminator_free(count);
    lemma_line_end(TAG_ARRAY, count, tail);
    lemma_elements_of_parts(parts, rest, parts.len());
    assert(parts.subrange(0, parts.len() as int) =~= parts);
}

} // verus!
