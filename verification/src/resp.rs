use vstd::prelude::*;

verus! {

/// The two bytes that end every line-delimited field.
pub const TERMINATOR: &'static str = "\r\n";

/// The first byte of a terminator.
pub const CARRIAGE_RETURN: u8 = 13;

/// The second byte of a terminator.
pub const LINE_FEED: u8 = 10;

pub const SPACE: u8 = 32;

/// The tag bytes of the supported types.
pub const TAG_STRING: u8 = 43;

pub const TAG_ERROR: u8 = 45;

pub const TAG_INTEGER: u8 = 58;

pub const TAG_BULK_STRING: u8 = 36;

pub const TAG_ARRAY: u8 = 42;

/// What the first byte of a buffer says of the message that it starts.
#[derive(Clone, Copy, PartialEq, Eq, Debug)]
pub enum Tag {
    String,
    Error,
    Integer,
    BulkString,
    Array,
    /// The tag of a type of the protocol that is not decoded: null, boolean,
    /// double, big number, bulk error, verbatim string, map, set or push.
    Reserved,
    /// No tag of the protocol.
    Unknown,
}

/// The bytes `_ # , ( ! = % ~ >`.
pub open spec fn is_reserved(byte: u8) -> bool {
    byte == 95 || byte == 35 || byte == 44 || byte == 40 || byte == 33 || byte == 61 || byte == 37
        || byte == 126 || byte == 62
}

pub open spec fn tag_of(byte: u8) -> Tag {
    if byte == TAG_STRING {
        Tag::String
    } else if byte == TAG_ERROR {
        Tag::Error
    } else if byte == TAG_INTEGER {
        Tag::Integer
    } else if byte == TAG_BULK_STRING {
        Tag::BulkString
    } else if byte == TAG_ARRAY {
        Tag::Array
    } else if is_reserved(byte) {
        Tag::Reserved
    } else {
        Tag::Unknown
    }
}

/// The tag is one whose messages are decoded.
pub open spec fn is_supported(byte: u8) -> bool {
    tag_of(byte) != Tag::Reserved && tag_of(byte) != Tag::Unknown
}

/// Tells which type of message `byte` starts.
pub fn classify_tag(byte: u8) -> (tag: Tag)
    ensures
        tag == tag_of(byte),
{
    if byte == TAG_STRING {
        Tag::String
    } else if byte == TAG_ERROR {
        Tag::Error
    } else if byte == TAG_INTEGER {
        Tag::Integer
    } else if byte == TAG_BULK_STRING {
        Tag::BulkString
    } else if byte == TAG_ARRAY {
        Tag::Array
    } else if byte == 95 || byte == 35 || byte == 44 || byte == 40 || byte == 33 || byte == 61
        || byte == 37 || byte == 126 || byte == 62 {
        Tag::Reserved
    } else {
        Tag::Unknown
    }
}

/// The messages that a [`SyntaxError`] can carry.
pub const NO_TERMINATOR: &'static str = "Could not find terminator";

pub const NO_CLOSING_TERMINATOR: &'static str = "Could not find closing terminator";

pub const NO_WHITESPACE: &'static str = "No whitespace found";

pub const INVALID_INTEGER: &'static str = "Invalid integer";

pub const INVALID_LENGTH: &'static str = "Invalid length";

pub const MISSING_ELEMENT: &'static str = "Missing array element";

/// A structural violation inside a message whose tag was recognised.
#[derive(PartialEq, Debug)]
pub struct SyntaxError {
    pub message: String,
}

/// Why a buffer could not be decoded.
#[derive(PartialEq, Debug)]
pub enum ParseError {
    /// The first byte is not the tag of a supported type.
    InvalidPrefix,
    /// The buffer holds no byte at all.
    EmptyBuffer,
    /// The tag was recognised but what follows it is malformed.
    SyntaxError(SyntaxError),
    /// One entry for every failure among the elements of an array, in the
    /// order in which the elements were tried. No entry is itself an
    /// aggregate.
    Aggregate(Vec<ParseError>),
}

/// The payload of a simple error.
#[derive(PartialEq, Debug)]
pub struct Error {
    pub message: String,
    pub kind: String,
}

/// A bulk string together with the length its header declared.
#[derive(PartialEq, Debug)]
pub struct BulkString {
    pub length: usize,
    pub data: String,
}

/// A decoded value.
#[derive(PartialEq, Debug)]
pub enum Data {
    String(String),
    Error(Error),
    Integer(isize),
    BulkString(String),
    /// The elements in order, each with the number of bytes it took up.
    Array(Vec<(Data, usize)>),
}

/// Mathematical model of a [`ParseError`].
pub enum ErrorModel {
    InvalidPrefix,
    EmptyBuffer,
    SyntaxError(Seq<char>),
    Aggregate(Seq<ErrorModel>),
}

/// Mathematical model of a [`Data`] value.
pub enum DataModel {
    String(Seq<char>),
    Error { kind: Seq<char>, message: Seq<char> },
    Integer(int),
    BulkString(Seq<char>),
    Array(Seq<(DataModel, nat)>),
}

/// The models of a run of errors, in order.
pub open spec fn errors_model(errors: Seq<ParseError>) -> Seq<ErrorModel> {
    Seq::new(errors.len(), |i: int| errors[i]@)
}

/// The models of an array's elements, in order, each with its byte count.
pub open spec fn items_model(items: Seq<(Data, usize)>) -> Seq<(DataModel, nat)> {
    Seq::new(items.len(), |i: int| (items[i].0@, items[i].1 as nat))
}

/// The model of an error. That of an aggregate holds the models of its
/// entries, in order.
pub open spec fn error_model(e: ParseError) -> ErrorModel
    decreases e,
{
    match e {
        ParseError::InvalidPrefix => ErrorModel::InvalidPrefix,
        ParseError::EmptyBuffer => ErrorModel::EmptyBuffer,
        ParseError::SyntaxError(e) => ErrorModel::SyntaxError(e.message@),
        ParseError::Aggregate(es) => ErrorModel::Aggregate(
            Seq::new(
                es.len() as nat,
                |i: int|
                    if 0 <= i < es.len() {
                        error_model(es[i])
                    } else {
                        ErrorModel::InvalidPrefix
                    },
            ),
        ),
    }
}

/// The model of a value. That of an array holds the models of its elements,
/// in order, each with its byte count.
pub open spec fn data_model(d: Data) -> DataModel
    decreases d,
{
    match d {
        Data::String(s) => DataModel::String(s@),
        Data::Error(e) => DataModel::Error { kind: e.kind@, message: e.message@ },
        Data::Integer(i) => DataModel::Integer(i as int),
        Data::BulkString(s) => DataModel::BulkString(s@),
        Data::Array(items) => DataModel::Array(
            Seq::new(
                items.len() as nat,
                |i: int|
                    if 0 <= i < items.len() {
                        (data_model(items[i].0), items[i].1 as nat)
                    } else {
                        (DataModel::Integer(0), 0nat)
                    },
            ),
        ),
    }
}

impl View for ParseError {
    type V = ErrorModel;

    open spec fn view(&self) -> ErrorModel {
        error_model(*self)
    }
}

impl View for Data {
    type V = DataModel;

    open spec fn view(&self) -> DataModel {
        data_model(*self)
    }
}

/// A syntax error that carries `message`.
pub fn syntax_error(message: &str) -> (e: ParseError)
    ensures
        e@ == ErrorModel::SyntaxError(message@),
{
    ParseError::SyntaxError(SyntaxError { message: message.to_owned() })
}

/// An aggregate is modelled by the models of its entries.
pub proof fn lemma_aggregate_view(errors: Vec<ParseError>)
    ensures
        ParseError::Aggregate(errors)@ == ErrorModel::Aggregate(errors_model(errors@)),
{
    assert(ParseError::Aggregate(errors)@->Aggregate_0 =~= errors_model(errors@));
}

/// An array is modelled by the models of its elements.
pub proof fn lemma_array_view(items: Vec<(Data, usize)>)
    ensures
        Data::Array(items)@ == DataModel::Array(items_model(items@)),
{
    assert(Data::Array(items)@->Array_0 =~= items_model(items@));
}

} // verus!
