//! Why an event cannot be decoded, or a decoder not be built.
use crate::numbers::{decimal, decimal_text};
use vstd::prelude::*;

verus! {

/// Why bytes could not be decoded as a value of an IDL type.
#[derive(Debug, PartialEq)]
pub enum DecodeError {
    /// The end of the requested range is beyond the largest `usize`.
    LengthOverflow,
    /// The buffer ends before the requested bytes do.
    UnexpectedEnd { need: usize, offset: usize, have: usize },
    /// An enum has no variant with this tag.
    EnumTag { tag: usize },
    /// The IDL has no definition of this name.
    UnknownType { name: String },
    /// The bytes of a string are not UTF-8.
    InvalidUtf8 { detail: String },
    /// The length of an array is a generic parameter.
    GenericArrayLength,
    /// A definition is used with generic arguments.
    GenericDefined { name: String },
    /// The type is a generic parameter.
    GenericParameter,
    /// The definition contains itself with no byte in between, so that a value
    /// of it has no end.
    EndlessType { name: String },
}

/// Mathematical counterpart of [`DecodeError`].
pub enum ErrorModel {
    LengthOverflow,
    UnexpectedEnd { need: nat, offset: nat, have: nat },
    EnumTag { tag: nat },
    UnknownType { name: Seq<char> },
    InvalidUtf8 { detail: Seq<char> },
    GenericArrayLength,
    GenericDefined { name: Seq<char> },
    GenericParameter,
    EndlessType { name: Seq<char> },
}

impl View for DecodeError {
    type V = ErrorModel;

    open spec fn view(&self) -> ErrorModel {
        match *self {
            DecodeError::LengthOverflow => ErrorModel::LengthOverflow,
            DecodeError::UnexpectedEnd { need, offset, have } => ErrorModel::UnexpectedEnd {
                need: need as nat,
                offset: offset as nat,
                have: have as nat,
            },
            DecodeError::EnumTag { tag } => ErrorModel::EnumTag { tag: tag as nat },
            DecodeError::UnknownType { name } => ErrorModel::UnknownType { name: name@ },
            DecodeError::InvalidUtf8 { detail } => ErrorModel::InvalidUtf8 { detail: detail@ },
            DecodeError::GenericArrayLength => ErrorModel::GenericArrayLength,
            DecodeError::GenericDefined { name } => ErrorModel::GenericDefined { name: name@ },
            DecodeError::GenericParameter => ErrorModel::GenericParameter,
            DecodeError::EndlessType { name } => ErrorModel::EndlessType { name: name@ },
        }
    }
}

impl ErrorModel {
    /// The message for this error.
    pub open spec fn text(self) -> Seq<char> {
        match self {
            ErrorModel::LengthOverflow => "length overflow"@,
            ErrorModel::UnexpectedEnd { need, offset, have } => "unexpected end of buffer: need "@
                + decimal(need) + " byte(s) at offset "@ + decimal(offset) + ", have "@ + decimal(
                have,
            ),
            ErrorModel::EnumTag { tag } => "enum discriminant "@ + decimal(tag) + " out of range"@,
            ErrorModel::UnknownType { name } => "unknown defined type '"@ + name + "'"@,
            ErrorModel::InvalidUtf8 { detail } => "invalid utf-8: "@ + detail,
            ErrorModel::GenericArrayLength => "generic array length is not supported"@,
            ErrorModel::GenericDefined { name } => "generic defined type '"@ + name
                + "' is not supported"@,
            ErrorModel::GenericParameter => "generic type parameter is not supported"@,
            ErrorModel::EndlessType { name } => "defined type '"@ + name + "' has no end"@,
        }
    }
}

fn joined(head: &str, middle: &str, tail: &str) -> (r: String)
    ensures
        r@ == head@ + middle@ + tail@,
{
    let mut text = String::from_str(head);
    text.append(middle);
    text.append(tail);
    text
}

impl DecodeError {
    /// The message for this error.
    pub fn message(&self) -> (r: String)
        ensures
            r@ == self@.text(),
    {
        match self {
            DecodeError::LengthOverflow => String::from_str("length overflow"),
            DecodeError::UnexpectedEnd { need, offset, have } => {
                let mut text = joined(
                    "unexpected end of buffer: need ",
                    decimal_text(*need).as_str(),
                    " byte(s) at offset ",
                );
                text.append(decimal_text(*offset).as_str());
                text.append(", have ");
                text.append(decimal_text(*have).as_str());
                text
            },
            DecodeError::EnumTag { tag } => joined(
                "enum discriminant ",
                decimal_text(*tag).as_str(),
                " out of range",
            ),
            DecodeError::UnknownType { name } => joined(
                "unknown defined type '",
                name.as_str(),
                "'",
            ),
            DecodeError::InvalidUtf8 { detail } => {
                let mut text = String::from_str("invalid utf-8: ");
                text.append(detail.as_str());
                text
            },
            DecodeError::GenericArrayLength => String::from_str(
                "generic array length is not supported",
            ),
            DecodeError::GenericDefined { name } => joined(
                "generic defined type '",
                name.as_str(),
                "' is not supported",
            ),
            DecodeError::GenericParameter => String::from_str(
                "generic type parameter is not supported",
            ),
            DecodeError::EndlessType { name } => joined(
                "defined type '",
                name.as_str(),
                "' has no end",
            ),
        }
    }
}

/// Why no decoder could be built from an IDL.
#[derive(Debug, PartialEq)]
pub enum IdlError {
    /// The text is not an IDL of a supported kind.
    Parse { detail: String },
    /// An event has no type definition of its name.
    MissingType { event: String },
    /// The type definition of an event is not a struct.
    NotAStruct { event: String },
}

/// Mathematical counterpart of [`IdlError`].
pub enum IdlErrorModel {
    Parse { detail: Seq<char> },
    MissingType { event: Seq<char> },
    NotAStruct { event: Seq<char> },
}

impl View for IdlError {
    type V = IdlErrorModel;

    open spec fn view(&self) -> IdlErrorModel {
        match *self {
            IdlError::Parse { detail } => IdlErrorModel::Parse { detail: detail@ },
            IdlError::MissingType { event } => IdlErrorModel::MissingType { event: event@ },
            IdlError::NotAStruct { event } => IdlErrorModel::NotAStruct { event: event@ },
        }
    }
}

impl IdlErrorModel {
    /// The message for this error.
    pub open spec fn text(self) -> Seq<char> {
        match self {
            IdlErrorModel::Parse { detail } => "failed to parse IDL: "@ + detail,
            IdlErrorModel::MissingType { event } => "event '"@ + event
                + "' has no matching type definition in idl.types"@,
            IdlErrorModel::NotAStruct { event } => "event '"@ + event
                + "' type definition is not a struct"@,
        }
    }
}

impl IdlError {
    /// The message for this error.
    pub fn message(&self) -> (r: String)
        ensures
            r@ == self@.text(),
    {
        match self {
            IdlError::Parse { detail } => {
                let mut text = String::from_str("failed to parse IDL: ");
                text.append(detail.as_str());
                text
            },
            IdlError::MissingType { event } => joined(
                "event '",
                event.as_str(),
                "' has no matching type definition in idl.types",
            ),
            IdlError::NotAStruct { event } => joined(
                "event '",
                event.as_str(),
                "' type definition is not a struct",
            ),
        }
    }
}

/// The model of a decoding error is of its kind and holds the same numbers and
/// names.
pub proof fn lemma_decode_error_view(e: DecodeError)
    ensures
        match e {
            DecodeError::LengthOverflow => e@ is LengthOverflow,
            DecodeError::UnexpectedEnd { need, offset, have } => e@ == (ErrorModel::UnexpectedEnd {
                need: need as nat,
                offset: offset as nat,
                have: have as nat,
            }),
            DecodeError::EnumTag { tag } => e@ == (ErrorModel::EnumTag { tag: tag as nat }),
            DecodeError::UnknownType { name } => e@ == (ErrorModel::UnknownType { name: name@ }),
            DecodeError::InvalidUtf8 { detail } => e@ == (ErrorModel::InvalidUtf8 {
                detail: detail@,
            }),
            DecodeError::GenericArrayLength => e@ is GenericArrayLength,
            DecodeError::GenericDefined { name } => e@ == (ErrorModel::GenericDefined {
                name: name@,
            }),
            DecodeError::GenericParameter => e@ is GenericParameter,
            DecodeError::EndlessType { name } => e@ == (ErrorModel::EndlessType { name: name@ }),
        },
{
}

/// The model of an IDL error is of its kind and holds the same name or text.
pub proof fn lemma_idl_error_view(e: IdlError)
    ensures
        match e {
            IdlError::Parse { detail } => e@ == (IdlErrorModel::Parse { detail: detail@ }),
            IdlError::MissingType { event } => e@ == (IdlErrorModel::MissingType {
                event: event@,
            }),
            IdlError::NotAStruct { event } => e@ == (IdlErrorModel::NotAStruct { event: event@ }),
        },
{
}

/// The message of a decoding error tells what went wrong, with the numbers and
/// names of the error in it.
pub proof fn lemma_decode_error_text(name: Seq<char>, a: nat, b: nat, c: nat)
    ensures
        ErrorModel::LengthOverflow.text() == "length overflow"@,
        (ErrorModel::UnexpectedEnd { need: a, offset: b, have: c }).text()
            == "unexpected end of buffer: need "@ + decimal(a) + " byte(s) at offset "@ + decimal(b)
            + ", have "@ + decimal(c),
        (ErrorModel::EnumTag { tag: a }).text() == "enum discriminant "@ + decimal(a)
            + " out of range"@,
        (ErrorModel::UnknownType { name }).text() == "unknown defined type '"@ + name + "'"@,
        (ErrorModel::InvalidUtf8 { detail: name }).text() == "invalid utf-8: "@ + name,
        ErrorModel::GenericArrayLength.text() == "generic array length is not supported"@,
        (ErrorModel::GenericDefined { name }).text() == "generic defined type '"@ + name
            + "' is not supported"@,
        ErrorModel::GenericParameter.text() == "generic type parameter is not supported"@,
        (ErrorModel::EndlessType { name }).text() == "defined type '"@ + name + "' has no end"@,
{
}

/// The message of an IDL error tells what went wrong, with the event's name or
/// the parser's words in it.
pub proof fn lemma_idl_error_text(name: Seq<char>)
    ensures
        (IdlErrorModel::Parse { detail: name }).text() == "failed to parse IDL: "@ + name,
        (IdlErrorModel::MissingType { event: name }).text() == "event '"@ + name
            + "' has no matching type definition in idl.types"@,
        (IdlErrorModel::NotAStruct { event: name }).text() == "event '"@ + name
            + "' type definition is not a struct"@,
{
}

} // verus!
