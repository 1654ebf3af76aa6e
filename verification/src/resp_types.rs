//! The value model: the tagged union of parsed protocol values, together with
//! its mathematical view used by every contract of the codec.

use vstd::prelude::*;

verus! {

broadcast use
    vstd::seq::axiom_seq_index_decreases,
    vstd::seq::axiom_seq_subrange_decreases,
    vstd::std_specs::vec::axiom_vec_decreases_to_view;

/// Mathematical model of a protocol error value.
pub enum SpecRespError {
    ServerError { kind: Seq<char>, detail: Option<Seq<char>> },
}

/// Mathematical model of a parsed protocol value.
///
/// An `Array` holds exactly the elements that its declared length announced,
/// in encounter order; a declared length of -1 is modelled as `Nil`, never as
/// an empty collection.
pub enum SpecValue {
    /// A null (declared length -1 on an array or a bulk string).
    Nil,
    /// A text line (not binary safe).
    SimpleString(Seq<char>),
    /// An error value.
    Error(SpecRespError),
    /// A signed 64-bit integer.
    Integer(i64),
    /// Arbitrary binary data; no text validation is applied.
    BulkString(Seq<u8>),
    /// An ordered sequence of nested values.
    Array(Seq<SpecValue>),
    /// A command sent as a single bare line, accepted only at the top level.
    InlineCommand(Seq<char>),
}

/// A protocol error value.
#[derive(PartialEq, Debug, Clone)]
pub enum RespError {
    ServerError { kind: String, detail: Option<String> },
}

impl DeepView for RespError {
    type V = SpecRespError;

    open spec fn deep_view(&self) -> SpecRespError {
        match self {
            RespError::ServerError { kind, detail } => SpecRespError::ServerError {
                kind: kind@,
                detail: detail.deep_view(),
            },
        }
    }
}

/// A parsed protocol value.
///
/// The type of a value on the wire depends on its first byte: `*` introduces
/// an array, `$` a bulk string, `:` an integer; a top-level line without a
/// leading type byte is an inline command, delivered as a simple string.
#[derive(PartialEq, Debug)]
pub enum RespDataType {
    /// A null.
    Nil,
    /// A string response (not binary safe).
    SimpleString(String),
    /// An error.
    Error(RespError),
    /// An integer.
    Integer(i64),
    /// Arbitrary binary data, usually a binary-safe string.
    BulkString(Vec<u8>),
    /// An array of nested values.
    Array(Vec<RespDataType>),
    /// An inline command.
    InlineCommand(String),
}

/// The mathematical value that a `RespDataType` stands for.
pub open spec fn value_view(v: RespDataType) -> SpecValue
    decreases v,
{
    match v {
        RespDataType::Nil => SpecValue::Nil,
        RespDataType::SimpleString(s) => SpecValue::SimpleString(s@),
        RespDataType::Error(e) => SpecValue::Error(e.deep_view()),
        RespDataType::Integer(n) => SpecValue::Integer(n),
        RespDataType::BulkString(b) => SpecValue::BulkString(b@),
        RespDataType::Array(items) => SpecValue::Array(values_view(items@)),
        RespDataType::InlineCommand(s) => SpecValue::InlineCommand(s@),
    }
}

/// The element-wise view of a sequence of parsed values.
pub open spec fn values_view(items: Seq<RespDataType>) -> Seq<SpecValue>
    decreases items,
{
    if items.len() == 0 {
        Seq::empty()
    } else {
        values_view(items.drop_last()).push(value_view(items.last()))
    }
}

/// The view of a sequence with one more element is the view with that
/// element's view at the end.
pub proof fn lemma_values_view_push(s: Seq<RespDataType>, v: RespDataType)
    ensures
        values_view(s.push(v)) == values_view(s).push(value_view(v)),
{
    assert(s.push(v).drop_last() =~= s);
    assert(s.push(v).last() == v);
}

impl DeepView for RespDataType {
    type V = SpecValue;

    open spec fn deep_view(&self) -> SpecValue {
        value_view(*self)
    }
}

} // verus!
