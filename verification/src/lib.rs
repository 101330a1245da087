//! A recursive-descent parser for JSON-like text.
//!
//! The input is a fully decoded character string; the result is an owned
//! tree of [`Value`] nodes, together with the unconsumed suffix of the
//! input, or a [`ParseError`] describing why no value could be produced.
//! The grammar is stated once, as spec functions over `Seq<char>` (module
//! [`grammar`]), and the executable parser is proved to return exactly
//! what those functions say.

use vstd::prelude::*;

pub mod grammar;
pub mod laws;
mod parser;
pub mod trusted;

pub use parser::string;
pub use parser::value;

verus! {

broadcast use vstd::std_specs::vec::group_vec_axioms;

/// The label a parse failure may carry, identifying the grammar construct
/// that was being parsed when the failure occurred. `Unlabeled` stands for
/// a failure with no label.
#[derive(Debug, Clone, Copy, PartialEq, Eq, Structural)]
pub enum Context {
    Unlabeled,
    Object,
    ObjectItem,
}

/// A parse failure. `SyntaxMismatch`: the current position does not hold
/// the literal or structural token the grammar expects there.
/// `MalformedEscape`: a string escape has missing or invalid hex digits,
/// or decodes to a value that is not a Unicode scalar value.
/// `TruncatedInput`: a required closing token (quote, bracket, brace)
/// never appears before the input ends.
#[derive(Debug, Clone, Copy, PartialEq, Eq, Structural)]
pub enum ParseError {
    SyntaxMismatch(Context),
    MalformedEscape(Context),
    TruncatedInput(Context),
}

/// The parsed tree: a closed tagged union of the six value kinds.
///
/// `Number` holds the bit pattern of the IEEE-754 single-precision value
/// that the decimal literal denotes, so that the tree itself stays within
/// plain integer data. `Object` holds its entries in the order their keys
/// first appeared; keys are unique, and a later duplicate key overwrites
/// the value of the earlier entry.
#[derive(Debug, PartialEq)]
pub enum Value {
    Null,
    Boolean(bool),
    Number(u32),
    String(String),
    Object(Vec<(String, Value)>),
    Array(Vec<Value>),
}

/// The mathematical model of a [`Value`]: the same tree over `Seq<char>`
/// in place of owned strings and vectors.
pub enum JsonVal {
    Null,
    Bool(bool),
    Num(u32),
    Str(Seq<char>),
    Obj(Seq<(Seq<char>, JsonVal)>),
    Arr(Seq<JsonVal>),
}

/// The model of a tree node, mapping each owned string and vector to its view.
pub open spec fn value_view(v: Value) -> JsonVal
    decreases v,
{
    match v {
        Value::Null => JsonVal::Null,
        Value::Boolean(b) => JsonVal::Bool(b),
        Value::Number(bits) => JsonVal::Num(bits),
        Value::String(s) => JsonVal::Str(s@),
        Value::Object(kvs) => JsonVal::Obj(pairs_view(kvs@)),
        Value::Array(items) => JsonVal::Arr(items_view(items@)),
    }
}

/// The models of the elements of an array, in order.
pub open spec fn items_view(items: Seq<Value>) -> Seq<JsonVal>
    decreases items,
{
    if items.len() == 0 {
        Seq::empty()
    } else {
        items_view(items.drop_last()).push(value_view(items.last()))
    }
}

/// The models of the entries of an object, in order.
pub open spec fn pairs_view(kvs: Seq<(String, Value)>) -> Seq<(Seq<char>, JsonVal)>
    decreases kvs,
{
    if kvs.len() == 0 {
        Seq::empty()
    } else {
        pairs_view(kvs.drop_last()).push((kvs.last().0@, value_view(kvs.last().1)))
    }
}

impl View for Value {
    type V = JsonVal;

    open spec fn view(&self) -> JsonVal {
        value_view(*self)
    }
}

} // verus!
