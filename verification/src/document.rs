//! TOML documents as plain values.

use vstd::prelude::*;

verus! {

/// A value in a TOML document. Of floating-point numbers and dates only the kind is kept.
#[derive(Debug)]
pub enum Node {
    Text(String),
    Integer(i64),
    Boolean(bool),
    Float,
    Datetime,
    Array(Vec<Node>),
    /// The entries in the order of the document.
    Table(Vec<(String, Node)>),
}

/// Whether no two entries of a table have the same key.
pub open spec fn are_distinct(entries: Seq<(String, Node)>) -> bool {
    forall|i: int, j: int|
        0 <= i < j < entries.len() ==> (#[trigger] entries[i]).0@ != (#[trigger] entries[j]).0@
}

/// Whether no table in a document has two entries with the same key.
pub open spec fn has_distinct_keys(document: Node) -> bool
    decreases document,
{
    match document {
        Node::Array(items) => forall|i: int|
            0 <= i < items@.len() ==> has_distinct_keys(#[trigger] items@[i]),
        Node::Table(entries) => are_distinct(entries@) && forall|i: int|
            0 <= i < entries@.len() ==> has_distinct_keys((#[trigger] entries@[i]).1),
        _ => true,
    }
}

#[verifier::external_type_specification]
#[verifier::external_body]
pub struct ExTomlValue(toml::Value);

/// The document that a TOML text stands for, or the message that says what is
/// wrong with it.
pub uninterp spec fn toml_document(text: Seq<char>) -> Result<Node, Seq<char>>;

/// Moves a `toml::Value` into a [`Node`], variant by variant. Nothing is
/// claimed of it on its own.
#[verifier::external_body]
fn from_toml(value: toml::Value) -> Node {
    match value {
        toml::Value::String(s) => Node::Text(s),
        toml::Value::Integer(n) => Node::Integer(n),
        toml::Value::Boolean(b) => Node::Boolean(b),
        toml::Value::Float(_) => Node::Float,
        toml::Value::Datetime(_) => Node::Datetime,
        toml::Value::Array(a) => Node::Array(a.into_iter().map(from_toml).collect()),
        toml::Value::Table(t) => Node::Table(
            t.into_iter().map(|(k, v)| (k, from_toml(v))).collect(),
        ),
    }
}

/// `toml::from_str`, into a `toml::Value`: the document depends on the text
/// alone, and so does the message of the error. The tables of a document are
/// maps, so their keys are distinct.
#[verifier::external_body]
pub(crate) fn parse_document(text: &str) -> (r: Result<Node, String>)
    ensures
        match r {
            Ok(document) => toml_document(text@) == Ok::<Node, Seq<char>>(document),
            Err(message) => toml_document(text@) == Err::<Node, Seq<char>>(message@),
        },
        r matches Ok(document) ==> has_distinct_keys(document),
{
    toml::from_str::<toml::Value>(text).map(from_toml).map_err(|e| e.to_string())
}

} // verus!
