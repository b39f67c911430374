//! Access to a TOML document that the `toml` crate has parsed.
//!
//! Nothing in this file is proved: each function below hands one call on to
//! `toml` and states what that call does, over [`Node`], a model of what a
//! `toml::Value` holds. The loader is verified against these statements.

use crate::nesting::is_shallow_text;
use vstd::prelude::*;

verus! {

/// `toml::Value`, a parsed TOML value. Nothing is known of what is inside
/// but through [`node_of`].
#[verifier::external_type_specification]
#[verifier::external_body]
pub struct ExValue(toml::Value);

/// `toml::de::Error`, what `toml` reports of a text that it cannot parse.
/// Nothing is known of what is inside.
#[verifier::external_type_specification]
#[verifier::external_body]
pub struct ExError(toml::de::Error);

/// What a TOML value holds, as far as this library reads it.
pub enum Node {
    /// An integer.
    Integer(i64),
    /// A string.
    Text(Seq<char>),
    /// A table: its keys with their values, in the order in which the table
    /// yields them.
    Table(Seq<(Seq<char>, Node)>),
    /// A float, a boolean, a datetime or an array.
    Other,
}

/// What `toml::from_str` makes of a text: the document as a value, or `None`
/// where it reports an error.
pub uninterp spec fn document(text: Seq<char>) -> Option<Node>;

/// What a `toml::Value` holds. The entries of a table come in the order of
/// the table's iterator, in which no key comes twice.
pub uninterp spec fn node_of(value: toml::Value) -> Node;

/// The value that the first entry with this key has.
pub open spec fn find(entries: Seq<(Seq<char>, Node)>, key: Seq<char>) -> Option<Node>
    decreases entries.len(),
{
    if entries.len() == 0 {
        None
    } else if entries[0].0 == key {
        Some(entries[0].1)
    } else {
        find(entries.subrange(1, entries.len() as int), key)
    }
}

/// What a table has under a key; nothing where the node is no table.
pub open spec fn entry(node: Node, key: Seq<char>) -> Option<Node> {
    match node {
        Node::Table(entries) => find(entries, key),
        _ => None,
    }
}

/// The entries that a list of keys and values stands for.
pub open spec fn entries_in(listed: Seq<(String, &toml::Value)>) -> Seq<(Seq<char>, Node)> {
    listed.map_values(|one: (String, &toml::Value)| (one.0@, node_of(*one.1)))
}

/// `toml::from_str`, asked for a `toml::Value`: parses a TOML document. The
/// outcome depends on the text alone; it is an error exactly where
/// [`document`] is `None`, and else the value that [`document`] describes.
///
/// `toml` builds the value by recursion, one round for each level of tables
/// and arrays, at some kilobytes of stack a round. It bounds the brackets and
/// braces that it finds nested, and the parts of each single key, but not
/// what they add up to. The text must therefore be shallow: then no value in
/// it lies deeper than three times [`crate::nesting::MAX_NESTING`] levels and
/// one, and the call returns on a stack of the size that threads have by
/// default, which holds several times as many.
#[verifier::external_body]
pub(crate) fn parse(text: &str) -> (r: Result<toml::Value, toml::de::Error>)
    requires
        is_shallow_text(text),
    ensures
        r is Ok <==> document(text@) is Some,
        r matches Ok(value) ==> Some(node_of(value)) == document(text@),
{
    toml::from_str::<toml::Value>(text)
}

/// `toml::Value::get` with a string key: the value under that key where
/// `value` is a table that holds the key, else `None`. A table holds a key at
/// most once.
#[verifier::external_body]
pub(crate) fn lookup<'a>(value: &'a toml::Value, key: &str) -> (r: Option<&'a toml::Value>)
    ensures
        r is Some <==> entry(node_of(*value), key@) is Some,
        r matches Some(found) ==> Some(node_of(*found)) == entry(node_of(*value), key@),
{
    value.get(key)
}

/// `toml::Value::as_integer`: the integer where `value` is one, else `None`.
#[verifier::external_body]
pub(crate) fn integer_of(value: &toml::Value) -> (r: Option<i64>)
    ensures
        r == (match node_of(*value) {
            Node::Integer(n) => Some(n),
            _ => None,
        }),
{
    value.as_integer()
}

/// `toml::Value::as_str`: the string where `value` is one, else `None`.
#[verifier::external_body]
pub(crate) fn text_of(value: &toml::Value) -> (r: Option<&str>)
    ensures
        match node_of(*value) {
            Node::Text(text) => r is Some && r->Some_0@ == text,
            _ => r is None,
        },
{
    value.as_str()
}

/// `toml::Value::as_table`, and the table's entries in the order of its
/// iterator, each key copied: `None` where `value` is no table.
#[verifier::external_body]
pub(crate) fn entries_of(value: &toml::Value) -> (r: Option<Vec<(String, &toml::Value)>>)
    ensures
        match node_of(*value) {
            Node::Table(entries) => r is Some && entries_in(r->Some_0@) == entries,
            _ => r is None,
        },
{
    value.as_table().map(|table| table.iter().map(|(key, value)| (key.clone(), value)).collect())
}

} // verus!
