//! A JSON document as a tree of plain values, and the decoder behind it.

use vstd::prelude::*;

verus! {

/// The decoder's error. Opaque: only its position is read.
#[verifier::external_type_specification]
#[verifier::external_body]
pub struct ExDecodeError(serde_json::Error);

/// The decoder's own tree. Opaque: it is taken apart into a [`Json`] at once.
#[verifier::external_type_specification]
#[verifier::external_body]
pub struct ExDecodedTree(serde_json::Value);

/// A JSON value. A number is kept as the decimal text of its value and a
/// string as its UTF-8 bytes; the members of an object stand in the order in
/// which the decoder hands them out.
#[derive(Debug, PartialEq, Eq)]
pub enum Json {
    Null,
    Bool(bool),
    Number(Vec<u8>),
    Text(Vec<u8>),
    Array(Vec<Json>),
    Object(Vec<(Vec<u8>, Json)>),
}

/// The mathematical model of a [`Json`] tree.
pub enum JsonValue {
    Null,
    Bool(bool),
    Number(Seq<u8>),
    Text(Seq<u8>),
    Array(Seq<JsonValue>),
    Object(Seq<(Seq<u8>, JsonValue)>),
}

impl View for Json {
    type V = JsonValue;

    open spec fn view(&self) -> JsonValue {
        json_value(*self)
    }
}

/// The model of a tree.
pub open spec fn json_value(j: Json) -> JsonValue
    decreases j, 0nat,
{
    match j {
        Json::Null => JsonValue::Null,
        Json::Bool(b) => JsonValue::Bool(b),
        Json::Number(text) => JsonValue::Number(text@),
        Json::Text(bytes) => JsonValue::Text(bytes@),
        Json::Array(items) => JsonValue::Array(json_items(items@, items@.len())),
        Json::Object(members) => JsonValue::Object(json_members(members@, members@.len())),
    }
}

/// The models of the first `n` items of an array.
pub open spec fn json_items(items: Seq<Json>, n: nat) -> Seq<JsonValue>
    decreases items, n,
{
    if n == 0 || n > items.len() {
        Seq::empty()
    } else {
        json_items(items, (n - 1) as nat).push(json_value(items[n - 1]))
    }
}

/// The models of the first `n` members of an object.
pub open spec fn json_members(members: Seq<(Vec<u8>, Json)>, n: nat) -> Seq<(Seq<u8>, JsonValue)>
    decreases members, n,
{
    if n == 0 || n > members.len() {
        Seq::empty()
    } else {
        json_members(members, (n - 1) as nat).push(
            (members[n - 1].0@, json_value(members[n - 1].1)),
        )
    }
}

/// The models of the first `n` items are `n`, each the model of its item.
pub proof fn lemma_json_items(items: Seq<Json>, n: nat)
    requires
        n <= items.len(),
    ensures
        json_items(items, n).len() == n,
        forall|i: int| 0 <= i < n ==> #[trigger] json_items(items, n)[i] == items[i]@,
    decreases n,
{
    if n > 0 {
        lemma_json_items(items, (n - 1) as nat);
    }
}

/// The models of the first `n` members are `n`, each the model of its member.
pub proof fn lemma_json_members(members: Seq<(Vec<u8>, Json)>, n: nat)
    requires
        n <= members.len(),
    ensures
        json_members(members, n).len() == n,
        forall|i: int|
            0 <= i < n ==> #[trigger] json_members(members, n)[i] == (
                members[i].0@,
                members[i].1@,
            ),
    decreases n,
{
    if n > 0 {
        lemma_json_members(members, (n - 1) as nat);
    }
}

/// Where in its text a document stopped being JSON.
#[derive(Clone, Copy, Debug, PartialEq, Eq, Structural)]
pub struct Malformed {
    /// Line of the fault, counted from 1.
    pub line: usize,
    /// Column of the fault, as the decoder counts it: mostly from 1.
    pub column: usize,
}

/// The tree that the decoder makes of a text, `None` where the text is not
/// one JSON document.
pub uninterp spec fn json_document(bytes: Seq<u8>) -> Option<JsonValue>;

/// The tree that a `serde_json::Value` holds: what taking it apart gives.
pub uninterp spec fn json_tree(v: serde_json::Value) -> JsonValue;

/// `serde_json::from_slice`, at the type `serde_json::Value`. The decoder is
/// a function of the text alone: it gives a value that holds the tree named
/// [`json_document`], or an error where that is `None`.
#[verifier::external_body]
fn decode(bytes: &[u8]) -> (r: Result<serde_json::Value, serde_json::Error>)
    ensures
        match r {
            Ok(v) => json_document(bytes@) == Some(json_tree(v)),
            Err(_) => json_document(bytes@) is None,
        },
{
    serde_json::from_slice::<serde_json::Value>(bytes)
}

/// Takes a `serde_json::Value` apart, variant for variant, into the
/// [`Json`] of the tree that it holds: a number through its `Display` text,
/// a string and a key through `String::into_bytes`, the members of an
/// object in the order of the map's `into_iter`. It is called on what
/// [`decode`] returns and on nothing else; the decoder bounds the depth of
/// such a value.
#[verifier::external_body]
fn lift(v: serde_json::Value) -> (r: Json)
    ensures
        r@ == json_tree(v),
{
    match v {
        serde_json::Value::Null => Json::Null,
        serde_json::Value::Bool(b) => Json::Bool(b),
        serde_json::Value::Number(n) => Json::Number(n.to_string().into_bytes()),
        serde_json::Value::String(s) => Json::Text(s.into_bytes()),
        serde_json::Value::Array(a) => Json::Array(a.into_iter().map(lift).collect()),
        serde_json::Value::Object(m) => Json::Object(
            m.into_iter().map(|(k, v)| (k.into_bytes(), lift(v))).collect(),
        ),
    }
}

/// `serde_json::Error::line`: the line at which decoding failed.
pub assume_specification[ serde_json::Error::line ](e: &serde_json::Error) -> usize
;

/// `serde_json::Error::column`: the column at which decoding failed.
pub assume_specification[ serde_json::Error::column ](e: &serde_json::Error) -> usize
;

impl Json {
    /// Decodes a JSON text into its tree.
    pub fn parse(bytes: &[u8]) -> (r: Result<Json, Malformed>)
        ensures
            match r {
                Ok(doc) => json_document(bytes@) == Some(doc@),
                Err(_) => json_document(bytes@) is None,
            },
    {
        match decode(bytes) {
            Ok(v) => Ok(lift(v)),
            Err(e) => Err(Malformed { line: e.line(), column: e.column() }),
        }
    }
}

} // verus!
