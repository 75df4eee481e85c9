//! Events, and the relation declaration an event's content may carry.
//!
//! An event is an immutable record: an opaque id, an event type, and raw
//! JSON content. The content may declare, under the well-known field
//! `m.relates_to`, a relation of some `rel_type` to another event; the
//! relation-type filter of the pagination engine reads that declaration.

use vstd::prelude::*;
use vstd::string::*;

verus! {

/// An immutable stored event.
pub struct PduEvent {
    pub event_id: String,
    pub kind: String,
    pub content: String,
}

impl PduEvent {
    pub fn new(event_id: String, kind: String, content: String) -> (r: Self)
        ensures
            r.event_id == event_id,
            r.kind == kind,
            r.content == content,
    {
        PduEvent { event_id, kind, content }
    }

    /// An owned copy of the event.
    pub fn duplicate(&self) -> (r: Self)
        ensures
            r == *self,
    {
        PduEvent {
            event_id: self.event_id.clone(),
            kind: self.kind.clone(),
            content: self.content.clone(),
        }
    }
}

/// The string found in a JSON document at `content[outer][inner]`, if the
/// document parses to an object carrying a string there: a function of the
/// three strings alone.
pub uninterp spec fn json_nested_str_of(
    content: Seq<char>,
    outer: Seq<char>,
    inner: Seq<char>,
) -> Option<Seq<char>>;

/// Relies on `serde_json::from_str::<Value>`, `Value::get` and
/// `Value::as_str`: reads the string under `content[outer][inner]`; `None`
/// when `content` is not JSON or the path is absent or not a string.
#[verifier::external_body]
fn json_nested_str(content: &str, outer: &str, inner: &str) -> (r: Option<String>)
    ensures
        match r {
            Some(s) => json_nested_str_of(content@, outer@, inner@) == Some(s@),
            None => json_nested_str_of(content@, outer@, inner@) is None,
        },
{
    let v: serde_json::Value = match serde_json::from_str(content) {
        Ok(v) => v,
        Err(_) => return None,
    };
    match v.get(outer).and_then(|o| o.get(inner)).and_then(|f| f.as_str()) {
        Some(s) => Some(s.to_owned()),
        None => None,
    }
}

/// The relation type an event's content declares under `m.relates_to`,
/// if any.
pub open spec fn declared_rel_type(content: Seq<char>) -> Option<Seq<char>> {
    json_nested_str_of(content, "m.relates_to"@, "rel_type"@)
}

/// Does the event's content declare a relation of type `rel_type`?
pub fn declares_rel_type(content: &str, rel_type: &str) -> (r: bool)
    ensures
        r == (declared_rel_type(content@) == Some(rel_type@)),
{
    match json_nested_str(content, "m.relates_to", "rel_type") {
        Some(t) => {
            let wanted = rel_type.to_owned();
            t == wanted
        },
        None => false,
    }
}

} // verus!
