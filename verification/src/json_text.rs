//! Parsing JSON text into the library's trees, with serde_json.

use crate::gc_json::{tree_wf, JsonTree, Number, TreeView};
use serde_json::Value;
use vstd::prelude::*;

verus! {

#[verifier::external_type_specification]
#[verifier::external_body]
pub struct ExSerdeValue(Value);

/// What serde_json makes of the text `s`: the tree it parses, or the
/// message of its error.
pub uninterp spec fn json_parse_outcome(s: Seq<char>) -> Result<TreeView, Seq<char>>;

/// What serde_json makes of the bytes `b`: the tree it parses, or the
/// message of its error.
pub uninterp spec fn json_parse_bytes_outcome(b: Seq<u8>) -> Result<TreeView, Seq<char>>;

/// Turns serde_json's value into the library's tree, one node for one: an
/// object keeps serde_json's order of members, and a number keeps its kind
/// (an unsigned, a negative or a float, the float by its bits).
#[verifier::external_body]
fn tree_from_serde(v: Value) -> JsonTree {
    match v {
        Value::Null => JsonTree::Null,
        Value::Bool(b) => JsonTree::Bool(b),
        Value::Number(n) => JsonTree::Number(match (n.as_u64(), n.as_i64()) {
            (Some(u), _) => Number::PosInt(u),
            (None, Some(i)) => Number::NegInt(i),
            (None, None) => Number::Float(n.as_f64().map_or(0, |f| f.to_bits())),
        }),
        Value::String(s) => JsonTree::String(s),
        Value::Array(a) => JsonTree::Array(a.into_iter().map(tree_from_serde).collect()),
        Value::Object(m) => JsonTree::Object(m.into_iter().map(|(k, x)| (k, tree_from_serde(x))).collect()),
    }
}

/// Calls `serde_json::from_str` for a `serde_json::Value`. The contract
/// claims that the tree, or the error's message, is a function of the text
/// alone, named `json_parse_outcome`; what that function is on a given text
/// is left to serde_json. A parsed object never has two members of the
/// same name: serde_json keeps an object's members in a map by name.
#[verifier::external_body]
pub fn parse_json_text(s: &str) -> (r: Result<JsonTree, String>)
    ensures
        match json_parse_outcome(s@) {
            Ok(t) => r matches Ok(x) && x.tree_view() == t && tree_wf(t),
            Err(m) => r matches Err(e) && e@ == m,
        },
{
    serde_json::from_str::<Value>(s).map(tree_from_serde).map_err(|e| e.to_string())
}

/// Calls `serde_json::from_slice` for a `serde_json::Value`. The contract
/// claims that the tree, or the error's message, is a function of the
/// bytes alone, named `json_parse_bytes_outcome`; what that function is on
/// given bytes is left to serde_json. A parsed object never has two members
/// of the same name: serde_json keeps an object's members in a map by name.
#[verifier::external_body]
pub fn parse_json_bytes(b: &[u8]) -> (r: Result<JsonTree, String>)
    ensures
        match json_parse_bytes_outcome(b@) {
            Ok(t) => r matches Ok(x) && x.tree_view() == t && tree_wf(t),
            Err(m) => r matches Err(e) && e@ == m,
        },
{
    serde_json::from_slice::<Value>(b).map(tree_from_serde).map_err(|e| e.to_string())
}

} // verus!
