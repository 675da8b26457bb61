//! Startup configuration: the node endpoint comes from a JSON object
//! with a string field `node`; the channel argument `<address>:<tag>`
//! is split by the session itself.
//!
//! serde_json does the parsing. Its values are opaque to the proofs, so
//! the lookup runs from plain text to plain values behind one trusted
//! wrapper, and what it computes is named: whether the text is JSON,
//! and what string a field of it holds.

use vstd::prelude::*;

verus! {

/// Why the startup input was rejected.
#[derive(Clone, Copy, Debug, PartialEq, Eq, Structural)]
pub enum ConfigError {
    /// The channel argument has no `:` between address and tag.
    MissingSeparator,
    /// The configuration text is not valid JSON.
    BadJson,
    /// The configuration has no string field `node`.
    MissingNode,
}

/// Whether serde_json parses the text as JSON.
pub uninterp spec fn is_json(text: Seq<char>) -> bool;

/// The string field under a key of the JSON text: `None` when the text
/// is not a JSON object, the key is absent, or the field is not a
/// string.
pub uninterp spec fn json_field_of(text: Seq<char>, key: Seq<char>) -> Option<Seq<char>>;

/// Relies on serde_json::from_str, Value::get and Value::as_str: parses
/// the text and looks up the string field under the key. The serde
/// values in between are opaque here, so the chain stands in one
/// wrapper from plain text to plain values, and both of its results
/// depend on the arguments alone.
#[verifier::external_body]
fn parse_field(text: &str, key: &str) -> (r: (bool, Option<String>))
    ensures
        r.0 == is_json(text@),
        match r.1 {
            Some(s) => json_field_of(text@, key@) == Some(s@),
            None => json_field_of(text@, key@) is None,
        },
{
    match serde_json::from_str::<serde_json::Value>(text) {
        Err(_) => (false, None),
        Ok(v) => match v.get(key) {
            None => (true, None),
            Some(n) => match n.as_str() {
                None => (true, None),
                Some(s) => (true, Some(s.to_string())),
            },
        },
    }
}

/// Reads the node endpoint out of the configuration text: the string
/// field `node` of the JSON object. The two ways it can fail are told
/// apart: text that is not JSON, and JSON without a string `node`.
pub fn node_from_config(text: &str) -> (r: Result<String, ConfigError>)
    ensures
        match r {
            Ok(s) => is_json(text@) && json_field_of(text@, "node"@) == Some(s@),
            Err(e) => (e == ConfigError::BadJson && !is_json(text@)) || (e
                == ConfigError::MissingNode && is_json(text@) && json_field_of(
                text@,
                "node"@,
            ) is None),
        },
{
    let (parsed, field) = parse_field(text, "node");
    if !parsed {
        return Err(ConfigError::BadJson);
    }
    match field {
        Some(s) => Ok(s),
        None => Err(ConfigError::MissingNode),
    }
}

} // verus!
