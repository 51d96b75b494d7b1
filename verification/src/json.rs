//! Maps of texts written as JSON.
use crate::error::AgentMemoryError;
use crate::string_map::{distinct_keys, entries_map, StringMap};
use vstd::prelude::*;

verus! {

/// What `serde_json::from_str` makes of a text as a map from texts to texts: the map, or the
/// text of the error.
pub uninterp spec fn json_strings(text: Seq<char>) -> Result<Map<Seq<char>, Seq<char>>, Seq<char>>;

/// `serde_json::from_str` to a map from texts to texts. The entries come in no particular
/// order, each key once. Of an error the text is handed on.
#[verifier::external_body]
fn parse_json(text: &str) -> (r: Result<Vec<(String, String)>, String>)
    ensures
        match r {
            Ok(entries) => json_strings(text@) matches Ok(map) && map == entries_map(entries@),
            Err(message) => json_strings(text@) matches Err(m) && m == message@,
        },
{
    serde_json::from_str::<std::collections::HashMap<String, String>>(text)
        .map(|map| map.into_iter().collect())
        .map_err(|e| e.to_string())
}

/// `serde_json::to_string_pretty` of a map from texts to texts, which does not fail:
/// `serde_json::from_str` gives the map back from the text.
#[verifier::external_body]
fn render_json(entries: &Vec<(String, String)>) -> (r: Result<String, String>)
    requires
        distinct_keys(entries@),
    ensures
        r is Ok,
        json_strings(r->Ok_0@) is Ok,
        json_strings(r->Ok_0@)->Ok_0 == entries_map(entries@),
{
    let map: std::collections::BTreeMap<&String, &String> = entries.iter().map(|e| (&e.0, &e.1)).collect();
    serde_json::to_string_pretty(&map).map_err(|e| e.to_string())
}

/// The map that a JSON text holds.
pub fn parse_string_map(text: &str) -> (r: Result<StringMap, AgentMemoryError>)
    ensures
        match r {
            Ok(map) => json_strings(text@) matches Ok(m) && m == map@,
            Err(AgentMemoryError::Serialization(message)) => json_strings(text@) matches Err(m) && m == message@,
            Err(_) => false,
        },
{
    match parse_json(text) {
        Ok(entries) => Ok(StringMap::from_entries(entries)),
        Err(message) => Err(AgentMemoryError::Serialization(message)),
    }
}

/// A JSON text that holds a map: the map can be read back from it.
pub fn render_string_map(map: &StringMap) -> (r: Result<String, AgentMemoryError>)
    ensures
        r is Ok,
        (json_strings(r->Ok_0@) matches Ok(m) && m == map@),
{
    match render_json(map.entries()) {
        Ok(text) => Ok(text),
        Err(message) => Err(AgentMemoryError::Serialization(message)),
    }
}

} // verus!
