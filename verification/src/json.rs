//! Reading a member of a JSON object.

use crate::types::opt_text;
use vstd::prelude::*;
use vstd::string::StringExecFns;

verus! {

/// The text of the member `key` of the JSON object that `text` holds: `None`
/// where `text` is no JSON, holds no object, the object has no such member,
/// or the member is no string.
pub uninterp spec fn json_member(text: Seq<char>, key: Seq<char>) -> Option<Seq<char>>;

/// Calls `serde_json::from_str` for a `serde_json::Value`, and reads the
/// result with `Value::get` and `Value::as_str`. The contract is taken on
/// trust. It claims that the result is a function of the two texts, which it
/// names `json_member`, and nothing else.
#[verifier::external_body]
fn read_member(text: &str, key: &str) -> (r: Option<String>)
    ensures
        opt_text(r) == json_member(text@, key@),
{
    match serde_json::from_str::<serde_json::Value>(text) {
        Ok(v) => v.get(key).and_then(|m| m.as_str()).map(|s| s.to_string()),
        Err(_) => None,
    }
}

/// The title that the name of a block edit gives: its member `title`, or the
/// whole name.
pub open spec fn block_title(name: Seq<char>) -> Seq<char> {
    match json_member(name, "title"@) {
        Some(t) => t,
        None => name,
    }
}

/// The zone that the name of a block edit gives: its member `zone`, or `card`.
pub open spec fn block_zone(name: Seq<char>) -> Seq<char> {
    match json_member(name, "zone"@) {
        Some(z) => z,
        None => "card"@,
    }
}

/// The title and the zone of a block, given what the name's members `title`
/// and `zone` hold: a missing title is the name itself, a missing zone `card`.
pub fn title_and_zone(name: &str, title: Option<String>, zone: Option<String>) -> (r: (String, String))
    ensures
        r.0@ == (match title {
            Some(t) => t@,
            None => name@,
        }),
        r.1@ == (match zone {
            Some(z) => z@,
            None => "card"@,
        }),
{
    let t = match title {
        Some(t) => t,
        None => String::from_str(name),
    };
    let z = match zone {
        Some(z) => z,
        None => String::from_str("card"),
    };
    (t, z)
}

/// Reads the title and the zone of a block from the name of a block edit.
pub fn block_spec_of(name: &str) -> (r: (String, String))
    ensures
        r.0@ == block_title(name@),
        r.1@ == block_zone(name@),
{
    let title = read_member(name, "title");
    let zone = read_member(name, "zone");
    title_and_zone(name, title, zone)
}

} // verus!
