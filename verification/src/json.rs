//! The one question the gateway asks of a JSON text before it knows its shape.

use vstd::prelude::*;

verus! {

/// Of a JSON text that is an object with a member `name`: whether that member
/// is null. Nothing of any other text.
pub uninterp spec fn json_member_is_null(body: Seq<char>, name: Seq<char>) -> Option<bool>;

/// `serde_json::from_str` to a `serde_json::Value`, then `Value::get` and
/// `Value::is_null`. The parser reads nothing but its argument, so that the
/// answer depends on the two texts alone.
#[verifier::external_body]
pub(crate) fn member_is_null(body: &str, name: &str) -> (r: Option<bool>)
    ensures
        r == json_member_is_null(body@, name@),
{
    let value: serde_json::Value = serde_json::from_str(body).ok()?;
    value.get(name).map(|m| m.is_null())
}

} // verus!
