use vstd::prelude::*;

verus! {

/// serde_json's JSON value, carried opaquely through the library: broker
/// text messages hold arbitrary JSON payloads.
#[verifier::external_type_specification]
#[verifier::external_body]
pub struct ExValue(serde_json::Value);

/// Relies on serde_json's derived `Clone for Value`: the copy is equal to
/// the original.
pub assume_specification[ <serde_json::Value as Clone>::clone ](v: &serde_json::Value) -> (r:
    serde_json::Value)
    ensures
        r == *v,
;

/// std's `Clone for Result`, which vstd does not specify; nothing is
/// assumed of the cloned parts.
pub assume_specification<T: Clone, E: Clone>[ <Result<T, E> as Clone>::clone ](
    v: &Result<T, E>,
) -> Result<T, E>;

/// The compact JSON text of a value. serde_json renders objects from a
/// sorted map, so the text depends on the value alone.
pub uninterp spec fn json_text(v: serde_json::Value) -> Seq<char>;

/// Relies on serde_json's `Display for Value`: renders the compact JSON
/// text, a function of the value alone.
#[verifier::external_body]
pub(crate) fn json_value_to_string(v: &serde_json::Value) -> (r: String)
    ensures
        r@ == json_text(*v),
{
    v.to_string()
}

} // verus!
