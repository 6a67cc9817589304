//! JSON texts of an index: document lengths, and fields of metadata objects.

use vstd::prelude::*;

use crate::text::decimal;

verus! {

/// A JSON error of `serde_json`.
#[verifier::external_type_specification]
#[verifier::external_body]
pub struct ExJsonError(serde_json::Error);

/// The integers that a JSON text lists, if it is an array of `i64`, as `serde_json::from_slice`
/// reads it.
pub uninterp spec fn json_i64_list(text: Seq<u8>) -> Option<Seq<i64>>;

/// Whether `serde_json::from_slice` accepts the text as JSON.
pub uninterp spec fn json_accepted(text: Seq<u8>) -> bool;

/// The member `key` of a JSON object as `serde_json::Value::as_u64` reads it; nothing when the text
/// is no JSON object or has no such member.
pub uninterp spec fn json_u64_member(text: Seq<u8>, key: Seq<char>) -> Option<u64>;

/// The member `key` of a JSON object as `serde_json::Value::as_i64` reads it; nothing when the text
/// is no JSON object or has no such member.
pub uninterp spec fn json_i64_member(text: Seq<u8>, key: Seq<char>) -> Option<i64>;

/// The member `key` of a JSON object as `serde_json::Value::as_bool` reads it; nothing when the
/// text is no JSON object or has no such member.
pub uninterp spec fn json_bool_member(text: Seq<u8>, key: Seq<char>) -> Option<bool>;

/// The text of a JSON object with the member `key` set to `value`, as `serde_json` lays it out over
/// several lines; nothing when the text is no JSON object.
pub uninterp spec fn json_with_u64(text: Seq<u8>, key: Seq<char>, value: u64) -> Option<Seq<u8>>;

/// An integer in base ten, with a minus sign in front if it is negative.
pub open spec fn integer_text(v: i64) -> Seq<char> {
    if v < 0 {
        seq!['-'] + decimal((-(v as int)) as nat)
    } else {
        decimal(v as nat)
    }
}

/// Integers with commas between them.
pub open spec fn comma_list(v: Seq<i64>) -> Seq<char>
    decreases v.len(),
{
    if v.len() == 0 {
        Seq::empty()
    } else if v.len() == 1 {
        integer_text(v[0])
    } else {
        comma_list(v.drop_last()) + seq![','] + integer_text(v.last())
    }
}

/// The bytes of a text of ASCII characters.
pub open spec fn ascii_bytes(s: Seq<char>) -> Seq<u8> {
    Seq::new(s.len(), |i: int| s[i] as u8)
}

/// The compact JSON array of some integers.
pub open spec fn json_array(v: Seq<i64>) -> Seq<u8> {
    ascii_bytes(seq!['['] + comma_list(v) + seq![']'])
}

/// Calls `serde_json::from_slice` for a list of `i64`: the list is a function of the text, and so
/// is whether there is one.
#[verifier::external_body]
fn parse_i64_list(text: &[u8]) -> (r: Result<Vec<i64>, serde_json::Error>)
    ensures
        r is Ok <==> json_i64_list(text@) is Some,
        r matches Ok(v) ==> json_i64_list(text@) == Some(v@),
{
    serde_json::from_slice(text)
}

/// Calls `serde_json::to_vec` on a list of `i64`, which cannot fail: the text is the compact array,
/// and parsing it gives the list back.
#[verifier::external_body]
fn format_i64_list(v: &Vec<i64>) -> (r: Vec<u8>)
    ensures
        r@ == json_array(v@),
        json_i64_list(r@) == Some(v@),
{
    serde_json::to_vec(v).unwrap()
}

/// Calls `serde_json::from_slice` for any JSON value, and says whether it is accepted.
#[verifier::external_body]
pub(crate) fn is_json(text: &[u8]) -> (r: bool)
    ensures
        r == json_accepted(text@),
{
    serde_json::from_slice::<serde_json::Value>(text).is_ok()
}

/// Calls `serde_json::Value::as_u64` on a member of the object in `text`.
#[verifier::external_body]
pub(crate) fn u64_member(text: &[u8], key: &str) -> (r: Option<u64>)
    ensures
        r == json_u64_member(text@, key@),
{
    let value: serde_json::Value = serde_json::from_slice(text).ok()?;
    value.get(key)?.as_u64()
}

/// Calls `serde_json::Value::as_i64` on a member of the object in `text`.
#[verifier::external_body]
pub(crate) fn i64_member(text: &[u8], key: &str) -> (r: Option<i64>)
    ensures
        r == json_i64_member(text@, key@),
{
    let value: serde_json::Value = serde_json::from_slice(text).ok()?;
    value.get(key)?.as_i64()
}

/// Calls `serde_json::Value::as_bool` on a member of the object in `text`.
#[verifier::external_body]
pub(crate) fn bool_member(text: &[u8], key: &str) -> (r: Option<bool>)
    ensures
        r == json_bool_member(text@, key@),
{
    let value: serde_json::Value = serde_json::from_slice(text).ok()?;
    value.get(key)?.as_bool()
}

/// Calls `serde_json::Map::insert` on the object in `text`, and `serde_json::to_vec_pretty` on the
/// outcome. The new text is JSON; it has the member, and its other members read as before.
#[verifier::external_body]
pub(crate) fn with_u64_member(text: &[u8], key: &str, value: u64) -> (r: Option<Vec<u8>>)
    ensures
        r is Some <==> json_with_u64(text@, key@, value) is Some,
        r matches Some(t) ==> {
            &&& json_with_u64(text@, key@, value) == Some(t@)
            &&& json_accepted(t@)
            &&& json_u64_member(t@, key@) == Some(value)
            &&& forall|k: Seq<char>|
                k != key@ ==> #[trigger] json_u64_member(t@, k) == json_u64_member(text@, k)
        },
{
    let mut parsed: serde_json::Value = serde_json::from_slice(text).ok()?;
    parsed.as_object_mut()?.insert(key.to_string(), serde_json::Value::from(value));
    serde_json::to_vec_pretty(&parsed).ok()
}

/// Reads the document lengths of a chunk. Nothing, when the text is no JSON array of `i64`.
pub fn read_doclens(text: &[u8]) -> (r: Option<Vec<i64>>)
    ensures
        r is Some <==> json_i64_list(text@) is Some,
        r matches Some(v) ==> json_i64_list(text@) == Some(v@),
{
    match parse_i64_list(text) {
        Ok(v) => Some(v),
        Err(_) => None,
    }
}

/// Writes the document lengths of a chunk as a compact JSON array, which reads back as the same
/// lengths.
pub fn write_doclens(doclens: &Vec<i64>) -> (r: Vec<u8>)
    ensures
        r@ == json_array(doclens@),
        json_i64_list(r@) == Some(doclens@),
{
    format_i64_list(doclens)
}

/// Document lengths are read back as they were written.
pub proof fn written_doclens_are_read_back(
    doclens: &Vec<i64>,
    written: Vec<u8>,
    text: &[u8],
    r: Option<Vec<i64>>,
)
    requires
        call_ensures(write_doclens, (doclens,), written),
        call_ensures(read_doclens, (text,), r),
        text@ == written@,
    ensures
        r is Some,
        r->0@ == doclens@,
{
}

} // verus!
