//! JSON text.

use crate::text;
use vstd::prelude::*;
use vstd::string::*;

verus! {

/// The characters of `key` stand for themselves in a JSON string.
pub open spec fn plain_key(key: Seq<char>) -> bool {
    forall|i: int|
        0 <= i < key.len() ==> {
            let c = #[trigger] key[i];
            c as int >= 0x20 && c != '"' && c != '\\'
        }
}

/// The numbers in decimal.
pub open spec fn decimals(numbers: Seq<usize>) -> Seq<Seq<char>> {
    numbers.map_values(|n: usize| text::decimal_of(n as nat))
}

/// A JSON object, without white space, that holds one array of numbers.
pub open spec fn object_of(key: Seq<char>, numbers: Seq<usize>) -> Seq<char> {
    "{\""@ + key + "\":["@ + text::joined(decimals(numbers), ","@) + "]}"@
}

/// The text that the `Display` of `serde_json::Value` gives for an object with
/// the single key `key` whose value is the array of `numbers`: the compact
/// format, numbers in decimal, a comma between each two of them. Claimed only of
/// keys that need no escapes.
#[verifier::external_body]
pub(crate) fn object(key: &str, numbers: &Vec<usize>) -> (out: String)
    requires
        plain_key(key@),
    ensures
        out@ == object_of(key@, numbers@),
{
    let mut object = serde_json::Map::new();
    object.insert(key.to_string(), serde_json::Value::from(numbers.clone()));
    serde_json::Value::Object(object).to_string()
}

} // verus!
