//! The calls into the JSON crates, and the names under which the rest of the
//! library speaks of what they return.
//!
//! Nothing in this file is proved: the verifier takes each contract here on
//! trust. A contract says no more than the called code shows. In particular
//! it does not say that what `serde_json` writes is what `gjson` reads: the
//! library checks that for each record before the record goes into the log.

use vstd::prelude::*;
use vstd::string::*;
use vstd::utf8::*;

verus! {

/// The error type of `serde_json`.
#[verifier::external_type_specification]
#[verifier::external_body]
pub struct ExJsonError(serde_json::Error);

/// The JSON string literal that `serde_json::to_string` writes for a string.
pub uninterp spec fn json_literal(text: Seq<char>) -> Seq<char>;

/// The bytes of the string that `gjson::get` finds in `json` at `path`, as
/// `gjson::Value::str` hands it out.
pub uninterp spec fn json_member(json: Seq<char>, path: Seq<char>) -> Seq<u8>;

/// The most bytes of text that are handed to `gjson`. It counts brackets and
/// members in 32 bits, and a text of this length cannot bring a count to
/// its end.
pub const MAX_RECORD: usize = 0x7fff_fffe;

/// A path that is one plain member name: lower-case ASCII letters only, so
/// none of the characters to which `gjson` gives a meaning of their own.
pub open spec fn plain_path(path: Seq<char>) -> bool {
    &&& path.len() > 0
    &&& forall|i: int| 0 <= i < path.len() ==> 'a' <= #[trigger] path[i] <= 'z'
}

/// `serde_json::to_string` on a string slice. The call reads nothing but its
/// argument, so equal strings give equal results; the contract names that
/// result and claims nothing of what it looks like. It claims that there is
/// one: the string is written into a vector of bytes, which takes whatever
/// it is given, and writing a string slice asks for nothing else that could
/// fail.
#[verifier::external_body]
pub(crate) fn to_json_literal(text: &str) -> (r: Result<String, serde_json::Error>)
    ensures
        match r {
            Ok(literal) => literal@ == json_literal(text@),
            Err(_) => false,
        },
{
    serde_json::to_string(text)
}

/// `gjson::get` followed by `gjson::Value::str`, the result copied out as
/// bytes. With a plain member name as the path `get` walks the text once and
/// returns on every input of the length admitted here; it validates nothing,
/// so on text that is not JSON the result is whatever the walk came upon.
/// The call reads nothing but its arguments. The contract names the result
/// and claims nothing else of it, not even that the bytes are UTF-8.
#[verifier::external_body]
pub(crate) fn member_bytes(json: &str, path: &str) -> (r: Vec<u8>)
    requires
        plain_path(path@),
        json.spec_bytes().len() <= MAX_RECORD,
    ensures
        r@ == json_member(json@, path@),
{
    gjson::get(json, path).str().as_bytes().to_vec()
}

/// `core::str::from_utf8`: the bytes as a string slice where they are valid
/// UTF-8, and nothing otherwise.
#[verifier::external_body]
pub(crate) fn utf8_text(bytes: &[u8]) -> (r: Option<&str>)
    ensures
        r is Some <==> valid_utf8(bytes@),
        r matches Some(text) ==> text.spec_bytes() == bytes@,
{
    match core::str::from_utf8(bytes) {
        Ok(text) => Some(text),
        Err(_) => None,
    }
}

} // verus!
