use vstd::prelude::*;
use vstd::utf8::{encode_utf8, valid_utf8};

verus! {

/// Relies on String::from_utf8: it succeeds exactly when the bytes are valid
/// UTF-8, and the string it returns holds those same bytes.
#[verifier::external_body]
pub(crate) fn string_from_utf8(bytes: Vec<u8>) -> (r: Option<String>)
    ensures
        r is Some <==> valid_utf8(bytes@),
        r matches Some(s) ==> encode_utf8(s@) == bytes@,
{
    match String::from_utf8(bytes) {
        Ok(s) => Some(s),
        Err(_) => None,
    }
}

/// The text of a source file, from the bytes read from it: `None` when the
/// bytes are not valid UTF-8.
pub fn read_file(contents: Vec<u8>) -> (r: Option<String>)
    ensures
        r is Some <==> valid_utf8(contents@),
        r matches Some(s) ==> encode_utf8(s@) == contents@,
{
    string_from_utf8(contents)
}

} // verus!
