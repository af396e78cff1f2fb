//! Plain values under a physical key of the caller's choice: strings, and
//! the removal of any key.

use crate::codec::{decode_str, encode_str, spec_decode_str, spec_encode_str};
use crate::error::RedrockError;
use crate::store::{spec_found, BatchOp, Fetched, Write};
use vstd::prelude::*;
use vstd::string::*;

verus! {

/// The string that fetched bytes give: nothing where the key is absent or the
/// bytes store no string.
pub open spec fn spec_get_str(found: Option<Seq<u8>>) -> Option<Seq<char>> {
    match found {
        Some(bytes) => spec_decode_str(bytes),
        None => None,
    }
}

/// The write that stores the string `data` under the physical key `key`.
pub fn set_str(key: &str, data: &str) -> (r: Result<BatchOp, RedrockError>)
    ensures
        r is Ok,
        r matches Ok(op) ==> op@ == (Write::Put { key: key@, value: spec_encode_str(data@) }),
{
    match encode_str(data) {
        Ok(value) => Ok(BatchOp::Put { key: String::from_str(key), value }),
        Err(e) => Err(e),
    }
}

/// The string under a fetched key: nothing where the key is absent, the read
/// failed or the bytes store no string.
pub fn get_str(found: &Fetched) -> (r: Option<String>)
    ensures
        r is Some <==> spec_get_str(spec_found(*found)) is Some,
        r matches Some(s) ==> spec_get_str(spec_found(*found)) == Some(s@),
{
    match found {
        Ok(Some(bytes)) => match decode_str(bytes.as_slice()) {
            Ok(s) => Some(s),
            Err(_) => None,
        },
        _ => None,
    }
}

/// The write that removes the physical key `key`.
pub fn del(key: &str) -> (r: BatchOp)
    ensures
        r@ == (Write::Delete { key: key@ }),
{
    BatchOp::Delete { key: String::from_str(key) }
}

} // verus!
