//! 64-bit counters, signed and unsigned, under a physical key of the caller's
//! choice.
//!
//! An increment reads the counter and writes it back raised by one. The two
//! steps are not atomic: of two callers that increment one counter at once,
//! one increment can be lost.

use crate::codec::{
    decode_i64, decode_u64, encode_i64, encode_u64, lemma_i64_round_trip, lemma_u64_round_trip,
    spec_decode_i64, spec_decode_u64, spec_encode_i64, spec_encode_u64,
};
use crate::error::RedrockError;
use crate::store::{spec_apply, spec_fetch, spec_found, BatchOp, Contents, Fetched, Write};
use vstd::prelude::*;
use vstd::string::*;

verus! {

/// The unsigned counter that fetched bytes give: nothing where the key is
/// absent or the bytes are fewer than eight.
pub open spec fn spec_get_u64(found: Option<Seq<u8>>) -> Option<u64> {
    match found {
        Some(bytes) => spec_decode_u64(bytes),
        None => None,
    }
}

/// The signed counter that fetched bytes give: nothing where the key is
/// absent or the bytes are fewer than eight.
pub open spec fn spec_get_i64(found: Option<Seq<u8>>) -> Option<i64> {
    match found {
        Some(bytes) => spec_decode_i64(bytes),
        None => None,
    }
}

/// The value that an unsigned counter counts from: 0 where it gives nothing.
pub open spec fn spec_count_u64(found: Option<Seq<u8>>) -> u64 {
    match spec_get_u64(found) {
        Some(n) => n,
        None => 0,
    }
}

/// The value that a signed counter counts from: 0 where it gives nothing.
pub open spec fn spec_count_i64(found: Option<Seq<u8>>) -> i64 {
    match spec_get_i64(found) {
        Some(n) => n,
        None => 0,
    }
}

/// The unsigned counter under a fetched key: nothing where the key is absent,
/// the read failed or the bytes are fewer than eight.
pub fn get_u64(found: &Fetched) -> (r: Option<u64>)
    ensures
        r == spec_get_u64(spec_found(*found)),
{
    match found {
        Ok(Some(bytes)) => decode_u64(bytes.as_slice()),
        _ => None,
    }
}

/// The signed counter under a fetched key: nothing where the key is absent,
/// the read failed or the bytes are fewer than eight.
pub fn get_i64(found: &Fetched) -> (r: Option<i64>)
    ensures
        r == spec_get_i64(spec_found(*found)),
{
    match found {
        Ok(Some(bytes)) => decode_i64(bytes.as_slice()),
        _ => None,
    }
}

/// The write that stores the unsigned counter `data` under the physical key
/// `key`.
pub fn set_u64(key: &str, data: u64) -> (r: BatchOp)
    ensures
        r@ == (Write::Put { key: key@, value: spec_encode_u64(data) }),
{
    BatchOp::Put { key: String::from_str(key), value: encode_u64(data) }
}

/// The write that stores the signed counter `data` under the physical key
/// `key`.
pub fn set_i64(key: &str, data: i64) -> (r: BatchOp)
    ensures
        r@ == (Write::Put { key: key@, value: spec_encode_i64(data) }),
{
    BatchOp::Put { key: String::from_str(key), value: encode_i64(data) }
}

/// The write that raises by one the unsigned counter under `key`, whose
/// fetched value is `found`. A counter that is absent or malformed counts
/// from 0. A read that failed is handed on with the store's message, and
/// nothing is to be written.
pub fn inc_u64(key: &str, found: &Fetched) -> (r: Result<BatchOp, RedrockError>)
    requires
        *found is Ok ==> spec_count_u64(spec_found(*found)) < u64::MAX,
    ensures
        *found matches Err(e) ==> (r matches Err(e2) && e2@ == e@),
        *found is Ok ==> (r matches Ok(op) && op@ == (Write::Put {
            key: key@,
            value: spec_encode_u64((spec_count_u64(spec_found(*found)) + 1) as u64),
        })),
{
    if let Err(e) = found {
        return Err(RedrockError::new(e.to_string()));
    }
    let now = match get_u64(found) {
        Some(n) => n,
        None => 0,
    };
    Ok(set_u64(key, now + 1))
}

/// The write that raises by one the signed counter under `key`, whose fetched
/// value is `found`. A counter that is absent or malformed counts from 0. A
/// read that failed is handed on with the store's message, and nothing is to
/// be written.
pub fn inc_i64(key: &str, found: &Fetched) -> (r: Result<BatchOp, RedrockError>)
    requires
        *found is Ok ==> spec_count_i64(spec_found(*found)) < i64::MAX,
    ensures
        *found matches Err(e) ==> (r matches Err(e2) && e2@ == e@),
        *found is Ok ==> (r matches Ok(op) && op@ == (Write::Put {
            key: key@,
            value: spec_encode_i64((spec_count_i64(spec_found(*found)) + 1) as i64),
        })),
{
    if let Err(e) = found {
        return Err(RedrockError::new(e.to_string()));
    }
    let now = match get_i64(found) {
        Some(n) => n,
        None => 0,
    };
    Ok(set_i64(key, now + 1))
}

/// The store after the unsigned counter under `key` was incremented: it is
/// fetched and the write of the increment is performed.
pub open spec fn spec_incremented_u64(c: Contents, key: Seq<char>) -> Contents {
    spec_apply(
        c,
        Write::Put {
            key,
            value: spec_encode_u64((spec_count_u64(spec_fetch(c, key)) + 1) as u64),
        },
    )
}

/// The store after the signed counter under `key` was incremented.
pub open spec fn spec_incremented_i64(c: Contents, key: Seq<char>) -> Contents {
    spec_apply(
        c,
        Write::Put {
            key,
            value: spec_encode_i64((spec_count_i64(spec_fetch(c, key)) + 1) as i64),
        },
    )
}

/// The store after `times` increments in a row of the unsigned counter under
/// `key`.
pub open spec fn spec_incremented_u64_times(c: Contents, key: Seq<char>, times: nat) -> Contents
    decreases times,
{
    if times == 0 {
        c
    } else {
        spec_incremented_u64(spec_incremented_u64_times(c, key, (times - 1) as nat), key)
    }
}

/// The store after `times` increments in a row of the signed counter under
/// `key`.
pub open spec fn spec_incremented_i64_times(c: Contents, key: Seq<char>, times: nat) -> Contents
    decreases times,
{
    if times == 0 {
        c
    } else {
        spec_incremented_i64(spec_incremented_i64_times(c, key, (times - 1) as nat), key)
    }
}

/// One increment of an unsigned counter below the maximum reads back as the
/// old count plus one.
pub proof fn lemma_inc_u64(c: Contents, key: Seq<char>)
    requires
        spec_count_u64(spec_fetch(c, key)) < u64::MAX,
    ensures
        spec_get_u64(spec_fetch(spec_incremented_u64(c, key), key)) == Some(
            (spec_count_u64(spec_fetch(c, key)) + 1) as u64,
        ),
{
    lemma_u64_round_trip((spec_count_u64(spec_fetch(c, key)) + 1) as u64);
}

/// One increment of a signed counter below the maximum reads back as the old
/// count plus one.
pub proof fn lemma_inc_i64(c: Contents, key: Seq<char>)
    requires
        spec_count_i64(spec_fetch(c, key)) < i64::MAX,
    ensures
        spec_get_i64(spec_fetch(spec_incremented_i64(c, key), key)) == Some(
            (spec_count_i64(spec_fetch(c, key)) + 1) as i64,
        ),
{
    lemma_i64_round_trip((spec_count_i64(spec_fetch(c, key)) + 1) as i64);
}

/// An unsigned counter that starts absent counts its increments: after
/// `times` of them in a row it stands at `times`.
pub proof fn lemma_u64_counts(c: Contents, key: Seq<char>, times: nat)
    requires
        spec_fetch(c, key) is None,
        times <= u64::MAX,
    ensures
        spec_count_u64(spec_fetch(spec_incremented_u64_times(c, key, times), key)) == times,
        times > 0 ==> spec_get_u64(spec_fetch(spec_incremented_u64_times(c, key, times), key))
            == Some(times as u64),
    decreases times,
{
    if times > 0 {
        lemma_u64_counts(c, key, (times - 1) as nat);
        lemma_inc_u64(spec_incremented_u64_times(c, key, (times - 1) as nat), key);
    }
}

/// A signed counter that starts absent counts its increments: after `times`
/// of them in a row it stands at `times`.
pub proof fn lemma_i64_counts(c: Contents, key: Seq<char>, times: nat)
    requires
        spec_fetch(c, key) is None,
        times <= i64::MAX,
    ensures
        spec_count_i64(spec_fetch(spec_incremented_i64_times(c, key, times), key)) == times,
        times > 0 ==> spec_get_i64(spec_fetch(spec_incremented_i64_times(c, key, times), key))
            == Some(times as i64),
    decreases times,
{
    if times > 0 {
        lemma_i64_counts(c, key, (times - 1) as nat);
        lemma_inc_i64(spec_incremented_i64_times(c, key, (times - 1) as nat), key);
    }
}

} // verus!
