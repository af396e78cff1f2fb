//! The value codecs.
//!
//! Strings and list metadata are stored in the layout of `bincode` with
//! fixed-width little-endian integers; counters are stored as their eight
//! big-endian bytes with nothing around them.

use crate::error::RedrockError;
use crate::ints::{
    lemma_be_value_of_digits, lemma_digits_len, lemma_le_value_of_digits, lemma_pow256_8,
    lemma_twos_round_trip, spec_be_digits, spec_be_value, spec_le_digits, spec_le_value, spec_twos,
    spec_untwos,
};
use vstd::prelude::*;
use vstd::string::*;
use vstd::utf8::*;

verus! {

#[verifier::external_type_specification]
#[verifier::external_body]
pub struct ExBincodeErrorKind(bincode::ErrorKind);

/// The stored form of a string: the length of its UTF-8 form as eight
/// little-endian bytes, then the UTF-8 bytes.
pub open spec fn spec_encode_str(s: Seq<char>) -> Seq<u8> {
    spec_le_digits(encode_utf8(s).len(), 8) + encode_utf8(s)
}

/// The string that `b` stores, if it stores one: `b` starts with a length
/// and holds at least that many further bytes, which are valid UTF-8. Bytes
/// after them are ignored.
pub open spec fn spec_decode_str(b: Seq<u8>) -> Option<Seq<char>> {
    if b.len() < 8 {
        None
    } else {
        let n = spec_le_value(b.subrange(0, 8)) as int;
        if n > b.len() - 8 {
            None
        } else if !valid_utf8(b.subrange(8, 8 + n)) {
            None
        } else {
            Some(decode_utf8(b.subrange(8, 8 + n)))
        }
    }
}

/// Whether the length of the UTF-8 form of `s` fits the eight-byte length
/// field of its stored form. Every string that a machine can hold does.
pub open spec fn spec_storable(s: Seq<char>) -> bool {
    encode_utf8(s).len() < 0x1_0000_0000_0000_0000
}

/// The stored form of a list length: eight little-endian bytes, which is how
/// a record with the length as its only field is laid out.
pub open spec fn spec_encode_meta(length: u64) -> Seq<u8> {
    spec_le_digits(length as nat, 8)
}

/// The list length that `b` stores, if it stores one. Bytes after the first
/// eight are ignored.
pub open spec fn spec_decode_meta(b: Seq<u8>) -> Option<u64> {
    if b.len() < 8 {
        None
    } else {
        Some(spec_le_value(b.subrange(0, 8)) as u64)
    }
}

/// The stored form of an unsigned counter: eight big-endian bytes.
pub open spec fn spec_encode_u64(n: u64) -> Seq<u8> {
    spec_be_digits(n as nat, 8)
}

/// The unsigned counter that `b` stores, if it stores one. Bytes after the
/// first eight are ignored.
pub open spec fn spec_decode_u64(b: Seq<u8>) -> Option<u64> {
    if b.len() < 8 {
        None
    } else {
        Some(spec_be_value(b.subrange(0, 8)) as u64)
    }
}

/// The stored form of a signed counter: its two's complement as eight
/// big-endian bytes.
pub open spec fn spec_encode_i64(n: i64) -> Seq<u8> {
    spec_encode_u64(spec_twos(n))
}

/// The signed counter that `b` stores, if it stores one.
pub open spec fn spec_decode_i64(b: Seq<u8>) -> Option<i64> {
    match spec_decode_u64(b) {
        Some(v) => Some(spec_untwos(v)),
        None => None,
    }
}

/// `bincode::serialize` on a string slice. With the configuration that this
/// function fixes (fixed-width integers, little endian, no size limit) it
/// writes the length of the string's UTF-8 form as a `u64` and then the UTF-8
/// bytes into a fresh vector, which cannot fail.
#[verifier::external_body]
fn bincode_serialize_str(s: &str) -> (r: Result<Vec<u8>, Box<bincode::ErrorKind>>)
    ensures
        r is Ok,
        r matches Ok(v) ==> v@ == spec_encode_str(s@),
{
    bincode::serialize(s)
}

/// `bincode::deserialize` to a `String`. It reads a little-endian `u64`
/// length, takes that many bytes if the slice holds them, and accepts them if
/// they are valid UTF-8; trailing bytes are allowed.
#[verifier::external_body]
fn bincode_deserialize_string(bytes: &[u8]) -> (r: Result<String, Box<bincode::ErrorKind>>)
    ensures
        r is Ok <==> spec_decode_str(bytes@) is Some,
        r matches Ok(s) ==> spec_decode_str(bytes@) == Some(s@),
{
    bincode::deserialize(bytes)
}

/// `bincode::serialize` on a `u64`: its eight little-endian bytes, written
/// into a fresh vector, which cannot fail.
#[verifier::external_body]
fn bincode_serialize_u64(n: u64) -> (r: Result<Vec<u8>, Box<bincode::ErrorKind>>)
    ensures
        r is Ok,
        r matches Ok(v) ==> v@ == spec_encode_meta(n),
{
    bincode::serialize(&n)
}

/// `bincode::deserialize` to a `u64`: the number that the first eight bytes
/// spell in little endian, or an error where the slice is shorter.
#[verifier::external_body]
fn bincode_deserialize_u64(bytes: &[u8]) -> (r: Result<u64, Box<bincode::ErrorKind>>)
    ensures
        r is Ok <==> spec_decode_meta(bytes@) is Some,
        r matches Ok(n) ==> spec_decode_meta(bytes@) == Some(n),
{
    bincode::deserialize(bytes)
}

/// The `Debug` text of a `bincode` error. Nothing is claimed of it.
#[verifier::external_body]
fn bincode_error_text(e: &bincode::ErrorKind) -> String {
    format!("{:?}", e)
}

/// `byteorder::ReadBytesExt::read_u64` in big endian on a byte slice: the
/// number that the first eight bytes spell, or nothing where the slice is
/// shorter.
#[verifier::external_body]
fn byteorder_read_u64(bytes: &[u8]) -> (r: Option<u64>)
    ensures
        r == spec_decode_u64(bytes@),
{
    let mut rest: &[u8] = bytes;
    byteorder::ReadBytesExt::read_u64::<byteorder::BigEndian>(&mut rest).ok()
}

/// `byteorder::ReadBytesExt::read_i64` in big endian on a byte slice: the
/// first eight bytes read as a two's complement number, or nothing where the
/// slice is shorter.
#[verifier::external_body]
fn byteorder_read_i64(bytes: &[u8]) -> (r: Option<i64>)
    ensures
        r == spec_decode_i64(bytes@),
{
    let mut rest: &[u8] = bytes;
    byteorder::ReadBytesExt::read_i64::<byteorder::BigEndian>(&mut rest).ok()
}

/// `core::str::from_utf8`: the string slice over the same bytes where they
/// are valid UTF-8, nothing where they are not.
#[verifier::external_body]
pub(crate) fn str_from_utf8(bytes: &[u8]) -> (r: Option<&str>)
    ensures
        r is Some <==> valid_utf8(bytes@),
        r matches Some(s) ==> s@ == decode_utf8(bytes@),
{
    core::str::from_utf8(bytes).ok()
}

/// The error that stands for a failed decoding. Its message is the `Debug`
/// text of the `bincode` error, of which nothing is claimed: the text may
/// hold what the operating system says of an I/O failure.
fn decode_error(e: Box<bincode::ErrorKind>) -> RedrockError {
    RedrockError::new(bincode_error_text(&*e))
}

/// Encodes a string for storage.
pub fn encode_str(s: &str) -> (r: Result<Vec<u8>, RedrockError>)
    ensures
        r is Ok,
        r matches Ok(v) ==> v@ == spec_encode_str(s@),
{
    match bincode_serialize_str(s) {
        Ok(v) => Ok(v),
        Err(e) => Err(decode_error(e)),
    }
}

/// Decodes a stored string; fails exactly where `bytes` stores none.
pub fn decode_str(bytes: &[u8]) -> (r: Result<String, RedrockError>)
    ensures
        r is Ok <==> spec_decode_str(bytes@) is Some,
        r matches Ok(s) ==> spec_decode_str(bytes@) == Some(s@),
{
    match bincode_deserialize_string(bytes) {
        Ok(s) => Ok(s),
        Err(e) => Err(decode_error(e)),
    }
}

/// Encodes a list length for storage.
pub fn encode_meta(length: u64) -> (r: Result<Vec<u8>, RedrockError>)
    ensures
        r is Ok,
        r matches Ok(v) ==> v@ == spec_encode_meta(length),
{
    match bincode_serialize_u64(length) {
        Ok(v) => Ok(v),
        Err(e) => Err(decode_error(e)),
    }
}

/// Decodes a stored list length; fails exactly where `bytes` stores none.
pub fn decode_meta(bytes: &[u8]) -> (r: Result<u64, RedrockError>)
    ensures
        r is Ok <==> spec_decode_meta(bytes@) is Some,
        r matches Ok(n) ==> spec_decode_meta(bytes@) == Some(n),
{
    match bincode_deserialize_u64(bytes) {
        Ok(n) => Ok(n),
        Err(e) => Err(decode_error(e)),
    }
}

/// Encodes an unsigned counter: its eight big-endian bytes.
pub fn encode_u64(n: u64) -> (r: Vec<u8>)
    ensures
        r@ == spec_encode_u64(n),
{
    let b7: u8 = (n % 256) as u8;
    let n1: u64 = n / 256;
    let b6: u8 = (n1 % 256) as u8;
    let n2: u64 = n1 / 256;
    let b5: u8 = (n2 % 256) as u8;
    let n3: u64 = n2 / 256;
    let b4: u8 = (n3 % 256) as u8;
    let n4: u64 = n3 / 256;
    let b3: u8 = (n4 % 256) as u8;
    let n5: u64 = n4 / 256;
    let b2: u8 = (n5 % 256) as u8;
    let n6: u64 = n5 / 256;
    let b1: u8 = (n6 % 256) as u8;
    let n7: u64 = n6 / 256;
    let b0: u8 = (n7 % 256) as u8;
    let mut r: Vec<u8> = Vec::new();
    r.push(b0);
    r.push(b1);
    r.push(b2);
    r.push(b3);
    r.push(b4);
    r.push(b5);
    r.push(b6);
    r.push(b7);
    proof {
        reveal_with_fuel(spec_be_digits, 9);
        assert(r@ =~= spec_be_digits(n as nat, 8));
    }
    r
}

/// Decodes an unsigned counter; nothing where `bytes` is shorter than eight
/// bytes.
pub fn decode_u64(bytes: &[u8]) -> (r: Option<u64>)
    ensures
        r == spec_decode_u64(bytes@),
{
    byteorder_read_u64(bytes)
}

/// Encodes a signed counter: the eight big-endian bytes of its two's
/// complement.
pub fn encode_i64(n: i64) -> (r: Vec<u8>)
    ensures
        r@ == spec_encode_i64(n),
{
    let bits: u64 = if n >= 0 {
        n as u64
    } else {
        u64::MAX - ((-(n + 1)) as u64)
    };
    encode_u64(bits)
}

/// Decodes a signed counter; nothing where `bytes` is shorter than eight
/// bytes.
pub fn decode_i64(bytes: &[u8]) -> (r: Option<i64>)
    ensures
        r == spec_decode_i64(bytes@),
{
    byteorder_read_i64(bytes)
}

/// A string comes back from its stored form, provided that the length of its
/// UTF-8 form fits the eight-byte length field.
pub proof fn lemma_str_round_trip(s: Seq<char>)
    requires
        spec_storable(s),
    ensures
        spec_decode_str(spec_encode_str(s)) == Some(s),
{
    let body = encode_utf8(s);
    let head = spec_le_digits(body.len(), 8);
    let b = spec_encode_str(s);
    lemma_digits_len(body.len(), 8);
    lemma_pow256_8();
    lemma_le_value_of_digits(body.len(), 8);
    assert(b.subrange(0, 8) =~= head);
    assert(b.subrange(8, 8 + body.len() as int) =~= body);
    encode_utf8_valid_utf8(s);
    encode_utf8_decode_utf8(s);
}

/// A list length comes back from its stored form.
pub proof fn lemma_meta_round_trip(length: u64)
    ensures
        spec_decode_meta(spec_encode_meta(length)) == Some(length),
{
    let b = spec_encode_meta(length);
    lemma_digits_len(length as nat, 8);
    lemma_pow256_8();
    lemma_le_value_of_digits(length as nat, 8);
    assert(b.subrange(0, 8) =~= b);
}

/// An unsigned counter comes back from its eight big-endian bytes.
pub proof fn lemma_u64_round_trip(n: u64)
    ensures
        spec_encode_u64(n).len() == 8,
        spec_decode_u64(spec_encode_u64(n)) == Some(n),
{
    let b = spec_encode_u64(n);
    lemma_digits_len(n as nat, 8);
    lemma_pow256_8();
    lemma_be_value_of_digits(n as nat, 8);
    assert(b.subrange(0, 8) =~= b);
}

/// A signed counter comes back from its eight big-endian bytes.
pub proof fn lemma_i64_round_trip(n: i64)
    ensures
        spec_encode_i64(n).len() == 8,
        spec_decode_i64(spec_encode_i64(n)) == Some(n),
{
    lemma_u64_round_trip(spec_twos(n));
    lemma_twos_round_trip(n);
}

} // verus!
