//! Fixed-width integers as byte strings, in both byte orders.

use vstd::prelude::*;

verus! {

/// 256 to the power `len`.
pub open spec fn spec_pow256(len: nat) -> nat
    decreases len,
{
    if len == 0 {
        1
    } else {
        256 * spec_pow256((len - 1) as nat)
    }
}

/// The number that `b` spells in base 256, most significant byte first.
pub open spec fn spec_be_value(b: Seq<u8>) -> nat
    decreases b.len(),
{
    if b.len() == 0 {
        0
    } else {
        spec_be_value(b.drop_last()) * 256 + b.last() as nat
    }
}

/// The `len` low-order base-256 digits of `n`, most significant first.
pub open spec fn spec_be_digits(n: nat, len: nat) -> Seq<u8>
    decreases len,
{
    if len == 0 {
        Seq::empty()
    } else {
        spec_be_digits(n / 256, (len - 1) as nat).push((n % 256) as u8)
    }
}

/// The number that `b` spells in base 256, least significant byte first.
pub open spec fn spec_le_value(b: Seq<u8>) -> nat
    decreases b.len(),
{
    if b.len() == 0 {
        0
    } else {
        b.first() as nat + 256 * spec_le_value(b.drop_first())
    }
}

/// The `len` low-order base-256 digits of `n`, least significant first.
pub open spec fn spec_le_digits(n: nat, len: nat) -> Seq<u8>
    decreases len,
{
    if len == 0 {
        Seq::empty()
    } else {
        seq![(n % 256) as u8] + spec_le_digits(n / 256, (len - 1) as nat)
    }
}

/// The unsigned 64-bit number with the same bits as `n` in two's complement.
pub open spec fn spec_twos(n: i64) -> u64 {
    if n >= 0 {
        n as u64
    } else {
        (n + 0x1_0000_0000_0000_0000) as u64
    }
}

/// The signed 64-bit number with the same bits as `v` in two's complement.
pub open spec fn spec_untwos(v: u64) -> i64 {
    if v < 0x8000_0000_0000_0000 {
        v as i64
    } else {
        (v - 0x1_0000_0000_0000_0000) as i64
    }
}

/// Eight bytes hold exactly the numbers below 2^64.
pub proof fn lemma_pow256_8()
    ensures
        spec_pow256(8) == 0x1_0000_0000_0000_0000,
{
    reveal_with_fuel(spec_pow256, 9);
}

/// Digit strings have the length asked for.
pub proof fn lemma_digits_len(n: nat, len: nat)
    ensures
        spec_be_digits(n, len).len() == len,
        spec_le_digits(n, len).len() == len,
    decreases len,
{
    if len > 0 {
        lemma_digits_len(n / 256, (len - 1) as nat);
    }
}

/// A number that fits in `len` digits is spelled back by them, most
/// significant byte first.
pub proof fn lemma_be_value_of_digits(n: nat, len: nat)
    requires
        n < spec_pow256(len),
    ensures
        spec_be_value(spec_be_digits(n, len)) == n,
    decreases len,
{
    if len > 0 {
        let rest = spec_be_digits(n / 256, (len - 1) as nat);
        lemma_be_value_of_digits(n / 256, (len - 1) as nat);
        assert(rest.push((n % 256) as u8).drop_last() =~= rest);
    }
}

/// A number that fits in `len` digits is spelled back by them, least
/// significant byte first.
pub proof fn lemma_le_value_of_digits(n: nat, len: nat)
    requires
        n < spec_pow256(len),
    ensures
        spec_le_value(spec_le_digits(n, len)) == n,
    decreases len,
{
    if len > 0 {
        let rest = spec_le_digits(n / 256, (len - 1) as nat);
        lemma_le_value_of_digits(n / 256, (len - 1) as nat);
        assert((seq![(n % 256) as u8] + rest).drop_first() =~= rest);
    }
}

/// Two's complement loses nothing.
pub proof fn lemma_twos_round_trip(n: i64)
    ensures
        spec_untwos(spec_twos(n)) == n,
{
}

} // verus!
