//! The physical key namespace.
//!
//! Every logical collection is stored under physical keys built from a
//! structure tag, the caller's key and, for the entries of a collection, an
//! index or a member name. The parts are joined with fixed separators and are
//! not escaped.

use vstd::prelude::*;
use vstd::string::*;

verus! {

/// The characters `meta_`.
pub open spec fn spec_meta_prefix() -> Seq<char> {
    seq!['m', 'e', 't', 'a', '_']
}

/// The characters `data_`.
pub open spec fn spec_data_prefix() -> Seq<char> {
    seq!['d', 'a', 't', 'a', '_']
}

/// The decimal digit that stands for `d`.
pub open spec fn spec_digit(d: nat) -> char
    recommends
        d < 10,
{
    if d == 0 {
        '0'
    } else if d == 1 {
        '1'
    } else if d == 2 {
        '2'
    } else if d == 3 {
        '3'
    } else if d == 4 {
        '4'
    } else if d == 5 {
        '5'
    } else if d == 6 {
        '6'
    } else if d == 7 {
        '7'
    } else if d == 8 {
        '8'
    } else {
        '9'
    }
}

/// `n` written in base ten, most significant digit first, without leading zeros.
pub open spec fn spec_decimal(n: nat) -> Seq<char>
    decreases n,
{
    if n < 10 {
        seq![spec_digit(n)]
    } else {
        spec_decimal(n / 10).push(spec_digit(n % 10))
    }
}

/// `meta_<tp>_<key>`: where the metadata record of a collection lives.
pub open spec fn spec_meta_key(tp: Seq<char>, key: Seq<char>) -> Seq<char> {
    spec_meta_prefix() + tp + seq!['_'] + key
}

/// `data_<tp>_<key>`: the stem of the physical keys of a collection's entries.
pub open spec fn spec_data_key(tp: Seq<char>, key: Seq<char>) -> Seq<char> {
    spec_data_prefix() + tp + seq!['_'] + key
}

/// `data_l_<key>_<idx>`: where entry `idx` of list `key` lives.
pub open spec fn spec_l_idx_key(key: Seq<char>, idx: nat) -> Seq<char> {
    spec_data_key(seq!['l'], key + seq!['_'] + spec_decimal(idx))
}

/// `data_z_<key>:<member>`: where `member` of set `key` lives.
pub open spec fn spec_z_member_key(key: Seq<char>, member: Seq<char>) -> Seq<char> {
    spec_data_key(seq!['z'], key + seq![':'] + member)
}

/// `data_z_<key>:`: the prefix shared by the physical keys of the members of set `key`.
pub open spec fn spec_z_key(key: Seq<char>) -> Seq<char> {
    spec_data_key(seq!['z'], key + seq![':'])
}

/// The physical key of the metadata record of collection `key` of type `tp`.
pub fn meta_key(tp: &str, key: &str) -> (r: String)
    ensures
        r@ == spec_meta_key(tp@, key@),
{
    let mut r = String::from_str("meta_");
    r.append(tp);
    r.append("_");
    r.append(key);
    proof {
        reveal_strlit("meta_");
        reveal_strlit("_");
        assert("meta_"@ =~= spec_meta_prefix());
        assert("_"@ =~= seq!['_']);
    }
    r
}

/// The physical key stem of the entries of collection `key` of type `tp`.
pub fn data_key(tp: &str, key: &str) -> (r: String)
    ensures
        r@ == spec_data_key(tp@, key@),
{
    let mut r = String::from_str("data_");
    r.append(tp);
    r.append("_");
    r.append(key);
    proof {
        reveal_strlit("data_");
        reveal_strlit("_");
        assert("data_"@ =~= spec_data_prefix());
        assert("_"@ =~= seq!['_']);
    }
    r
}

/// One decimal digit as a string.
fn digit_str(d: u64) -> (r: &'static str)
    requires
        d < 10,
    ensures
        r@ == seq![spec_digit(d as nat)],
{
    proof {
        reveal_strlit("0");
        reveal_strlit("1");
        reveal_strlit("2");
        reveal_strlit("3");
        reveal_strlit("4");
        reveal_strlit("5");
        reveal_strlit("6");
        reveal_strlit("7");
        reveal_strlit("8");
        reveal_strlit("9");
    }
    let r = if d == 0 {
        "0"
    } else if d == 1 {
        "1"
    } else if d == 2 {
        "2"
    } else if d == 3 {
        "3"
    } else if d == 4 {
        "4"
    } else if d == 5 {
        "5"
    } else if d == 6 {
        "6"
    } else if d == 7 {
        "7"
    } else if d == 8 {
        "8"
    } else {
        "9"
    };
    assert(r@ =~= seq![spec_digit(d as nat)]);
    r
}

/// Writes `n` in base ten.
pub fn decimal(n: u64) -> (r: String)
    ensures
        r@ == spec_decimal(n as nat),
    decreases n,
{
    if n < 10 {
        String::from_str(digit_str(n))
    } else {
        let mut r = decimal(n / 10);
        r.append(digit_str(n % 10));
        assert(r@ =~= spec_decimal(n as nat));
        r
    }
}

/// The physical key of entry `idx` of list `key`.
pub fn l_idx_key(key: &str, idx: u64) -> (r: String)
    ensures
        r@ == spec_l_idx_key(key@, idx as nat),
{
    let mut tail = String::from_str(key);
    tail.append("_");
    let digits = decimal(idx);
    tail.append(digits.as_str());
    proof {
        reveal_strlit("_");
        reveal_strlit("l");
        assert("_"@ =~= seq!['_']);
        assert("l"@ =~= seq!['l']);
    }
    data_key("l", tail.as_str())
}

/// The physical key of `member` of set `key`.
pub fn z_member_key(key: &str, member: &str) -> (r: String)
    ensures
        r@ == spec_z_member_key(key@, member@),
{
    let mut tail = String::from_str(key);
    tail.append(":");
    tail.append(member);
    proof {
        reveal_strlit(":");
        reveal_strlit("z");
        assert(":"@ =~= seq![':']);
        assert("z"@ =~= seq!['z']);
    }
    data_key("z", tail.as_str())
}

/// The prefix from which a forward scan enumerates the members of set `key`.
pub fn z_key(key: &str) -> (r: String)
    ensures
        r@ == spec_z_key(key@),
{
    let mut tail = String::from_str(key);
    tail.append(":");
    proof {
        reveal_strlit(":");
        reveal_strlit("z");
        assert(":"@ =~= seq![':']);
        assert("z"@ =~= seq!['z']);
    }
    data_key("z", tail.as_str())
}

/// A decimal numeral is never empty.
pub proof fn lemma_decimal_len(n: nat)
    ensures
        spec_decimal(n).len() >= 1,
        n >= 10 ==> spec_decimal(n).len() >= 2,
    decreases n,
{
    if n >= 10 {
        lemma_decimal_len(n / 10);
    }
}

/// Different numbers have different decimal numerals.
pub proof fn lemma_decimal_injective(a: nat, b: nat)
    requires
        spec_decimal(a) == spec_decimal(b),
    ensures
        a == b,
    decreases a,
{
    lemma_decimal_len(a);
    lemma_decimal_len(b);
    if a < 10 {
        assert(spec_decimal(a)[0] == spec_digit(a));
        assert(spec_decimal(b)[0] == spec_digit(b));
    } else {
        let front_a = spec_decimal(a / 10);
        let front_b = spec_decimal(b / 10);
        let last_a = spec_digit(a % 10);
        let last_b = spec_digit(b % 10);
        assert(front_a.push(last_a).drop_last() =~= front_a);
        assert(front_b.push(last_b).drop_last() =~= front_b);
        assert(front_a.push(last_a).last() == last_a);
        assert(front_b.push(last_b).last() == last_b);
        lemma_decimal_injective(a / 10, b / 10);
    }
}

/// Two strings that start alike and are equal end alike.
pub proof fn lemma_same_front(front: Seq<char>, a: Seq<char>, b: Seq<char>)
    requires
        front + a == front + b,
    ensures
        a == b,
{
    assert((front + a).subrange(front.len() as int, (front + a).len() as int) =~= a);
    assert((front + b).subrange(front.len() as int, (front + b).len() as int) =~= b);
}

/// The entries of one list live under different physical keys.
pub proof fn lemma_l_idx_key_injective(key: Seq<char>, i: nat, j: nat)
    requires
        spec_l_idx_key(key, i) == spec_l_idx_key(key, j),
    ensures
        i == j,
{
    let front = spec_data_prefix() + seq!['l'] + seq!['_'] + key + seq!['_'];
    assert(spec_l_idx_key(key, i) =~= front + spec_decimal(i));
    assert(spec_l_idx_key(key, j) =~= front + spec_decimal(j));
    lemma_same_front(front, spec_decimal(i), spec_decimal(j));
    lemma_decimal_injective(i, j);
}

/// A metadata record and an entry never share a physical key.
pub proof fn lemma_meta_key_is_no_data_key(
    meta_tp: Seq<char>,
    meta_of: Seq<char>,
    data_tp: Seq<char>,
    data_of: Seq<char>,
)
    ensures
        spec_meta_key(meta_tp, meta_of) != spec_data_key(data_tp, data_of),
{
    assert(spec_meta_key(meta_tp, meta_of)[0] == 'm');
    assert(spec_data_key(data_tp, data_of)[0] == 'd');
}

/// The members of one set live under different physical keys.
pub proof fn lemma_z_member_key_injective(key: Seq<char>, a: Seq<char>, b: Seq<char>)
    requires
        spec_z_member_key(key, a) == spec_z_member_key(key, b),
    ensures
        a == b,
{
    assert(spec_z_member_key(key, a) =~= spec_z_key(key) + a);
    assert(spec_z_member_key(key, b) =~= spec_z_key(key) + b);
    lemma_same_front(spec_z_key(key), a, b);
}

} // verus!
