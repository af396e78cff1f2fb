//! What passes between the library and the store, and a model of the store.
//!
//! The store maps byte strings to byte strings and hands its entries out in
//! ascending order of their keys. The library never calls it. A reading
//! operation takes what the caller fetched; a writing operation returns the
//! writes that the caller is to perform.

use crate::error::RedrockError;
use vstd::prelude::*;
use vstd::utf8::{encode_utf8, encode_utf8_decode_utf8};

verus! {

/// One write to the store.
#[derive(Debug, Clone, PartialEq)]
pub enum BatchOp {
    /// Store `value` under `key`, replacing what was there.
    Put { key: String, value: Vec<u8> },
    /// Remove `key`; nothing happens if it is absent.
    Delete { key: String },
}

/// A write, as contracts see it.
pub enum Write {
    Put { key: Seq<char>, value: Seq<u8> },
    Delete { key: Seq<char> },
}

impl View for BatchOp {
    type V = Write;

    open spec fn view(&self) -> Write {
        match self {
            BatchOp::Put { key, value } => Write::Put { key: key@, value: value@ },
            BatchOp::Delete { key } => Write::Delete { key: key@ },
        }
    }
}

/// What a single read of the store returned: the bytes found, nothing where
/// the key is absent, or the store's failure.
pub type Fetched = Result<Option<Vec<u8>>, RedrockError>;

/// One entry that a scan handed out: a physical key and the bytes under it.
pub type Entry = (Vec<u8>, Vec<u8>);

/// An entry, as contracts see it: a physical key and the bytes under it.
pub type Pair = (Seq<u8>, Seq<u8>);

/// The store as a map from physical keys to values.
pub type Contents = Map<Seq<u8>, Seq<u8>>;

/// The writes of `ops`, in order.
pub open spec fn spec_writes(ops: Seq<BatchOp>) -> Seq<Write> {
    ops.map_values(|op: BatchOp| op@)
}

/// The strings of `items`, in order.
pub open spec fn spec_texts(items: Seq<String>) -> Seq<Seq<char>> {
    items.map_values(|s: String| s@)
}

/// The bytes that `found` holds: none where the key is absent, and none
/// where the read failed. Whether the read failed is not in it: a function
/// that hands a failed read on says so of `found` itself.
pub open spec fn spec_found(found: Fetched) -> Option<Seq<u8>> {
    match found {
        Ok(Some(bytes)) => Some(bytes@),
        _ => None,
    }
}

/// What reading `key` finds in `c`.
pub open spec fn spec_fetch(c: Contents, key: Seq<char>) -> Option<Seq<u8>> {
    if c.contains_key(encode_utf8(key)) {
        Some(c[encode_utf8(key)])
    } else {
        None
    }
}

/// The store after `w` was performed on `c`.
pub open spec fn spec_apply(c: Contents, w: Write) -> Contents {
    match w {
        Write::Put { key, value } => c.insert(encode_utf8(key), value),
        Write::Delete { key } => c.remove(encode_utf8(key)),
    }
}

/// The store after all of `ws` were performed on `c`, first to last.
pub open spec fn spec_apply_all(c: Contents, ws: Seq<Write>) -> Contents
    decreases ws.len(),
{
    if ws.len() == 0 {
        c
    } else {
        spec_apply(spec_apply_all(c, ws.drop_last()), ws.last())
    }
}

/// The order of the physical keys: byte by byte, a shorter key before its
/// extensions.
pub open spec fn spec_key_le(a: Seq<u8>, b: Seq<u8>) -> bool
    decreases a.len(),
{
    if a.len() == 0 {
        true
    } else if b.len() == 0 {
        false
    } else if a.first() != b.first() {
        a.first() < b.first()
    } else {
        spec_key_le(a.drop_first(), b.drop_first())
    }
}

/// Whether `run` is what a forward scan of `c` from `start` hands out when it
/// is walked to its end: the entries of `c` whose keys are not below `start`,
/// each once, in ascending order of their keys.
pub open spec fn spec_is_scan(c: Contents, start: Seq<u8>, run: Seq<Pair>) -> bool {
    &&& forall|i: int|
        0 <= i < run.len() ==> c.contains_key((#[trigger] run[i]).0) && c[run[i].0] == run[i].1
            && spec_key_le(start, run[i].0)
    &&& forall|i: int, j: int|
        0 <= i < j < run.len() ==> spec_key_le((#[trigger] run[i]).0, (#[trigger] run[j]).0)
            && run[i].0 != run[j].0
    &&& forall|k: Seq<u8>|
        #[trigger] c.contains_key(k) && spec_key_le(start, k) ==> exists|i: int|
            0 <= i < run.len() && (#[trigger] run[i]).0 == k
}

/// The writes of a vector that grew by `op` grow by the write of `op`.
pub proof fn lemma_writes_push(ops: Seq<BatchOp>, op: BatchOp)
    ensures
        spec_writes(ops.push(op)) == spec_writes(ops).push(op@),
{
    assert(spec_writes(ops.push(op)) =~= spec_writes(ops).push(op@));
}

/// The strings of a vector that grew by `s` grow by the string of `s`.
pub proof fn lemma_texts_push(items: Seq<String>, s: String)
    ensures
        spec_texts(items.push(s)) == spec_texts(items).push(s@),
{
    assert(spec_texts(items.push(s)) =~= spec_texts(items).push(s@));
}

/// Different keys are different byte strings.
pub proof fn lemma_physical_injective(a: Seq<char>, b: Seq<char>)
    requires
        encode_utf8(a) == encode_utf8(b),
    ensures
        a == b,
{
    encode_utf8_decode_utf8(a);
    encode_utf8_decode_utf8(b);
}

/// Two writes in a row.
pub proof fn lemma_apply_two(c: Contents, first: Write, second: Write)
    ensures
        spec_apply_all(c, seq![first, second]) == spec_apply(spec_apply(c, first), second),
{
    let both = seq![first, second];
    assert(both.drop_last() =~= seq![first]);
    assert(seq![first].drop_last() =~= Seq::<Write>::empty());
    reveal_with_fuel(spec_apply_all, 3);
}

/// A run of deletes removes the keys that it names and leaves every other
/// key as it was.
pub proof fn lemma_apply_deletes(c: Contents, ws: Seq<Write>)
    requires
        forall|i: int| 0 <= i < ws.len() ==> #[trigger] ws[i] is Delete,
    ensures
        forall|k: Seq<u8>| #[trigger]
            spec_apply_all(c, ws).contains_key(k) <==> c.contains_key(k) && !(exists|i: int|
                0 <= i < ws.len() && encode_utf8(#[trigger] ws[i]->Delete_key) == k),
        forall|k: Seq<u8>| #[trigger]
            spec_apply_all(c, ws).contains_key(k) ==> spec_apply_all(c, ws)[k] == c[k],
    decreases ws.len(),
{
    if ws.len() > 0 {
        let front = ws.drop_last();
        lemma_apply_deletes(c, front);
        let mid = spec_apply_all(c, front);
        let gone = encode_utf8(ws.last()->Delete_key);
        assert(ws.last() is Delete);
        assert(spec_apply_all(c, ws) == mid.remove(gone));
        assert forall|k: Seq<u8>| #[trigger]
            spec_apply_all(c, ws).contains_key(k) <==> c.contains_key(k) && !(exists|i: int|
                0 <= i < ws.len() && encode_utf8(#[trigger] ws[i]->Delete_key) == k) by {
            if c.contains_key(k) {
                if exists|i: int| 0 <= i < ws.len() && encode_utf8(#[trigger] ws[i]->Delete_key) == k {
                    let i = choose|i: int|
                        0 <= i < ws.len() && encode_utf8(#[trigger] ws[i]->Delete_key) == k;
                    if i < ws.len() - 1 {
                        assert(front[i] == ws[i]);
                    }
                } else {
                    assert(k != gone) by {
                        assert(ws[ws.len() - 1] == ws.last());
                    }
                    assert forall|i: int| 0 <= i < front.len() implies encode_utf8(
                        #[trigger] front[i]->Delete_key,
                    ) != k by {
                        assert(front[i] == ws[i]);
                    }
                }
            }
        }
    }
}

} // verus!
