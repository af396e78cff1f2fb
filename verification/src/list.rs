//! Append-only lists.
//!
//! A list is a metadata record that holds its length and one entry per index
//! below that length. An absent record reads as length 0. An append writes the
//! entry first and the record second, as two separate writes: until the second
//! is done the list reads as before.

use crate::codec::{
    decode_meta, encode_meta, lemma_meta_round_trip, lemma_str_round_trip, spec_decode_meta,
    spec_decode_str, spec_encode_meta, spec_encode_str, spec_storable,
};
use crate::error::RedrockError;
use crate::keys::{
    l_idx_key, lemma_l_idx_key_injective, lemma_meta_key_is_no_data_key, meta_key, spec_decimal,
    spec_l_idx_key, spec_meta_key,
};
use crate::scalar::{get_str, set_str};
use crate::store::{
    lemma_apply_deletes, lemma_apply_two, lemma_physical_injective, lemma_texts_push,
    lemma_writes_push, spec_apply, spec_apply_all, spec_fetch, spec_found, spec_texts,
    spec_writes, BatchOp, Contents, Fetched, Write,
};
use vstd::prelude::*;
use vstd::string::*;
use vstd::utf8::encode_utf8;

verus! {

/// The metadata record of a list.
#[derive(Debug, PartialEq)]
pub struct ListMeta {
    pub length: u64,
}

/// The physical key of the metadata record of list `key`.
pub open spec fn spec_list_meta_key(key: Seq<char>) -> Seq<char> {
    spec_meta_key(seq!['l'], key)
}

/// The length that a fetched metadata record gives: 0 where there is none,
/// nothing where it cannot be decoded.
pub open spec fn spec_list_meta(found: Option<Seq<u8>>) -> Option<u64> {
    match found {
        Some(bytes) => spec_decode_meta(bytes),
        None => Some(0),
    }
}

/// The writes of an append, in the order in which they are to be performed:
/// the entry at the index that equals the current length, then the record with
/// the length raised by one. None where the record cannot be decoded.
pub open spec fn spec_lpush(key: Seq<char>, value: Seq<char>, found: Option<Seq<u8>>) -> Option<
    Seq<Write>,
> {
    match spec_list_meta(found) {
        Some(n) => Some(
            seq![
                Write::Put { key: spec_l_idx_key(key, n as nat), value: spec_encode_str(value) },
                Write::Put {
                    key: spec_list_meta_key(key),
                    value: spec_encode_meta((n + 1) as u64),
                },
            ],
        ),
        None => None,
    }
}

/// The physical keys of the entries of a list of length `n`, in order.
pub open spec fn spec_entry_keys(key: Seq<char>, n: nat) -> Seq<Seq<char>> {
    Seq::new(n, |i: int| spec_l_idx_key(key, i as nat))
}

/// The physical keys that a full read of the list fetches: one per index below
/// the length, none where the record cannot be decoded.
pub open spec fn spec_lget_keys(key: Seq<char>, found: Option<Seq<u8>>) -> Seq<Seq<char>> {
    match spec_list_meta(found) {
        Some(n) => spec_entry_keys(key, n as nat),
        None => Seq::empty(),
    }
}

/// The strings that the fetched entries store, in order; an entry that is
/// absent or cannot be decoded is left out.
pub open spec fn spec_collect(found: Seq<Option<Seq<u8>>>) -> Seq<Seq<char>>
    decreases found.len(),
{
    if found.len() == 0 {
        Seq::empty()
    } else {
        let front = spec_collect(found.drop_last());
        match found.last() {
            Some(bytes) => match spec_decode_str(bytes) {
                Some(s) => front.push(s),
                None => front,
            },
            None => front,
        }
    }
}

/// The writes of a full delete, which are to be performed as one atomic
/// batch: a delete of every entry below the length, then a delete of the
/// record. None where the record cannot be decoded.
pub open spec fn spec_ldel(key: Seq<char>, found: Option<Seq<u8>>) -> Option<Seq<Write>> {
    match spec_list_meta(found) {
        Some(n) => Some(
            Seq::new(
                (n + 1) as nat,
                |i: int|
                    if i < n {
                        Write::Delete { key: spec_l_idx_key(key, i as nat) }
                    } else {
                        Write::Delete { key: spec_list_meta_key(key) }
                    },
            ),
        ),
        None => None,
    }
}

/// What each fetched entry holds, in order.
pub open spec fn spec_found_all(found: Seq<Fetched>) -> Seq<Option<Seq<u8>>> {
    found.map_values(|f: Fetched| spec_found(f))
}

/// The physical key of the metadata record of list `key`: what `lmetaget`,
/// `llen`, `lexists`, `lpush`, `lget_keys` and `ldel` are to be given the
/// fetched value of.
pub fn list_meta_key(key: &str) -> (r: String)
    ensures
        r@ == spec_list_meta_key(key@),
{
    proof {
        reveal_strlit("l");
        assert("l"@ =~= seq!['l']);
    }
    meta_key("l", key)
}

/// Reads a fetched metadata record. An absent record gives length 0; a
/// record that cannot be decoded is an error; a read that failed is handed on
/// with the store's message.
pub fn lmetaget(found: &Fetched) -> (r: Result<ListMeta, RedrockError>)
    ensures
        *found matches Err(e) ==> (r matches Err(e2) && e2@ == e@),
        *found is Ok ==> (r is Ok <==> spec_list_meta(spec_found(*found)) is Some),
        r matches Ok(m) ==> *found is Ok && spec_list_meta(spec_found(*found)) == Some(m.length),
{
    match found {
        Ok(Some(bytes)) => match decode_meta(bytes.as_slice()) {
            Ok(length) => Ok(ListMeta { length }),
            Err(e) => Err(e),
        },
        Ok(None) => Ok(ListMeta { length: 0 }),
        Err(e) => Err(RedrockError::new(e.to_string())),
    }
}

/// The write that stores `m` as the metadata record of list `key`.
pub fn lmetaset(key: &str, m: &ListMeta) -> (r: Result<BatchOp, RedrockError>)
    ensures
        r is Ok,
        r matches Ok(op) ==> op@ == (Write::Put {
            key: spec_list_meta_key(key@),
            value: spec_encode_meta(m.length),
        }),
{
    let k = list_meta_key(key);
    match encode_meta(m.length) {
        Ok(value) => Ok(BatchOp::Put { key: k, value }),
        Err(e) => Err(e),
    }
}

/// Appends `value` to list `key`, whose fetched metadata record is `found`.
/// Returns the two writes of the append, to be performed in order and one
/// after the other; the second is not to be performed if the first fails.
/// Fails, with nothing to write, where the read of the record failed, with
/// the store's message, and where the record cannot be decoded.
pub fn lpush(key: &str, value: &str, found: &Fetched) -> (r: Result<Vec<BatchOp>, RedrockError>)
    requires
        *found is Ok ==> spec_list_meta(spec_found(*found)) != Some(u64::MAX),
    ensures
        *found matches Err(e) ==> (r matches Err(e2) && e2@ == e@),
        *found is Ok ==> (r is Ok <==> spec_lpush(key@, value@, spec_found(*found)) is Some),
        r matches Ok(ops) ==> *found is Ok && spec_lpush(key@, value@, spec_found(*found))
            == Some(spec_writes(ops@)),
{
    let mut meta = match lmetaget(found) {
        Ok(m) => m,
        Err(e) => { return Err(e); },
    };
    let idx_key = l_idx_key(key, meta.length);
    let entry = match set_str(idx_key.as_str(), value) {
        Ok(op) => op,
        Err(e) => { return Err(e); },
    };
    meta.length = meta.length + 1;
    let record = match lmetaset(key, &meta) {
        Ok(op) => op,
        Err(e) => { return Err(e); },
    };
    let mut ops: Vec<BatchOp> = Vec::new();
    ops.push(entry);
    ops.push(record);
    proof {
        assert(spec_writes(ops@) =~= spec_lpush(key@, value@, spec_found(*found)).unwrap());
    }
    Ok(ops)
}

/// The length of a list from its fetched metadata record: 0 where the record
/// is absent, an error where it cannot be decoded. A read that failed is
/// handed on with the store's message.
pub fn llen(found: &Fetched) -> (r: Result<u64, RedrockError>)
    ensures
        *found matches Err(e) ==> (r matches Err(e2) && e2@ == e@),
        *found is Ok ==> (r is Ok <==> spec_list_meta(spec_found(*found)) is Some),
        r matches Ok(n) ==> *found is Ok && spec_list_meta(spec_found(*found)) == Some(n),
{
    match lmetaget(found) {
        Ok(meta) => Ok(meta.length),
        Err(e) => Err(e),
    }
}

/// Whether a list exists, from its fetched metadata record: it does iff the
/// record is present, whatever it holds. A failed read is handed on.
pub fn lexists(found: Fetched) -> (r: Result<bool, RedrockError>)
    ensures
        match found {
            Ok(Some(_)) => r == Ok::<bool, RedrockError>(true),
            Ok(None) => r == Ok::<bool, RedrockError>(false),
            Err(e) => r == Err::<bool, RedrockError>(e),
        },
{
    match found {
        Ok(Some(_)) => Ok(true),
        Ok(None) => Ok(false),
        Err(e) => Err(e),
    }
}

/// The physical keys that a full read of list `key` is to fetch, in order,
/// given its fetched metadata record: none where the record is absent or
/// cannot be decoded, or where its read failed.
pub fn lget_keys(key: &str, found: &Fetched) -> (r: Vec<String>)
    ensures
        spec_texts(r@) == spec_lget_keys(key@, spec_found(*found)),
{
    let mut out: Vec<String> = Vec::new();
    if let Ok(meta) = lmetaget(found) {
        let n = meta.length;
        let mut i: u64 = 0;
        while i < n
            invariant
                i <= n,
                spec_texts(out@) == spec_entry_keys(key@, i as nat),
            decreases n - i,
        {
            let k = l_idx_key(key, i);
            proof {
                lemma_texts_push(out@, k);
            }
            out.push(k);
            i = i + 1;
            assert(spec_texts(out@) =~= spec_entry_keys(key@, i as nat));
        }
    } else {
        assert(spec_texts(out@) =~= Seq::empty());
    }
    out
}

/// The items of a list from its fetched entries, in order. An entry that is
/// absent, whose read failed or that stores no string is left out, so the
/// result may be shorter than the list.
pub fn lget(found: &Vec<Fetched>) -> (r: Vec<String>)
    ensures
        spec_texts(r@) == spec_collect(spec_found_all(found@)),
{
    let mut out: Vec<String> = Vec::new();
    let mut i: usize = 0;
    assert(spec_found_all(found@).take(0) =~= Seq::empty());
    while i < found.len()
        invariant
            i <= found.len(),
            spec_texts(out@) == spec_collect(spec_found_all(found@).take(i as int)),
        decreases found.len() - i,
    {
        let ghost before = spec_found_all(found@).take(i as int);
        let ghost after = spec_found_all(found@).take(i + 1);
        assert(after.drop_last() =~= before);
        assert(after.last() == spec_found(found@[i as int]));
        if let Some(s) = get_str(&found[i]) {
            proof {
                lemma_texts_push(out@, s);
            }
            out.push(s);
        }
        i = i + 1;
    }
    assert(spec_found_all(found@).take(i as int) =~= spec_found_all(found@));
    out
}

/// Deletes list `key`, whose fetched metadata record is `found`. Returns the
/// deletes of every entry and of the record, to be performed as one atomic
/// batch. Fails, with nothing to write, where the read of the record failed,
/// with the store's message, and where the record cannot be decoded.
pub fn ldel(key: &str, found: &Fetched) -> (r: Result<Vec<BatchOp>, RedrockError>)
    ensures
        *found matches Err(e) ==> (r matches Err(e2) && e2@ == e@),
        *found is Ok ==> (r is Ok <==> spec_ldel(key@, spec_found(*found)) is Some),
        r matches Ok(ops) ==> *found is Ok && spec_ldel(key@, spec_found(*found)) == Some(
            spec_writes(ops@),
        ),
{
    let meta = match lmetaget(found) {
        Ok(m) => m,
        Err(e) => { return Err(e); },
    };
    let n = meta.length;
    let ghost all = spec_ldel(key@, spec_found(*found)).unwrap();
    let mut batch: Vec<BatchOp> = Vec::new();
    let mut i: u64 = 0;
    while i < n
        invariant
            i <= n,
            all == spec_ldel(key@, spec_found(*found)).unwrap(),
            spec_list_meta(spec_found(*found)) == Some(n),
            spec_writes(batch@) == all.take(i as int),
        decreases n - i,
    {
        let op = BatchOp::Delete { key: l_idx_key(key, i) };
        proof {
            lemma_writes_push(batch@, op);
        }
        batch.push(op);
        i = i + 1;
        assert(spec_writes(batch@) =~= all.take(i as int));
    }
    let last = BatchOp::Delete { key: list_meta_key(key) };
    proof {
        lemma_writes_push(batch@, last);
    }
    batch.push(last);
    assert(spec_writes(batch@) =~= all);
    Ok(batch)
}

/// The length that a store gives for list `key`.
pub open spec fn spec_llen(c: Contents, key: Seq<char>) -> Option<u64> {
    spec_list_meta(spec_fetch(c, spec_list_meta_key(key)))
}

/// Whether list `key` exists in a store.
pub open spec fn spec_lexists(c: Contents, key: Seq<char>) -> bool {
    spec_fetch(c, spec_list_meta_key(key)) is Some
}

/// The items that a full read of list `key` gives in a store.
pub open spec fn spec_lget(c: Contents, key: Seq<char>) -> Seq<Seq<char>> {
    spec_collect(
        spec_lget_keys(key, spec_fetch(c, spec_list_meta_key(key))).map_values(
            |k: Seq<char>| spec_fetch(c, k),
        ),
    )
}

/// The store after `value` was appended to list `key`: the metadata record
/// is fetched and the two writes of the append are performed. Where the record
/// cannot be decoded the append fails and the store stays as it is.
pub open spec fn spec_pushed(c: Contents, key: Seq<char>, value: Seq<char>) -> Contents {
    match spec_lpush(key, value, spec_fetch(c, spec_list_meta_key(key))) {
        Some(ws) => spec_apply_all(c, ws),
        None => c,
    }
}

/// The store after each of `values` was appended to list `key`, first to last.
pub open spec fn spec_pushed_all(c: Contents, key: Seq<char>, values: Seq<Seq<char>>) -> Contents
    decreases values.len(),
{
    if values.len() == 0 {
        c
    } else {
        spec_pushed(spec_pushed_all(c, key, values.drop_last()), key, values.last())
    }
}

/// The store after list `key` was deleted: the metadata record is fetched and
/// the batch of the delete is performed. Where the record cannot be decoded
/// the delete fails and the store stays as it is.
pub open spec fn spec_deleted(c: Contents, key: Seq<char>) -> Contents {
    match spec_ldel(key, spec_fetch(c, spec_list_meta_key(key))) {
        Some(ws) => spec_apply_all(c, ws),
        None => c,
    }
}

/// List `key` holds exactly `items` in a store: the metadata record gives
/// their number, and entry `i` stores `items[i]`.
pub open spec fn spec_list_holds(c: Contents, key: Seq<char>, items: Seq<Seq<char>>) -> bool {
    &&& items.len() <= u64::MAX
    &&& spec_llen(c, key) == Some(items.len() as u64)
    &&& forall|i: int|
        0 <= i < items.len() ==> (#[trigger] spec_fetch(c, spec_l_idx_key(key, i as nat))
            matches Some(bytes) && spec_decode_str(bytes) == Some(items[i]))
}

/// Entries that all store a string collect to those strings.
pub proof fn lemma_collect_all(found: Seq<Option<Seq<u8>>>, items: Seq<Seq<char>>)
    requires
        found.len() == items.len(),
        forall|i: int|
            0 <= i < found.len() ==> (#[trigger] found[i] matches Some(bytes) && spec_decode_str(
                bytes,
            ) == Some(items[i])),
    ensures
        spec_collect(found) == items,
    decreases found.len(),
{
    if found.len() > 0 {
        lemma_collect_all(found.drop_last(), items.drop_last());
        assert(found.last() == found[found.len() - 1]);
        assert(items.drop_last().push(items.last()) =~= items);
    } else {
        assert(items =~= Seq::empty());
    }
}

/// A list that holds `items` reads as `items` and has their number as its
/// length.
pub proof fn lemma_held_list_reads(c: Contents, key: Seq<char>, items: Seq<Seq<char>>)
    requires
        spec_list_holds(c, key, items),
    ensures
        spec_lget(c, key) == items,
        spec_llen(c, key) == Some(items.len() as u64),
{
    let keys = spec_lget_keys(key, spec_fetch(c, spec_list_meta_key(key)));
    let found = keys.map_values(|k: Seq<char>| spec_fetch(c, k));
    assert(keys == spec_entry_keys(key, items.len()));
    assert forall|i: int| 0 <= i < found.len() implies (#[trigger] found[i] matches Some(bytes)
        && spec_decode_str(bytes) == Some(items[i])) by {
        assert(found[i] == spec_fetch(c, spec_l_idx_key(key, i as nat)));
    }
    lemma_collect_all(found, items);
}

/// A list that was never written is empty: it reads as no items, has length
/// 0 and does not exist.
pub proof fn lemma_absent_list(c: Contents, key: Seq<char>)
    requires
        spec_fetch(c, spec_list_meta_key(key)) is None,
    ensures
        spec_list_holds(c, key, Seq::empty()),
        spec_lget(c, key) == Seq::<Seq<char>>::empty(),
        spec_llen(c, key) == Some(0u64),
        !spec_lexists(c, key),
{
    lemma_held_list_reads(c, key, Seq::empty());
}

/// An append to a list that holds `items` leaves a list that holds `items`
/// and then `value`.
pub proof fn lemma_push_appends(
    c: Contents,
    key: Seq<char>,
    items: Seq<Seq<char>>,
    value: Seq<char>,
)
    requires
        spec_list_holds(c, key, items),
        items.len() < u64::MAX,
        spec_storable(value),
    ensures
        spec_list_holds(spec_pushed(c, key, value), key, items.push(value)),
{
    let n = items.len();
    let meta = spec_list_meta_key(key);
    let slot = spec_l_idx_key(key, n);
    let entry = Write::Put { key: slot, value: spec_encode_str(value) };
    let record = Write::Put { key: meta, value: spec_encode_meta((n + 1) as u64) };
    let after = spec_pushed(c, key, value);
    assert(spec_lpush(key, value, spec_fetch(c, meta)) == Some(seq![entry, record]));
    lemma_apply_two(c, entry, record);
    assert(after == c.insert(encode_utf8(slot), spec_encode_str(value)).insert(
        encode_utf8(meta),
        spec_encode_meta((n + 1) as u64),
    ));
    lemma_meta_round_trip((n + 1) as u64);
    lemma_str_round_trip(value);
    assert(slot != meta) by {
        lemma_meta_key_is_no_data_key(
            seq!['l'],
            key,
            seq!['l'],
            key + seq!['_'] + spec_decimal(n),
        );
    }
    assert(encode_utf8(slot) != encode_utf8(meta)) by {
        if encode_utf8(slot) == encode_utf8(meta) {
            lemma_physical_injective(slot, meta);
        }
    }
    let grown = items.push(value);
    assert forall|i: int| 0 <= i < grown.len() implies (#[trigger] spec_fetch(
        after,
        spec_l_idx_key(key, i as nat),
    ) matches Some(bytes) && spec_decode_str(bytes) == Some(grown[i])) by {
        let k = spec_l_idx_key(key, i as nat);
        assert(k != meta) by {
            lemma_meta_key_is_no_data_key(
                seq!['l'],
                key,
                seq!['l'],
                key + seq!['_'] + spec_decimal(i as nat),
            );
        }
        if encode_utf8(k) == encode_utf8(meta) {
            lemma_physical_injective(k, meta);
        }
        if i < n {
            if encode_utf8(k) == encode_utf8(slot) {
                lemma_physical_injective(k, slot);
                lemma_l_idx_key_injective(key, i as nat, n);
            }
            assert(spec_fetch(after, k) == spec_fetch(c, k));
        }
    }
}

/// An append that was interrupted between its two writes is not seen: with
/// the entry written and the record not, the list holds what it held. The
/// next append overwrites the orphaned entry.
pub proof fn lemma_interrupted_push(
    c: Contents,
    key: Seq<char>,
    items: Seq<Seq<char>>,
    value: Seq<char>,
)
    requires
        spec_list_holds(c, key, items),
    ensures
        spec_lpush(key, value, spec_fetch(c, spec_list_meta_key(key))) is Some,
        spec_list_holds(
            spec_apply(c, spec_lpush(key, value, spec_fetch(c, spec_list_meta_key(key))).unwrap()[0]),
            key,
            items,
        ),
{
    let n = items.len();
    let meta = spec_list_meta_key(key);
    let slot = spec_l_idx_key(key, n);
    let after = spec_apply(c, spec_lpush(key, value, spec_fetch(c, meta)).unwrap()[0]);
    assert(after == c.insert(encode_utf8(slot), spec_encode_str(value)));
    assert(slot != meta) by {
        lemma_meta_key_is_no_data_key(
            seq!['l'],
            key,
            seq!['l'],
            key + seq!['_'] + spec_decimal(n),
        );
    }
    if encode_utf8(slot) == encode_utf8(meta) {
        lemma_physical_injective(slot, meta);
    }
    assert forall|i: int| 0 <= i < items.len() implies (#[trigger] spec_fetch(
        after,
        spec_l_idx_key(key, i as nat),
    ) matches Some(bytes) && spec_decode_str(bytes) == Some(items[i])) by {
        let k = spec_l_idx_key(key, i as nat);
        if encode_utf8(k) == encode_utf8(slot) {
            lemma_physical_injective(k, slot);
            lemma_l_idx_key_injective(key, i as nat, n);
        }
        assert(spec_fetch(after, k) == spec_fetch(c, k));
    }
}

/// Appends come out in the order in which they went in: after `values` were
/// appended one by one to a list that did not exist, a full read gives
/// `values` and the length is their number.
pub proof fn lemma_push_order(c: Contents, key: Seq<char>, values: Seq<Seq<char>>)
    requires
        spec_fetch(c, spec_list_meta_key(key)) is None,
        values.len() <= u64::MAX,
        forall|i: int| 0 <= i < values.len() ==> spec_storable(#[trigger] values[i]),
    ensures
        spec_list_holds(spec_pushed_all(c, key, values), key, values),
        spec_lget(spec_pushed_all(c, key, values), key) == values,
        spec_llen(spec_pushed_all(c, key, values), key) == Some(values.len() as u64),
    decreases values.len(),
{
    if values.len() == 0 {
        lemma_absent_list(c, key);
        assert(values =~= Seq::empty());
    } else {
        let front = values.drop_last();
        lemma_push_order(c, key, front);
        lemma_push_appends(spec_pushed_all(c, key, front), key, front, values.last());
        assert(front.push(values.last()) =~= values);
    }
    lemma_held_list_reads(spec_pushed_all(c, key, values), key, values);
}

/// After a full delete the list does not exist, reads as no items and has
/// none of its entries left; every other key of the store is as it was.
pub proof fn lemma_delete_all(c: Contents, key: Seq<char>)
    requires
        spec_llen(c, key) is Some,
    ensures
        !spec_lexists(spec_deleted(c, key), key),
        spec_lget(spec_deleted(c, key), key) == Seq::<Seq<char>>::empty(),
        spec_llen(spec_deleted(c, key), key) == Some(0u64),
        forall|i: nat|
            i < spec_llen(c, key).unwrap() ==> #[trigger] spec_fetch(
                spec_deleted(c, key),
                spec_l_idx_key(key, i),
            ) is None,
        forall|k: Seq<u8>|
            k != encode_utf8(spec_list_meta_key(key)) && (forall|i: nat|
                i < spec_llen(c, key).unwrap() ==> k != encode_utf8(
                    #[trigger] spec_l_idx_key(key, i),
                )) ==> (#[trigger] spec_deleted(c, key).contains_key(k) <==> c.contains_key(k))
                && (c.contains_key(k) ==> spec_deleted(c, key)[k] == c[k]),
{
    let n = spec_llen(c, key).unwrap();
    let ws = spec_ldel(key, spec_fetch(c, spec_list_meta_key(key))).unwrap();
    let after = spec_deleted(c, key);
    lemma_apply_deletes(c, ws);
    assert(ws[n as int]->Delete_key == spec_list_meta_key(key));
    assert(!after.contains_key(encode_utf8(spec_list_meta_key(key))));
    lemma_absent_list(after, key);
    assert forall|i: nat| i < n implies #[trigger] spec_fetch(after, spec_l_idx_key(key, i))
        is None by {
        assert(ws[i as int]->Delete_key == spec_l_idx_key(key, i));
    }
    assert forall|k: Seq<u8>|
        k != encode_utf8(spec_list_meta_key(key)) && (forall|i: nat|
            i < n ==> k != encode_utf8(#[trigger] spec_l_idx_key(key, i))) implies (
    #[trigger] after.contains_key(k) <==> c.contains_key(k)) && (c.contains_key(k) ==> after[k]
        == c[k]) by {
        if c.contains_key(k) {
            if exists|i: int| 0 <= i < ws.len() && encode_utf8(#[trigger] ws[i]->Delete_key) == k {
                let i = choose|i: int|
                    0 <= i < ws.len() && encode_utf8(#[trigger] ws[i]->Delete_key) == k;
                if i < n {
                    assert(ws[i]->Delete_key == spec_l_idx_key(key, i as nat));
                }
            }
        }
    }
}

} // verus!
