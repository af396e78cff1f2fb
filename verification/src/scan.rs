//! Prefix scans.
//!
//! A scan starts at the first physical key that is not below a prefix and
//! walks forward in key order. The entries that belong to the prefix come
//! first and without a gap, so the scan ends at the first key that does not
//! start with the prefix, or that is not valid UTF-8.

use crate::codec::{decode_i64, decode_str, spec_decode_i64, spec_decode_str, str_from_utf8};
use crate::store::{spec_is_scan, spec_key_le, Contents, Entry, Pair};
use vstd::prelude::*;
use vstd::string::*;
use vstd::utf8::{decode_utf8, decode_utf8_encode_utf8, encode_utf8, valid_utf8};

verus! {

/// The entries of `run`, in order.
pub open spec fn spec_entries(run: Seq<Entry>) -> Seq<Pair> {
    run.map_values(|e: Entry| (e.0@, e.1@))
}

/// Whether a scanned physical key belongs to `prefix`: it is valid UTF-8 and
/// starts with the bytes of `prefix`.
pub open spec fn spec_in_prefix(prefix: Seq<char>, key: Seq<u8>) -> bool {
    encode_utf8(prefix).is_prefix_of(key) && valid_utf8(key)
}

/// How many entries at the front of `run` belong to `prefix`: the index of the
/// first one that does not, or the length of `run`.
pub open spec fn spec_matching_len(prefix: Seq<char>, run: Seq<Pair>) -> nat
    decreases run.len(),
{
    if run.len() == 0 || !spec_in_prefix(prefix, run.first().0) {
        0
    } else {
        1 + spec_matching_len(prefix, run.drop_first())
    }
}

/// The entries of `run` that a scan of `prefix` reaches.
pub open spec fn spec_matching(prefix: Seq<char>, run: Seq<Pair>) -> Seq<Pair> {
    run.take(spec_matching_len(prefix, run) as int)
}

/// The keys and decoded strings of `entries`, in order; an entry whose value
/// stores no string is left out.
pub open spec fn spec_pairs_str(entries: Seq<Pair>) -> Seq<(Seq<char>, Seq<char>)>
    decreases entries.len(),
{
    if entries.len() == 0 {
        Seq::empty()
    } else {
        let front = spec_pairs_str(entries.drop_last());
        match spec_decode_str(entries.last().1) {
            Some(s) => front.push((decode_utf8(entries.last().0), s)),
            None => front,
        }
    }
}

/// The keys and decoded signed counters of `entries`, in order; an entry whose
/// value is shorter than eight bytes is left out.
pub open spec fn spec_pairs_i64(entries: Seq<Pair>) -> Seq<(Seq<char>, i64)>
    decreases entries.len(),
{
    if entries.len() == 0 {
        Seq::empty()
    } else {
        let front = spec_pairs_i64(entries.drop_last());
        match spec_decode_i64(entries.last().1) {
            Some(n) => front.push((decode_utf8(entries.last().0), n)),
            None => front,
        }
    }
}

/// What a scan of `prefix` over the entries `run` finds, values read as
/// strings.
pub open spec fn spec_prefix_search_str(prefix: Seq<char>, run: Seq<Pair>) -> Seq<
    (Seq<char>, Seq<char>),
> {
    spec_pairs_str(spec_matching(prefix, run))
}

/// What a scan of `prefix` over the entries `run` finds, values read as
/// signed counters.
pub open spec fn spec_prefix_search(prefix: Seq<char>, run: Seq<Pair>) -> Seq<(Seq<char>, i64)> {
    spec_pairs_i64(spec_matching(prefix, run))
}

/// The pairs of `found`, in order.
pub open spec fn spec_found_str(found: Seq<(String, String)>) -> Seq<(Seq<char>, Seq<char>)> {
    found.map_values(|p: (String, String)| (p.0@, p.1@))
}

/// The pairs of `found`, in order.
pub open spec fn spec_found_i64(found: Seq<(String, i64)>) -> Seq<(Seq<char>, i64)> {
    found.map_values(|p: (String, i64)| (p.0@, p.1))
}

/// Whether no physical key occurs twice in `run`, as in every scan.
pub open spec fn spec_distinct_keys(run: Seq<Pair>) -> bool {
    forall|i: int, j: int| 0 <= i < j < run.len() ==> (#[trigger] run[i]).0 != (#[trigger] run[j]).0
}

/// Whether no key occurs twice in what a scan found.
pub open spec fn spec_distinct_firsts<V>(found: Seq<(Seq<char>, V)>) -> bool {
    forall|a: int, b: int|
        0 <= a < b < found.len() ==> (#[trigger] found[a]).0 != (#[trigger] found[b]).0
}

/// The matching entries are a front piece of the run, each of them belongs to
/// the prefix, and the entry after them, if there is one, does not.
pub proof fn lemma_matching_len(prefix: Seq<char>, run: Seq<Pair>)
    ensures
        spec_matching_len(prefix, run) <= run.len(),
        forall|i: int|
            0 <= i < spec_matching_len(prefix, run) ==> spec_in_prefix(prefix, #[trigger] run[i].0),
        spec_matching_len(prefix, run) < run.len() ==> !spec_in_prefix(
            prefix,
            run[spec_matching_len(prefix, run) as int].0,
        ),
    decreases run.len(),
{
    if run.len() > 0 && spec_in_prefix(prefix, run.first().0) {
        let rest = run.drop_first();
        lemma_matching_len(prefix, rest);
        assert forall|i: int| 0 <= i < spec_matching_len(prefix, run) implies spec_in_prefix(
            prefix,
            #[trigger] run[i].0,
        ) by {
            if i > 0 {
                assert(run[i] == rest[i - 1]);
            }
        }
        if spec_matching_len(prefix, run) < run.len() {
            assert(run[spec_matching_len(prefix, run) as int] == rest[spec_matching_len(
                prefix,
                rest,
            ) as int]);
        }
    }
}

/// A key is not below any of its prefixes.
pub proof fn lemma_prefix_is_le(p: Seq<u8>, k: Seq<u8>)
    requires
        p.is_prefix_of(k),
    ensures
        spec_key_le(p, k),
    decreases p.len(),
{
    if p.len() > 0 {
        assert(p.first() == k.subrange(0, p.len() as int)[0]);
        assert(p.drop_first() =~= k.drop_first().subrange(0, p.len() - 1)) by {
            assert forall|i: int| 0 <= i < p.len() - 1 implies p.drop_first()[i] == k.drop_first()[i] by {
                assert(p[i + 1] == k.subrange(0, p.len() as int)[i + 1]);
            }
        }
        lemma_prefix_is_le(p.drop_first(), k.drop_first());
    }
}

/// The keys with a given prefix lie together, directly from the prefix on: a
/// key between the prefix and a key that has the prefix has it too.
pub proof fn lemma_prefix_block(p: Seq<u8>, x: Seq<u8>, y: Seq<u8>)
    requires
        spec_key_le(p, x),
        spec_key_le(x, y),
        p.is_prefix_of(y),
    ensures
        p.is_prefix_of(x),
    decreases p.len(),
{
    if p.len() > 0 {
        assert(p.first() == y.subrange(0, p.len() as int)[0]);
        assert(p.drop_first() =~= y.drop_first().subrange(0, p.len() - 1)) by {
            assert forall|i: int| 0 <= i < p.len() - 1 implies p.drop_first()[i] == y.drop_first()[i] by {
                assert(p[i + 1] == y.subrange(0, p.len() as int)[i + 1]);
            }
        }
        lemma_prefix_block(p.drop_first(), x.drop_first(), y.drop_first());
        assert(p =~= x.subrange(0, p.len() as int)) by {
            assert forall|i: int| 0 <= i < p.len() implies p[i] == x[i] by {
                if i > 0 {
                    assert(p.drop_first()[i - 1] == x.drop_first().subrange(0, p.len() - 1)[i - 1]);
                }
            }
        }
    } else {
        assert(p =~= x.subrange(0, 0));
    }
}

/// A scan of a prefix finds exactly the entries of that prefix: in a full
/// scan of `c` from `prefix`, the entries that the scan of `prefix` reaches
/// are those whose keys start with `prefix`, and every key of `c` that starts
/// with `prefix` is among them. This holds where the keys of `c` that start
/// with `prefix` are valid UTF-8.
pub proof fn lemma_scan_takes_prefix(c: Contents, prefix: Seq<char>, run: Seq<Pair>)
    requires
        spec_is_scan(c, encode_utf8(prefix), run),
        forall|k: Seq<u8>|
            #[trigger] c.contains_key(k) && encode_utf8(prefix).is_prefix_of(k) ==> valid_utf8(k),
    ensures
        spec_matching_len(prefix, run) <= run.len(),
        forall|i: int|
            0 <= i < run.len() ==> (i < spec_matching_len(prefix, run) <==> encode_utf8(
                prefix,
            ).is_prefix_of((#[trigger] run[i]).0)),
        forall|k: Seq<u8>|
            #[trigger] c.contains_key(k) && encode_utf8(prefix).is_prefix_of(k) ==> exists|i: int|
                0 <= i < spec_matching_len(prefix, run) && (#[trigger] run[i]).0 == k,
{
    let p = encode_utf8(prefix);
    let m = spec_matching_len(prefix, run) as int;
    lemma_matching_len(prefix, run);
    assert forall|i: int| 0 <= i < run.len() implies (i < m <==> p.is_prefix_of(
        (#[trigger] run[i]).0,
    )) by {
        if i >= m && p.is_prefix_of(run[i].0) {
            let stop = run[m];
            assert(c.contains_key(stop.0));
            if m < i {
                assert(spec_key_le(run[m].0, run[i].0));
            }
            lemma_prefix_is_le(p, run[i].0);
            assert(spec_key_le(stop.0, run[i].0)) by {
                if m == i {
                    lemma_prefix_is_le(stop.0, stop.0);
                }
            }
            lemma_prefix_block(p, stop.0, run[i].0);
        }
    }
    assert forall|k: Seq<u8>| #[trigger] c.contains_key(k) && p.is_prefix_of(k) implies exists|
        i: int,
    |
        0 <= i < m && (#[trigger] run[i]).0 == k by {
        lemma_prefix_is_le(p, k);
        let i = choose|i: int| 0 <= i < run.len() && (#[trigger] run[i]).0 == k;
        assert(i < m);
    }
}

/// A run that was cut off anywhere behind its matching entries gives what the
/// whole run gives. So a caller may stop walking at the first key that does
/// not belong to the prefix, or at any later one.
pub proof fn lemma_cut_run(prefix: Seq<char>, run: Seq<Pair>, cut: int)
    requires
        spec_matching_len(prefix, run) <= cut <= run.len(),
    ensures
        spec_matching_len(prefix, run.take(cut)) == spec_matching_len(prefix, run),
        spec_matching(prefix, run.take(cut)) == spec_matching(prefix, run),
        spec_prefix_search_str(prefix, run.take(cut)) == spec_prefix_search_str(prefix, run),
        spec_prefix_search(prefix, run.take(cut)) == spec_prefix_search(prefix, run),
    decreases run.len(),
{
    let short = run.take(cut);
    if run.len() == 0 || !spec_in_prefix(prefix, run.first().0) {
        if cut > 0 {
            assert(short.first() == run.first());
        }
    } else {
        assert(short.first() == run.first());
        assert(short.drop_first() =~= run.drop_first().take(cut - 1));
        lemma_cut_run(prefix, run.drop_first(), cut - 1);
    }
    assert(short.take(spec_matching_len(prefix, run) as int) =~= run.take(
        spec_matching_len(prefix, run) as int,
    ));
}

/// Each key that a collection of strings holds is the text of the key of one
/// of the entries.
pub proof fn lemma_pairs_str_origin(entries: Seq<Pair>)
    ensures
        forall|a: int|
            0 <= a < spec_pairs_str(entries).len() ==> exists|i: int|
                0 <= i < entries.len() && (#[trigger] spec_pairs_str(entries)[a]).0 == decode_utf8(
                    (#[trigger] entries[i]).0,
                ),
    decreases entries.len(),
{
    if entries.len() > 0 {
        let front = entries.drop_last();
        lemma_pairs_str_origin(front);
        let last = entries.len() - 1;
        assert forall|a: int| 0 <= a < spec_pairs_str(entries).len() implies exists|i: int|
            0 <= i < entries.len() && (#[trigger] spec_pairs_str(entries)[a]).0 == decode_utf8(
                (#[trigger] entries[i]).0,
            ) by {
            if a < spec_pairs_str(front).len() {
                assert(spec_pairs_str(entries)[a] == spec_pairs_str(front)[a]);
                let i = choose|i: int|
                    0 <= i < front.len() && spec_pairs_str(front)[a].0 == decode_utf8(
                        (#[trigger] front[i]).0,
                    );
                assert(entries[i] == front[i]);
            } else {
                assert(spec_pairs_str(entries)[a].0 == decode_utf8(entries[last].0));
            }
        }
    }
}

/// Each key that a collection of counters holds is the text of the key of one
/// of the entries.
pub proof fn lemma_pairs_i64_origin(entries: Seq<Pair>)
    ensures
        forall|a: int|
            0 <= a < spec_pairs_i64(entries).len() ==> exists|i: int|
                0 <= i < entries.len() && (#[trigger] spec_pairs_i64(entries)[a]).0 == decode_utf8(
                    (#[trigger] entries[i]).0,
                ),
    decreases entries.len(),
{
    if entries.len() > 0 {
        let front = entries.drop_last();
        lemma_pairs_i64_origin(front);
        let last = entries.len() - 1;
        assert forall|a: int| 0 <= a < spec_pairs_i64(entries).len() implies exists|i: int|
            0 <= i < entries.len() && (#[trigger] spec_pairs_i64(entries)[a]).0 == decode_utf8(
                (#[trigger] entries[i]).0,
            ) by {
            if a < spec_pairs_i64(front).len() {
                assert(spec_pairs_i64(entries)[a] == spec_pairs_i64(front)[a]);
                let i = choose|i: int|
                    0 <= i < front.len() && spec_pairs_i64(front)[a].0 == decode_utf8(
                        (#[trigger] front[i]).0,
                    );
                assert(entries[i] == front[i]);
            } else {
                assert(spec_pairs_i64(entries)[a].0 == decode_utf8(entries[last].0));
            }
        }
    }
}

/// Entries with different keys, all valid UTF-8, collect to strings under
/// different keys.
pub proof fn lemma_pairs_str_distinct(entries: Seq<Pair>)
    requires
        spec_distinct_keys(entries),
        forall|i: int| 0 <= i < entries.len() ==> valid_utf8((#[trigger] entries[i]).0),
    ensures
        spec_distinct_firsts(spec_pairs_str(entries)),
    decreases entries.len(),
{
    if entries.len() > 0 {
        let front = entries.drop_last();
        let last = entries.len() - 1;
        assert forall|i: int| 0 <= i < front.len() implies valid_utf8((#[trigger] front[i]).0) by {
            assert(front[i] == entries[i]);
        }
        assert(spec_distinct_keys(front)) by {
            assert forall|i: int, j: int| 0 <= i < j < front.len() implies (#[trigger] front[i]).0
                != (#[trigger] front[j]).0 by {
                assert(front[i] == entries[i] && front[j] == entries[j]);
            }
        }
        lemma_pairs_str_distinct(front);
        lemma_pairs_str_origin(front);
        let got = spec_pairs_str(entries);
        let before = spec_pairs_str(front);
        assert forall|a: int, b: int| 0 <= a < b < got.len() implies (#[trigger] got[a]).0 != (
        #[trigger] got[b]).0 by {
            if b < before.len() {
                assert(got[a] == before[a] && got[b] == before[b]);
            } else {
                assert(got[a] == before[a]);
                let i = choose|i: int|
                    0 <= i < front.len() && before[a].0 == decode_utf8((#[trigger] front[i]).0);
                assert(front[i] == entries[i]);
                assert(entries[i].0 != entries[last].0);
                decode_utf8_encode_utf8(entries[i].0);
                decode_utf8_encode_utf8(entries[last].0);
            }
        }
    }
}

/// Entries with different keys, all valid UTF-8, collect to counters under
/// different keys.
pub proof fn lemma_pairs_i64_distinct(entries: Seq<Pair>)
    requires
        spec_distinct_keys(entries),
        forall|i: int| 0 <= i < entries.len() ==> valid_utf8((#[trigger] entries[i]).0),
    ensures
        spec_distinct_firsts(spec_pairs_i64(entries)),
    decreases entries.len(),
{
    if entries.len() > 0 {
        let front = entries.drop_last();
        let last = entries.len() - 1;
        assert forall|i: int| 0 <= i < front.len() implies valid_utf8((#[trigger] front[i]).0) by {
            assert(front[i] == entries[i]);
        }
        assert(spec_distinct_keys(front)) by {
            assert forall|i: int, j: int| 0 <= i < j < front.len() implies (#[trigger] front[i]).0
                != (#[trigger] front[j]).0 by {
                assert(front[i] == entries[i] && front[j] == entries[j]);
            }
        }
        lemma_pairs_i64_distinct(front);
        lemma_pairs_i64_origin(front);
        let got = spec_pairs_i64(entries);
        let before = spec_pairs_i64(front);
        assert forall|a: int, b: int| 0 <= a < b < got.len() implies (#[trigger] got[a]).0 != (
        #[trigger] got[b]).0 by {
            if b < before.len() {
                assert(got[a] == before[a] && got[b] == before[b]);
            } else {
                assert(got[a] == before[a]);
                let i = choose|i: int|
                    0 <= i < front.len() && before[a].0 == decode_utf8((#[trigger] front[i]).0);
                assert(front[i] == entries[i]);
                assert(entries[i].0 != entries[last].0);
                decode_utf8_encode_utf8(entries[i].0);
                decode_utf8_encode_utf8(entries[last].0);
            }
        }
    }
}

/// No key occurs twice in a scan.
pub proof fn lemma_scan_keys_distinct(c: Contents, start: Seq<u8>, run: Seq<Pair>)
    requires
        spec_is_scan(c, start, run),
    ensures
        spec_distinct_keys(run),
{
}

/// Behind a common front two keys are in the order of what follows it.
pub proof fn lemma_order_behind_front(front: Seq<u8>, a: Seq<u8>, b: Seq<u8>)
    ensures
        spec_key_le(front + a, front + b) == spec_key_le(a, b),
    decreases front.len(),
{
    if front.len() == 0 {
        assert(front + a =~= a);
        assert(front + b =~= b);
    } else {
        assert((front + a).first() == (front + b).first());
        assert((front + a).drop_first() =~= front.drop_first() + a);
        assert((front + b).drop_first() =~= front.drop_first() + b);
        lemma_order_behind_front(front.drop_first(), a, b);
    }
}

/// No key occurs twice in what a scan finds, where none occurs twice in the
/// run, as in every scan: the pairs found can be put into a map and none
/// is lost.
pub proof fn lemma_search_keys_distinct(prefix: Seq<char>, run: Seq<Pair>)
    requires
        spec_distinct_keys(run),
    ensures
        spec_distinct_firsts(spec_prefix_search_str(prefix, run)),
        spec_distinct_firsts(spec_prefix_search(prefix, run)),
{
    let hits = spec_matching(prefix, run);
    lemma_matching_len(prefix, run);
    assert forall|i: int| 0 <= i < hits.len() implies valid_utf8((#[trigger] hits[i]).0) by {
        assert(hits[i] == run[i]);
    }
    assert(spec_distinct_keys(hits)) by {
        assert forall|i: int, j: int| 0 <= i < j < hits.len() implies (#[trigger] hits[i]).0 != (
        #[trigger] hits[j]).0 by {
            assert(hits[i] == run[i] && hits[j] == run[j]);
        }
    }
    lemma_pairs_str_distinct(hits);
    lemma_pairs_i64_distinct(hits);
}

/// Whether a scanned physical key belongs to `prefix`. A scan is over once
/// this is false.
pub fn in_prefix(prefix: &str, key: &[u8]) -> (r: bool)
    ensures
        r == spec_in_prefix(prefix@, key@),
{
    let p = prefix.as_bytes();
    if key.len() < p.len() {
        return false;
    }
    let mut i: usize = 0;
    while i < p.len()
        invariant
            i <= p.len() <= key.len(),
            p@ == encode_utf8(prefix@),
            forall|j: int| 0 <= j < i ==> p@[j] == key@[j],
        decreases p.len() - i,
    {
        if p[i] != key[i] {
            return false;
        }
        i = i + 1;
    }
    assert(p@ =~= key@.subrange(0, p@.len() as int));
    str_from_utf8(key).is_some()
}

/// How many entries at the front of `run` belong to `prefix`.
pub fn matching_len(prefix: &str, run: &Vec<Entry>) -> (r: usize)
    ensures
        r == spec_matching_len(prefix@, spec_entries(run@)),
{
    let ghost all = spec_entries(run@);
    let mut i: usize = 0;
    assert(all.skip(0) =~= all);
    while i < run.len()
        invariant
            i <= run.len(),
            all == spec_entries(run@),
            i + spec_matching_len(prefix@, all.skip(i as int)) == spec_matching_len(prefix@, all),
        decreases run.len() - i,
    {
        assert(all.skip(i as int).first() == all[i as int]);
        assert(all.skip(i as int).drop_first() =~= all.skip(i + 1));
        if !in_prefix(prefix, run[i].0.as_slice()) {
            return i;
        }
        i = i + 1;
    }
    assert(all.skip(i as int).len() == 0);
    i
}

/// The text of a scanned key that is valid UTF-8.
fn key_text(key: &[u8]) -> (r: String)
    requires
        valid_utf8(key@),
    ensures
        r@ == decode_utf8(key@),
{
    match str_from_utf8(key) {
        Some(s) => String::from_str(s),
        None => String::new(),
    }
}

/// Collects what a forward scan from `prefix` found. `run` holds the entries
/// that the scan handed out, in its order; entries from the first one that
/// does not belong to `prefix` on are ignored. Each remaining entry gives its
/// physical key and the string that its value stores; one whose value stores
/// no string is left out. Where no key occurs twice in `run`, none occurs
/// twice in the result.
pub fn prefix_search_str(prefix: &str, run: &Vec<Entry>) -> (r: Vec<(String, String)>)
    ensures
        spec_found_str(r@) == spec_prefix_search_str(prefix@, spec_entries(run@)),
        spec_distinct_keys(spec_entries(run@)) ==> spec_distinct_firsts(spec_found_str(r@)),
{
    let ghost all = spec_entries(run@);
    let m = matching_len(prefix, run);
    proof {
        lemma_matching_len(prefix@, all);
        if spec_distinct_keys(all) {
            lemma_search_keys_distinct(prefix@, all);
        }
    }
    let mut out: Vec<(String, String)> = Vec::new();
    let mut i: usize = 0;
    assert(spec_found_str(out@) =~= spec_pairs_str(all.take(0)));
    while i < m
        invariant
            i <= m <= run.len(),
            all == spec_entries(run@),
            m == spec_matching_len(prefix@, all),
            forall|j: int| 0 <= j < m ==> spec_in_prefix(prefix@, #[trigger] all[j].0),
            spec_found_str(out@) == spec_pairs_str(all.take(i as int)),
        decreases m - i,
    {
        assert(all.take(i + 1).drop_last() =~= all.take(i as int));
        assert(all.take(i + 1).last() == all[i as int]);
        assert(spec_in_prefix(prefix@, all[i as int].0));
        if let Ok(s) = decode_str(run[i].1.as_slice()) {
            let k = key_text(run[i].0.as_slice());
            let ghost before = out@;
            out.push((k, s));
            assert(spec_found_str(out@) =~= spec_found_str(before).push((k@, s@)));
        }
        i = i + 1;
    }
    out
}

/// Collects what a forward scan from `prefix` found, as `prefix_search_str`
/// does, with each value read as a signed counter; an entry whose value is
/// shorter than eight bytes is left out. Where no key occurs twice in `run`,
/// none occurs twice in the result.
pub fn prefix_search(prefix: &str, run: &Vec<Entry>) -> (r: Vec<(String, i64)>)
    ensures
        spec_found_i64(r@) == spec_prefix_search(prefix@, spec_entries(run@)),
        spec_distinct_keys(spec_entries(run@)) ==> spec_distinct_firsts(spec_found_i64(r@)),
{
    let ghost all = spec_entries(run@);
    let m = matching_len(prefix, run);
    proof {
        lemma_matching_len(prefix@, all);
        if spec_distinct_keys(all) {
            lemma_search_keys_distinct(prefix@, all);
        }
    }
    let mut out: Vec<(String, i64)> = Vec::new();
    let mut i: usize = 0;
    assert(spec_found_i64(out@) =~= spec_pairs_i64(all.take(0)));
    while i < m
        invariant
            i <= m <= run.len(),
            all == spec_entries(run@),
            m == spec_matching_len(prefix@, all),
            forall|j: int| 0 <= j < m ==> spec_in_prefix(prefix@, #[trigger] all[j].0),
            spec_found_i64(out@) == spec_pairs_i64(all.take(i as int)),
        decreases m - i,
    {
        assert(all.take(i + 1).drop_last() =~= all.take(i as int));
        assert(all.take(i + 1).last() == all[i as int]);
        assert(spec_in_prefix(prefix@, all[i as int].0));
        if let Some(n) = decode_i64(run[i].1.as_slice()) {
            let k = key_text(run[i].0.as_slice());
            let ghost before = out@;
            out.push((k, n));
            assert(spec_found_i64(out@) =~= spec_found_i64(before).push((k@, n)));
        }
        i = i + 1;
    }
    out
}

} // verus!
