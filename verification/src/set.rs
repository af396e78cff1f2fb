//! Sets of strings.
//!
//! Each member is one entry whose physical key ends in the member's name, so
//! a forward scan from the set's prefix walks through the members in the
//! order of their names. A set has no metadata record: it exists as long as it
//! has a member.

use crate::codec::{
    decode_str, lemma_str_round_trip, spec_decode_str, spec_encode_str, spec_storable,
};
use crate::error::RedrockError;
use crate::keys::{
    lemma_z_member_key_injective, spec_z_key, spec_z_member_key, z_key, z_member_key,
};
use crate::scalar::set_str;
use crate::scan::{
    lemma_cut_run, lemma_matching_len, lemma_order_behind_front, lemma_scan_takes_prefix,
    matching_len, spec_entries, spec_matching, spec_matching_len,
};
use crate::store::{
    lemma_physical_injective, lemma_texts_push, spec_apply, spec_fetch, spec_is_scan, spec_key_le,
    spec_texts, BatchOp, Contents, Entry, Pair, Write,
};
use vstd::prelude::*;
use vstd::string::*;
use vstd::utf8::{encode_utf8, encode_utf8_valid_utf8, valid_utf8};

verus! {

/// The strings that the values of `entries` store, in order; an entry whose
/// value stores no string is left out.
pub open spec fn spec_values_str(entries: Seq<Pair>) -> Seq<Seq<char>>
    decreases entries.len(),
{
    if entries.len() == 0 {
        Seq::empty()
    } else {
        let front = spec_values_str(entries.drop_last());
        match spec_decode_str(entries.last().1) {
            Some(s) => front.push(s),
            None => front,
        }
    }
}

/// The members that a scan of set `key` finds in the entries `run`.
pub open spec fn spec_smembers(key: Seq<char>, run: Seq<Pair>) -> Seq<Seq<char>> {
    spec_values_str(spec_matching(spec_z_key(key), run))
}

/// The write that adds `member` to set `key`: the member's entry, with the
/// member's name as its value.
pub fn sadd(key: &str, member: &str) -> (r: Result<BatchOp, RedrockError>)
    ensures
        r is Ok,
        r matches Ok(op) ==> op@ == (Write::Put {
            key: spec_z_member_key(key@, member@),
            value: spec_encode_str(member@),
        }),
{
    let k = z_member_key(key, member);
    set_str(k.as_str(), member)
}

/// The write that removes `member` from set `key`: a delete of the member's
/// entry, which does nothing where the member is absent.
pub fn srem(key: &str, member: &str) -> (r: BatchOp)
    ensures
        r@ == (Write::Delete { key: spec_z_member_key(key@, member@) }),
{
    BatchOp::Delete { key: z_member_key(key, member) }
}

/// The members of set `key`. `run` holds the entries that a forward scan from
/// the set's prefix handed out, in its order; entries from the first one that
/// does not belong to the prefix on are ignored. An entry whose value stores
/// no string is left out.
pub fn smembers(key: &str, run: &Vec<Entry>) -> (r: Vec<String>)
    ensures
        spec_texts(r@) == spec_smembers(key@, spec_entries(run@)),
{
    let zk = z_key(key);
    let ghost all = spec_entries(run@);
    let m = matching_len(zk.as_str(), run);
    proof {
        lemma_matching_len(zk@, all);
    }
    let mut out: Vec<String> = Vec::new();
    let mut i: usize = 0;
    assert(spec_texts(out@) =~= spec_values_str(all.take(0)));
    while i < m
        invariant
            i <= m <= run.len(),
            all == spec_entries(run@),
            spec_texts(out@) == spec_values_str(all.take(i as int)),
        decreases m - i,
    {
        assert(all.take(i + 1).drop_last() =~= all.take(i as int));
        assert(all.take(i + 1).last() == all[i as int]);
        if let Ok(s) = decode_str(run[i].1.as_slice()) {
            proof {
                lemma_texts_push(out@, s);
            }
            out.push(s);
        }
        i = i + 1;
    }
    out
}

/// The store after `member` was added to set `key`.
pub open spec fn spec_added(c: Contents, key: Seq<char>, member: Seq<char>) -> Contents {
    spec_apply(
        c,
        Write::Put { key: spec_z_member_key(key, member), value: spec_encode_str(member) },
    )
}

/// The store after `member` was removed from set `key`.
pub open spec fn spec_removed(c: Contents, key: Seq<char>, member: Seq<char>) -> Contents {
    spec_apply(c, Write::Delete { key: spec_z_member_key(key, member) })
}

/// Set `key` holds exactly `members` in a store: each member has its entry,
/// whose value stores its name, and no other physical key starts with the
/// set's prefix.
pub open spec fn spec_set_holds(c: Contents, key: Seq<char>, members: Set<Seq<char>>) -> bool {
    &&& forall|m: Seq<char>| #[trigger]
        members.contains(m) ==> (spec_fetch(c, spec_z_member_key(key, m)) matches Some(bytes)
            && spec_decode_str(bytes) == Some(m))
    &&& forall|k: Seq<u8>|
        #[trigger] c.contains_key(k) && encode_utf8(spec_z_key(key)).is_prefix_of(k)
            ==> exists|m: Seq<char>| #[trigger]
            members.contains(m) && k == encode_utf8(spec_z_member_key(key, m))
}

/// The bytes of a string that is made of two parts are the bytes of the
/// parts.
pub proof fn lemma_encode_concat(a: Seq<char>, b: Seq<char>)
    ensures
        encode_utf8(a + b) == encode_utf8(a) + encode_utf8(b),
    decreases a.len(),
{
    if a.len() == 0 {
        assert(a + b =~= b);
        assert(encode_utf8(a) + encode_utf8(b) =~= encode_utf8(b));
    } else {
        lemma_encode_concat(a.drop_first(), b);
        assert((a + b).drop_first() =~= a.drop_first() + b);
        assert((a + b)[0] == a[0]);
        assert(encode_utf8(a + b) =~= encode_utf8(a) + encode_utf8(b));
    }
}

/// The physical key of a member starts with the prefix of its set.
pub proof fn lemma_member_key_has_prefix(key: Seq<char>, member: Seq<char>)
    ensures
        encode_utf8(spec_z_key(key)).is_prefix_of(encode_utf8(spec_z_member_key(key, member))),
{
    assert(spec_z_member_key(key, member) =~= spec_z_key(key) + member);
    lemma_encode_concat(spec_z_key(key), member);
}

/// A set without entries holds no members.
pub proof fn lemma_empty_set(c: Contents, key: Seq<char>)
    requires
        forall|k: Seq<u8>| #[trigger]
            c.contains_key(k) ==> !encode_utf8(spec_z_key(key)).is_prefix_of(k),
    ensures
        spec_set_holds(c, key, Set::empty()),
{
}

/// Adding a member to a set that holds `members` leaves a set that holds
/// `members` and that member.
pub proof fn lemma_add_member(
    c: Contents,
    key: Seq<char>,
    members: Set<Seq<char>>,
    member: Seq<char>,
)
    requires
        spec_set_holds(c, key, members),
        spec_storable(member),
    ensures
        spec_set_holds(spec_added(c, key, member), key, members.insert(member)),
{
    let after = spec_added(c, key, member);
    let grown = members.insert(member);
    let mine = encode_utf8(spec_z_member_key(key, member));
    lemma_str_round_trip(member);
    assert forall|m: Seq<char>| #[trigger] grown.contains(m) implies (spec_fetch(
        after,
        spec_z_member_key(key, m),
    ) matches Some(bytes) && spec_decode_str(bytes) == Some(m)) by {
        if m != member {
            assert(members.contains(m));
            if encode_utf8(spec_z_member_key(key, m)) == mine {
                lemma_physical_injective(spec_z_member_key(key, m), spec_z_member_key(key, member));
                lemma_z_member_key_injective(key, m, member);
            }
        }
    }
    assert forall|k: Seq<u8>|
        #[trigger] after.contains_key(k) && encode_utf8(spec_z_key(key)).is_prefix_of(
            k,
        ) implies exists|m: Seq<char>| #[trigger]
        grown.contains(m) && k == encode_utf8(spec_z_member_key(key, m)) by {
        if k == mine {
            assert(grown.contains(member));
        } else {
            assert(c.contains_key(k));
            let m = choose|m: Seq<char>| #[trigger]
                members.contains(m) && k == encode_utf8(spec_z_member_key(key, m));
            assert(grown.contains(m));
        }
    }
}

/// Removing a member from a set that holds `members` leaves a set that holds
/// `members` without that member.
pub proof fn lemma_remove_member(
    c: Contents,
    key: Seq<char>,
    members: Set<Seq<char>>,
    member: Seq<char>,
)
    requires
        spec_set_holds(c, key, members),
    ensures
        spec_set_holds(spec_removed(c, key, member), key, members.remove(member)),
{
    let after = spec_removed(c, key, member);
    let fewer = members.remove(member);
    let mine = encode_utf8(spec_z_member_key(key, member));
    assert forall|m: Seq<char>| #[trigger] fewer.contains(m) implies (spec_fetch(
        after,
        spec_z_member_key(key, m),
    ) matches Some(bytes) && spec_decode_str(bytes) == Some(m)) by {
        assert(members.contains(m));
        if encode_utf8(spec_z_member_key(key, m)) == mine {
            lemma_physical_injective(spec_z_member_key(key, m), spec_z_member_key(key, member));
            lemma_z_member_key_injective(key, m, member);
        }
    }
    assert forall|k: Seq<u8>|
        #[trigger] after.contains_key(k) && encode_utf8(spec_z_key(key)).is_prefix_of(
            k,
        ) implies exists|m: Seq<char>| #[trigger]
        fewer.contains(m) && k == encode_utf8(spec_z_member_key(key, m)) by {
        assert(c.contains_key(k));
        let m = choose|m: Seq<char>| #[trigger]
            members.contains(m) && k == encode_utf8(spec_z_member_key(key, m));
        assert(fewer.contains(m));
    }
}

/// Entries whose values all store a string give those strings.
pub proof fn lemma_values_all(entries: Seq<Pair>, items: Seq<Seq<char>>)
    requires
        entries.len() == items.len(),
        forall|i: int|
            0 <= i < entries.len() ==> spec_decode_str((#[trigger] entries[i]).1) == Some(items[i]),
    ensures
        spec_values_str(entries) == items,
    decreases entries.len(),
{
    if entries.len() > 0 {
        lemma_values_all(entries.drop_last(), items.drop_last());
        assert(entries.last() == entries[entries.len() - 1]);
        assert(items.drop_last().push(items.last()) =~= items);
    } else {
        assert(items =~= Seq::empty());
    }
}

/// Whether `names` are in the order of their bytes, which is the order of
/// the physical keys of the members of one set.
pub open spec fn spec_in_key_order(names: Seq<Seq<char>>) -> bool {
    forall|a: int, b: int|
        0 <= a < b < names.len() ==> spec_key_le(
            encode_utf8(#[trigger] names[a]),
            encode_utf8(#[trigger] names[b]),
        )
}

/// A run that was cut off anywhere behind the entries of the set gives the
/// members that the whole run gives: the walk may end at the first key that
/// does not belong to the set.
pub proof fn lemma_cut_run_members(key: Seq<char>, run: Seq<Pair>, cut: int)
    requires
        spec_matching_len(spec_z_key(key), run) <= cut <= run.len(),
    ensures
        spec_smembers(key, run.take(cut)) == spec_smembers(key, run),
{
    lemma_cut_run(spec_z_key(key), run, cut);
}

/// A scan of a set that holds `members` gives exactly `members`, each once,
/// in the order of their physical keys, which is the order of their names.
pub proof fn lemma_scan_gives_members(
    c: Contents,
    key: Seq<char>,
    members: Set<Seq<char>>,
    run: Seq<Pair>,
)
    requires
        spec_set_holds(c, key, members),
        spec_is_scan(c, encode_utf8(spec_z_key(key)), run),
    ensures
        spec_smembers(key, run).to_set() == members,
        spec_smembers(key, run).no_duplicates(),
        forall|a: int, b: int|
            0 <= a < b < spec_smembers(key, run).len() ==> spec_key_le(
                encode_utf8(spec_z_member_key(key, #[trigger] spec_smembers(key, run)[a])),
                encode_utf8(spec_z_member_key(key, #[trigger] spec_smembers(key, run)[b])),
            ),
        spec_in_key_order(spec_smembers(key, run)),
{
    let prefix = spec_z_key(key);
    let p = encode_utf8(prefix);
    let m = spec_matching_len(prefix, run) as int;
    let hits = spec_matching(prefix, run);
    assert forall|k: Seq<u8>| #[trigger] c.contains_key(k) && p.is_prefix_of(k) implies valid_utf8(
        k,
    ) by {
        let mem = choose|mem: Seq<char>| #[trigger]
            members.contains(mem) && k == encode_utf8(spec_z_member_key(key, mem));
        encode_utf8_valid_utf8(spec_z_member_key(key, mem));
    }
    lemma_scan_takes_prefix(c, prefix, run);
    let names = Seq::new(
        m as nat,
        |i: int|
            choose|mem: Seq<char>| #[trigger]
                members.contains(mem) && run[i].0 == encode_utf8(spec_z_member_key(key, mem)),
    );
    assert forall|i: int| 0 <= i < m implies members.contains(#[trigger] names[i]) && run[i].0
        == encode_utf8(spec_z_member_key(key, names[i])) && spec_decode_str(hits[i].1) == Some(
        names[i],
    ) by {
        assert(p.is_prefix_of(run[i].0));
        assert(c.contains_key(run[i].0));
        let mem = choose|mem: Seq<char>| #[trigger]
            members.contains(mem) && run[i].0 == encode_utf8(spec_z_member_key(key, mem));
        assert(names[i] == mem);
        assert(spec_fetch(c, spec_z_member_key(key, mem)) == Some(run[i].1));
    }
    lemma_values_all(hits, names);
    let got = spec_smembers(key, run);
    assert(got == names);
    assert forall|i: int, j: int| 0 <= i < m && 0 <= j < m && i != j implies names[i]
        != names[j] by {
        if i < j {
            assert(run[i].0 != run[j].0);
        } else {
            assert(run[j].0 != run[i].0);
        }
    }
    assert forall|mem: Seq<char>| members.contains(mem) implies #[trigger] got.to_set().contains(
        mem,
    ) by {
        let k = encode_utf8(spec_z_member_key(key, mem));
        lemma_member_key_has_prefix(key, mem);
        assert(c.contains_key(k));
        let i = choose|i: int| 0 <= i < m && (#[trigger] run[i]).0 == k;
        lemma_physical_injective(
            spec_z_member_key(key, mem),
            spec_z_member_key(key, names[i]),
        );
        lemma_z_member_key_injective(key, mem, names[i]);
        assert(got[i] == mem);
    }
    assert forall|mem: Seq<char>| #[trigger] got.to_set().contains(mem) implies members.contains(
        mem,
    ) by {
        let i = choose|i: int| 0 <= i < got.len() && got[i] == mem;
        assert(members.contains(names[i]));
    }
    assert(got.to_set() =~= members);
    assert forall|a: int, b: int| 0 <= a < b < got.len() implies spec_key_le(
        encode_utf8(spec_z_member_key(key, #[trigger] got[a])),
        encode_utf8(spec_z_member_key(key, #[trigger] got[b])),
    ) && spec_key_le(encode_utf8(got[a]), encode_utf8(got[b])) by {
        assert(spec_key_le(run[a].0, run[b].0));
        assert(names[a] == got[a] && names[b] == got[b]);
        assert(spec_z_member_key(key, got[a]) =~= prefix + got[a]);
        assert(spec_z_member_key(key, got[b]) =~= prefix + got[b]);
        lemma_encode_concat(prefix, got[a]);
        lemma_encode_concat(prefix, got[b]);
        lemma_order_behind_front(p, encode_utf8(got[a]), encode_utf8(got[b]));
    }
}

/// Two different members that were added to an empty set, in either order,
/// are exactly what a scan of the set gives; after one of them was removed,
/// a scan gives the other alone.
pub proof fn lemma_two_members(
    c: Contents,
    key: Seq<char>,
    m1: Seq<char>,
    m2: Seq<char>,
    run_both: Seq<Pair>,
    run_one: Seq<Pair>,
)
    requires
        forall|k: Seq<u8>| #[trigger]
            c.contains_key(k) ==> !encode_utf8(spec_z_key(key)).is_prefix_of(k),
        m1 != m2,
        spec_storable(m1),
        spec_storable(m2),
        spec_is_scan(
            spec_added(spec_added(c, key, m1), key, m2),
            encode_utf8(spec_z_key(key)),
            run_both,
        ),
        spec_is_scan(
            spec_removed(spec_added(spec_added(c, key, m1), key, m2), key, m1),
            encode_utf8(spec_z_key(key)),
            run_one,
        ),
    ensures
        spec_smembers(key, run_both).to_set() == set![m1, m2],
        spec_smembers(key, run_both).len() == 2,
        spec_smembers(key, run_one) == seq![m2],
{
    let none = Set::<Seq<char>>::empty();
    lemma_empty_set(c, key);
    lemma_add_member(c, key, none, m1);
    let c1 = spec_added(c, key, m1);
    lemma_add_member(c1, key, none.insert(m1), m2);
    let c2 = spec_added(c1, key, m2);
    let both = none.insert(m1).insert(m2);
    assert(both =~= set![m1, m2]);
    lemma_scan_gives_members(c2, key, both, run_both);
    spec_smembers(key, run_both).unique_seq_to_set();
    assert(set![m1, m2].len() == 2) by {
        assert(set![m1, m2] =~= Set::empty().insert(m1).insert(m2));
    }
    lemma_remove_member(c2, key, both, m1);
    let one = both.remove(m1);
    assert(one =~= set![m2]);
    lemma_scan_gives_members(spec_removed(c2, key, m1), key, one, run_one);
    let got = spec_smembers(key, run_one);
    got.unique_seq_to_set();
    assert(set![m2].len() == 1) by {
        assert(set![m2] =~= Set::empty().insert(m2));
    }
    assert(got.to_set().contains(got[0]));
    assert(got =~= seq![m2]);
}

} // verus!
