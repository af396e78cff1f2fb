use redrock::codec::{encode_i64, encode_str};
use redrock::{
    in_prefix, matching_len, prefix_search, prefix_search_str, sadd, smembers, srem, z_key,
    BatchOp, Entry,
};
use std::collections::{BTreeMap, HashMap};

fn perform(store: &mut BTreeMap<Vec<u8>, Vec<u8>>, op: BatchOp) {
    match op {
        BatchOp::Put { key, value } => {
            store.insert(key.into_bytes(), value);
        }
        BatchOp::Delete { key } => {
            store.remove(key.as_bytes());
        }
    }
}

// What a forward scan from `start` hands out when it is walked to its end.
fn scan(store: &BTreeMap<Vec<u8>, Vec<u8>>, start: &str) -> Vec<Entry> {
    store.range(start.as_bytes().to_vec()..).map(|(k, v)| (k.clone(), v.clone())).collect()
}

fn add(store: &mut BTreeMap<Vec<u8>, Vec<u8>>, key: &str, member: &str) {
    perform(store, sadd(key, member).unwrap());
}

fn remove(store: &mut BTreeMap<Vec<u8>, Vec<u8>>, key: &str, member: &str) {
    perform(store, srem(key, member));
}

fn members(store: &BTreeMap<Vec<u8>, Vec<u8>>, key: &str) -> Vec<String> {
    smembers(key, &scan(store, &z_key(key)))
}

fn entry(key: &str, value: Vec<u8>) -> Entry {
    (key.as_bytes().to_vec(), value)
}

#[test]
fn two_members_in_either_order() {
    let mut first = BTreeMap::new();
    add(&mut first, "k", "pear");
    add(&mut first, "k", "apple");
    let mut second = BTreeMap::new();
    add(&mut second, "k", "apple");
    add(&mut second, "k", "pear");
    assert_eq!(members(&first, "k"), vec!["apple", "pear"]);
    assert_eq!(members(&second, "k"), vec!["apple", "pear"]);
    remove(&mut first, "k", "pear");
    assert_eq!(members(&first, "k"), vec!["apple"]);
}

#[test]
fn member_added_twice_is_there_once() {
    let mut store = BTreeMap::new();
    add(&mut store, "k", "m");
    add(&mut store, "k", "m");
    assert_eq!(members(&store, "k"), vec!["m"]);
}

#[test]
fn removing_an_absent_member_changes_nothing() {
    let mut store = BTreeMap::new();
    add(&mut store, "k", "m");
    remove(&mut store, "k", "other");
    assert_eq!(members(&store, "k"), vec!["m"]);
}

#[test]
fn set_disappears_with_its_last_member() {
    let mut store = BTreeMap::new();
    add(&mut store, "k", "m");
    remove(&mut store, "k", "m");
    assert_eq!(members(&store, "k"), Vec::<String>::new());
    assert!(store.is_empty());
}

#[test]
fn unknown_set_has_no_members() {
    let store = BTreeMap::new();
    assert_eq!(members(&store, "k"), Vec::<String>::new());
    assert_eq!(smembers("k", &vec![]), Vec::<String>::new());
}

#[test]
fn add_and_remove_name_the_member_key() {
    assert_eq!(
        sadd("a", "x").unwrap(),
        BatchOp::Put { key: "data_z_a:x".to_string(), value: encode_str("x").unwrap() }
    );
    assert_eq!(srem("a", "x"), BatchOp::Delete { key: "data_z_a:x".to_string() });
}

#[test]
fn scan_stops_at_the_prefix_boundary() {
    let mut store = BTreeMap::new();
    add(&mut store, "a", "x");
    add(&mut store, "a", "y");
    add(&mut store, "b", "z");
    assert_eq!(members(&store, "a"), vec!["x", "y"]);
    assert_eq!(members(&store, "b"), vec!["z"]);
    let found = prefix_search_str("data_z_a:", &scan(&store, "data_z_a:"));
    assert_eq!(
        found,
        vec![
            ("data_z_a:x".to_string(), "x".to_string()),
            ("data_z_a:y".to_string(), "y".to_string()),
        ]
    );
}

#[test]
fn sets_among_other_keys() {
    let mut store = BTreeMap::new();
    store.insert(b"data_z_a".to_vec(), encode_str("below").unwrap());
    store.insert(b"data_z_a;".to_vec(), encode_str("above").unwrap());
    store.insert(b"meta_l_a".to_vec(), vec![0; 8]);
    add(&mut store, "a", "m1");
    add(&mut store, "a", "m2");
    add(&mut store, "a", "");
    assert_eq!(members(&store, "a"), vec!["", "m1", "m2"]);
}

#[test]
fn members_skip_values_that_store_no_string() {
    let run = vec![
        entry("data_z_a:x", encode_str("x").unwrap()),
        entry("data_z_a:y", vec![1, 2, 3]),
        entry("data_z_a:z", encode_str("z").unwrap()),
    ];
    assert_eq!(smembers("a", &run), vec!["x", "z"]);
}

#[test]
fn members_come_from_the_values() {
    let run = vec![entry("data_z_a:x", encode_str("something else").unwrap())];
    assert_eq!(smembers("a", &run), vec!["something else"]);
}

#[test]
fn what_follows_the_first_foreign_key_is_ignored() {
    let run = vec![
        entry("data_z_a:x", encode_str("x").unwrap()),
        entry("data_z_b:q", encode_str("q").unwrap()),
        entry("data_z_a:y", encode_str("y").unwrap()),
    ];
    assert_eq!(smembers("a", &run), vec!["x"]);
    assert_eq!(matching_len("data_z_a:", &run), 1);
    assert_eq!(prefix_search_str("data_z_a:", &run).len(), 1);
}

#[test]
fn a_key_that_is_not_utf8_ends_the_scan() {
    let mut broken = b"data_z_a:".to_vec();
    broken.push(0xff);
    let run = vec![
        entry("data_z_a:x", encode_str("x").unwrap()),
        (broken, encode_str("hidden").unwrap()),
        entry("data_z_a:y", encode_str("y").unwrap()),
    ];
    assert_eq!(smembers("a", &run), vec!["x"]);
    assert_eq!(matching_len("data_z_a:", &run), 1);
}

#[test]
fn prefix_test_is_on_bytes() {
    assert!(in_prefix("data_z_a:", b"data_z_a:"));
    assert!(in_prefix("data_z_a:", b"data_z_a:x"));
    assert!(in_prefix("", b"anything"));
    assert!(in_prefix("", b""));
    assert!(!in_prefix("data_z_a:", b"data_z_a"));
    assert!(!in_prefix("data_z_a:", b"data_z_b:x"));
    assert!(!in_prefix("data_z_a:", b""));
    assert!(!in_prefix("a", &[b'a', 0xc3]));
    assert!(in_prefix("é", "été".as_bytes()));
    assert!(!in_prefix("é", &[0xc3]));
}

#[test]
fn counters_by_prefix() {
    let mut store = BTreeMap::new();
    store.insert(b"hits:a".to_vec(), encode_i64(3));
    store.insert(b"hits:b".to_vec(), encode_i64(-4));
    store.insert(b"hits:c".to_vec(), vec![1, 2]);
    store.insert(b"hits:d".to_vec(), encode_i64(i64::MAX));
    store.insert(b"hitz".to_vec(), encode_i64(9));
    store.insert(b"hit".to_vec(), encode_i64(1));
    let found = prefix_search("hits:", &scan(&store, "hits:"));
    assert_eq!(
        found,
        vec![
            ("hits:a".to_string(), 3),
            ("hits:b".to_string(), -4),
            ("hits:d".to_string(), i64::MAX),
        ]
    );
}

#[test]
fn strings_by_prefix() {
    let mut store = BTreeMap::new();
    store.insert(b"name:1".to_vec(), encode_str("one").unwrap());
    store.insert(b"name:2".to_vec(), vec![0xff]);
    store.insert(b"name:3".to_vec(), encode_str("three").unwrap());
    store.insert(b"other".to_vec(), encode_str("no").unwrap());
    let found = prefix_search_str("name:", &scan(&store, "name:"));
    assert_eq!(
        found,
        vec![
            ("name:1".to_string(), "one".to_string()),
            ("name:3".to_string(), "three".to_string()),
        ]
    );
}

#[test]
fn scan_of_nothing_finds_nothing() {
    assert_eq!(prefix_search("p", &vec![]), Vec::<(String, i64)>::new());
    assert_eq!(prefix_search_str("p", &vec![]), Vec::<(String, String)>::new());
    assert_eq!(matching_len("p", &vec![]), 0);
    let run = vec![entry("q", encode_i64(1))];
    assert_eq!(prefix_search("p", &run), Vec::<(String, i64)>::new());
}

#[test]
fn many_members_come_out_in_key_order() {
    let mut store = BTreeMap::new();
    let names = ["delta", "alpha", "charlie", "bravo", "echo", "al", "alphabet"];
    for n in names {
        add(&mut store, "s", n);
    }
    add(&mut store, "t", "zulu");
    let mut sorted: Vec<String> = names.iter().map(|s| s.to_string()).collect();
    sorted.sort();
    assert_eq!(members(&store, "s"), sorted);
}

#[test]
fn run_cut_off_at_the_first_foreign_key_gives_the_same() {
    let mut store = BTreeMap::new();
    add(&mut store, "a", "x");
    add(&mut store, "a", "y");
    add(&mut store, "b", "z");
    store.insert(b"zz".to_vec(), encode_i64(1));
    let whole = scan(&store, "data_z_a:");
    assert_eq!(whole.len(), 4);
    let front = matching_len("data_z_a:", &whole);
    assert_eq!(front, 2);
    for cut in front..=whole.len() {
        let short: Vec<Entry> = whole[..cut].to_vec();
        assert_eq!(smembers("a", &short), smembers("a", &whole));
        assert_eq!(
            prefix_search_str("data_z_a:", &short),
            prefix_search_str("data_z_a:", &whole)
        );
        assert_eq!(prefix_search("data_z_a:", &short), prefix_search("data_z_a:", &whole));
    }
}

#[test]
fn found_keys_are_all_different() {
    let mut store = BTreeMap::new();
    for i in 0..40i64 {
        store.insert(format!("n:{}", i).into_bytes(), encode_i64(i * i));
        store.insert(format!("s:{}", i).into_bytes(), encode_str(&format!("v{}", i)).unwrap());
    }
    let counters = prefix_search("n:", &scan(&store, "n:"));
    assert_eq!(counters.len(), 40);
    let as_map: HashMap<String, i64> = counters.into_iter().collect();
    assert_eq!(as_map.len(), 40);
    assert_eq!(as_map["n:7"], 49);
    let strings = prefix_search_str("s:", &scan(&store, "s:"));
    assert_eq!(strings.len(), 40);
    let as_map: HashMap<String, String> = strings.into_iter().collect();
    assert_eq!(as_map.len(), 40);
    assert_eq!(as_map["s:12"], "v12");
}

#[test]
fn members_are_in_the_order_of_their_bytes() {
    let mut store = BTreeMap::new();
    for n in ["b", "a", "ab", "", "B", "é", "z", "a\u{0}"] {
        add(&mut store, "s", n);
    }
    let got = members(&store, "s");
    assert_eq!(got, vec!["", "B", "a", "a\u{0}", "ab", "b", "z", "é"]);
    for pair in got.windows(2) {
        assert!(pair[0].as_bytes() < pair[1].as_bytes());
    }
}
