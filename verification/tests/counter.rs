use redrock::{
    del, get_i64, get_str, get_u64, inc_i64, inc_u64, set_i64, set_str, set_u64, BatchOp, Fetched,
    RedrockError,
};
use std::collections::BTreeMap;

fn perform(store: &mut BTreeMap<Vec<u8>, Vec<u8>>, op: BatchOp) {
    match op {
        BatchOp::Put { key, value } => {
            store.insert(key.into_bytes(), value);
        }
        BatchOp::Delete { key } => {
            store.remove(key.as_bytes());
        }
    }
}

fn fetch(store: &BTreeMap<Vec<u8>, Vec<u8>>, key: &str) -> Fetched {
    Ok(store.get(key.as_bytes()).cloned())
}

#[test]
fn increments_count_from_absent() {
    let mut store = BTreeMap::new();
    assert_eq!(get_u64(&fetch(&store, "hits")), None);
    for n in 1..=300u64 {
        let op = inc_u64("hits", &fetch(&store, "hits")).unwrap();
        perform(&mut store, op);
        assert_eq!(get_u64(&fetch(&store, "hits")), Some(n));
    }
}

#[test]
fn signed_increments_count_from_absent() {
    let mut store = BTreeMap::new();
    for n in 1..=300i64 {
        let op = inc_i64("hits", &fetch(&store, "hits")).unwrap();
        perform(&mut store, op);
        assert_eq!(get_i64(&fetch(&store, "hits")), Some(n));
    }
}

#[test]
fn signed_increment_crosses_zero() {
    let mut store = BTreeMap::new();
    perform(&mut store, set_i64("t", -2));
    for expected in [-1i64, 0, 1] {
        let op = inc_i64("t", &fetch(&store, "t")).unwrap();
        perform(&mut store, op);
        assert_eq!(get_i64(&fetch(&store, "t")), Some(expected));
    }
}

#[test]
fn first_increment_writes_one() {
    assert_eq!(
        inc_u64("c", &Ok(None)),
        Ok(BatchOp::Put { key: "c".to_string(), value: vec![0, 0, 0, 0, 0, 0, 0, 1] })
    );
    assert_eq!(
        inc_i64("c", &Ok(None)),
        Ok(BatchOp::Put { key: "c".to_string(), value: vec![0, 0, 0, 0, 0, 0, 0, 1] })
    );
}

#[test]
fn increment_of_malformed_counter_starts_again() {
    let found: Fetched = Ok(Some(vec![9, 9, 9]));
    assert_eq!(inc_u64("c", &found), Ok(set_u64("c", 1)));
    assert_eq!(inc_i64("c", &found), Ok(set_i64("c", 1)));
}

#[test]
fn increment_after_a_failed_read_fails() {
    let failed: Fetched = Err(RedrockError::new("io".to_string()));
    assert_eq!(inc_u64("c", &failed), Err(RedrockError::new("io".to_string())));
    assert_eq!(inc_i64("c", &failed), Err(RedrockError::new("io".to_string())));
}

#[test]
fn increment_carries() {
    let found: Fetched = Ok(Some(vec![0, 0, 0, 0, 0, 0, 0, 0xff]));
    assert_eq!(
        inc_u64("c", &found),
        Ok(BatchOp::Put { key: "c".to_string(), value: vec![0, 0, 0, 0, 0, 0, 1, 0] })
    );
    let below_max: Fetched = Ok(Some((u64::MAX - 1).to_be_bytes().to_vec()));
    assert_eq!(inc_u64("c", &below_max), Ok(set_u64("c", u64::MAX)));
    let minus_one: Fetched = Ok(Some(vec![0xff; 8]));
    assert_eq!(inc_i64("c", &minus_one), Ok(set_i64("c", 0)));
}

#[test]
fn set_writes_big_endian_bytes_under_the_key_itself() {
    assert_eq!(
        set_u64("visits", 258),
        BatchOp::Put { key: "visits".to_string(), value: vec![0, 0, 0, 0, 0, 0, 1, 2] }
    );
    assert_eq!(
        set_i64("delta", -258),
        BatchOp::Put {
            key: "delta".to_string(),
            value: vec![0xff, 0xff, 0xff, 0xff, 0xff, 0xff, 0xfe, 0xfe]
        }
    );
}

#[test]
fn get_of_missing_or_malformed_counter_is_absent() {
    assert_eq!(get_u64(&Ok(None)), None);
    assert_eq!(get_u64(&Ok(Some(vec![]))), None);
    assert_eq!(get_u64(&Ok(Some(vec![1, 2, 3, 4, 5, 6, 7]))), None);
    assert_eq!(get_u64(&Err(RedrockError::new("io".to_string()))), None);
    assert_eq!(get_i64(&Ok(None)), None);
    assert_eq!(get_i64(&Ok(Some(vec![0xff; 7]))), None);
    assert_eq!(get_i64(&Err(RedrockError::new("io".to_string()))), None);
}

#[test]
fn get_reads_what_set_wrote() {
    let mut store = BTreeMap::new();
    perform(&mut store, set_u64("a", u64::MAX));
    perform(&mut store, set_i64("b", i64::MIN));
    assert_eq!(get_u64(&fetch(&store, "a")), Some(u64::MAX));
    assert_eq!(get_i64(&fetch(&store, "b")), Some(i64::MIN));
    assert_eq!(get_i64(&fetch(&store, "a")), Some(-1));
    perform(&mut store, set_u64("a", 3));
    assert_eq!(get_u64(&fetch(&store, "a")), Some(3));
}

#[test]
fn string_set_then_get() {
    let mut store = BTreeMap::new();
    perform(&mut store, set_str("name", "redrock").unwrap());
    assert_eq!(get_str(&fetch(&store, "name")), Some("redrock".to_string()));
    perform(&mut store, set_str("name", "other").unwrap());
    assert_eq!(get_str(&fetch(&store, "name")), Some("other".to_string()));
}

#[test]
fn string_set_writes_under_the_key_itself() {
    assert_eq!(
        set_str("k", "ab").unwrap(),
        BatchOp::Put { key: "k".to_string(), value: vec![2, 0, 0, 0, 0, 0, 0, 0, b'a', b'b'] }
    );
}

#[test]
fn string_get_of_missing_or_malformed_value_is_absent() {
    assert_eq!(get_str(&Ok(None)), None);
    assert_eq!(get_str(&Ok(Some(vec![1, 2]))), None);
    assert_eq!(get_str(&Ok(Some(vec![1, 0, 0, 0, 0, 0, 0, 0, 0x80]))), None);
    assert_eq!(get_str(&Err(RedrockError::new("io".to_string()))), None);
}

#[test]
fn a_counter_is_no_string() {
    let mut store = BTreeMap::new();
    perform(&mut store, set_u64("n", 1));
    assert_eq!(get_str(&fetch(&store, "n")), None);
}

#[test]
fn delete_removes_the_key() {
    let mut store = BTreeMap::new();
    perform(&mut store, set_u64("n", 1));
    assert_eq!(del("n"), BatchOp::Delete { key: "n".to_string() });
    perform(&mut store, del("n"));
    assert_eq!(get_u64(&fetch(&store, "n")), None);
    perform(&mut store, del("n"));
    assert!(store.is_empty());
}
