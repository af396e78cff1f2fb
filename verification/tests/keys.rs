use redrock::keys::decimal;
use redrock::{data_key, l_idx_key, list_meta_key, meta_key, z_key, z_member_key};

#[test]
fn meta_key_joins_with_underscores() {
    assert_eq!(meta_key("l", "q"), "meta_l_q");
    assert_eq!(meta_key("", ""), "meta__");
}

#[test]
fn data_key_joins_with_underscores() {
    assert_eq!(data_key("z", "colours"), "data_z_colours");
    assert_eq!(data_key("l", "a_b"), "data_l_a_b");
}

#[test]
fn list_meta_key_uses_the_list_tag() {
    assert_eq!(list_meta_key("q"), "meta_l_q");
}

#[test]
fn list_index_key_ends_in_the_decimal_index() {
    assert_eq!(l_idx_key("q", 0), "data_l_q_0");
    assert_eq!(l_idx_key("q", 7), "data_l_q_7");
    assert_eq!(l_idx_key("q", 10), "data_l_q_10");
    assert_eq!(l_idx_key("q", 1234567890), "data_l_q_1234567890");
    assert_eq!(l_idx_key("q", u64::MAX), "data_l_q_18446744073709551615");
}

#[test]
fn decimal_has_no_leading_zeros() {
    assert_eq!(decimal(0), "0");
    assert_eq!(decimal(9), "9");
    assert_eq!(decimal(100), "100");
    assert_eq!(decimal(u64::MAX), "18446744073709551615");
}

#[test]
fn decimal_agrees_with_std_formatting() {
    let mut n: u64 = 1;
    for _ in 0..64 {
        assert_eq!(decimal(n), format!("{}", n));
        assert_eq!(decimal(n - 1), format!("{}", n - 1));
        n = n.wrapping_mul(2);
        if n == 0 {
            break;
        }
    }
}

#[test]
fn set_member_key_holds_the_member() {
    assert_eq!(z_member_key("a", "x"), "data_z_a:x");
    assert_eq!(z_member_key("a", ""), "data_z_a:");
}

#[test]
fn set_scan_prefix_ends_in_a_colon() {
    assert_eq!(z_key("a"), "data_z_a:");
    assert!(z_member_key("a", "x").starts_with(&z_key("a")));
}

#[test]
fn keys_are_not_escaped() {
    // Separators in a caller's key are taken as they are, so two different
    // logical keys can share a physical key.
    assert_eq!(l_idx_key("a_1", 2), l_idx_key("a", 12).replace("a_12", "a_1_2"));
    assert_eq!(z_member_key("a:b", "c"), z_member_key("a", "b:c"));
}

#[test]
fn non_ascii_keys_are_kept() {
    assert_eq!(meta_key("l", "héllo"), "meta_l_héllo");
    assert_eq!(z_member_key("k", "日本"), "data_z_k:日本");
}
