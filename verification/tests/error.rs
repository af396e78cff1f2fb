use redrock::RedrockError;

#[test]
fn error_carries_its_message() {
    let e = RedrockError::new("store is gone".to_string());
    assert_eq!(e.message(), "store is gone");
    assert_eq!(e.to_string(), "store is gone");
    assert_eq!(e.clone().into_string(), "store is gone");
    let s: String = e.into();
    assert_eq!(s, "store is gone");
}

#[test]
fn errors_compare_by_message() {
    let a = RedrockError::new("a".to_string());
    assert_eq!(a, RedrockError::new("a".to_string()));
    assert_ne!(a, RedrockError::new("b".to_string()));
    assert_eq!(String::from(a), "a");
}

#[test]
fn empty_message_is_allowed() {
    let e = RedrockError::new(String::new());
    assert_eq!(e.message(), "");
    assert_eq!(format!("{:?}", e), "RedrockError { message: \"\" }");
}
