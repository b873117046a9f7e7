use eidetica::crdt::Nested;
use eidetica::errors::SubtreeError;
use eidetica::auth::{check_key, AuthError, AuthKey, KeyStatus, Permission};

#[test]
fn subtree_error_kinds() {
    let e = SubtreeError::KeyNotFound { subtree: "s".to_string(), key: "k".to_string() };
    assert!(e.is_not_found());
    assert!(!e.is_type_error());
    assert_eq!(e.subtree_name(), "s");
    assert_eq!(e.key(), Some("k"));
    assert_eq!(e.operation(), None);

    let e = SubtreeError::InvalidOperation {
        subtree: "t".to_string(),
        operation: "op".to_string(),
        reason: "r".to_string(),
    };
    assert!(e.is_operation_error());
    assert_eq!(e.operation(), Some("op"));
    assert_eq!(e.key(), None);
    assert_eq!(e.subtree_name(), "t");

    let e = SubtreeError::RequiresAtomicOperation { subtree: "u".to_string() };
    assert!(e.is_operation_error());

    let e = SubtreeError::DeserializationFailed { subtree: "v".to_string(), reason: "x".to_string() };
    assert!(e.is_serialization_error());
    let e = SubtreeError::SerializationFailed { subtree: "v".to_string(), reason: "x".to_string() };
    assert!(e.is_serialization_error());
    let e = SubtreeError::TypeMismatch {
        subtree: "v".to_string(),
        expected: "a".to_string(),
        actual: "b".to_string(),
    };
    assert!(e.is_type_error());
    let e = SubtreeError::DataCorruption { subtree: "v".to_string(), reason: "x".to_string() };
    assert!(e.is_integrity_error());
    assert!(!e.is_not_found());
    let e = SubtreeError::ImplementationError { subtree: "w".to_string(), reason: "x".to_string() };
    assert!(e.is_implementation_error());
    assert_eq!(e.subtree_name(), "w");
}

#[test]
fn map_text_round_trip_and_rejection() {
    let mut m = Nested::new();
    m.set("a", "1");
    let mut inner = Nested::new();
    inner.set("b", "héllo");
    m.set_value("n", eidetica::crdt::Value::node(inner));
    m.remove("gone");
    let text = m.to_text();
    let back = Nested::from_text(&text).unwrap();
    assert_eq!(back.to_text(), text);
    assert_eq!(back.get("n").and_then(|v| v.as_node()).unwrap().get_text("b"), Some(&"héllo".to_string()));
    assert!(Nested::from_text("garbage").is_err());
    assert!(Nested::from_text("M01:").is_err());
    assert!(Nested::from_text("M0:extra").is_err());
}

#[test]
fn hex_round_trip() {
    assert_eq!(eidetica::auth::to_hex(&[0u8, 171, 255]), "00abff");
    assert_eq!(eidetica::auth::from_hex("00abff"), Some(vec![0u8, 171, 255]));
    assert_eq!(eidetica::auth::from_hex("0g"), None);
    assert_eq!(eidetica::auth::from_hex("abc"), None);
}

#[test]
fn check_key_follows_status_signature_permission() {
    let k = |p, s| AuthKey { pubkey: String::new(), permissions: p, status: s };
    assert!(check_key(&k(Permission::Admin(0), KeyStatus::Active), true, true).is_ok());
    assert!(check_key(&k(Permission::Write(1), KeyStatus::Active), true, false).is_ok());
    assert!(matches!(
        check_key(&k(Permission::Write(1), KeyStatus::Active), true, true),
        Err(AuthError::PermissionDenied { .. })
    ));
    assert!(matches!(
        check_key(&k(Permission::Read, KeyStatus::Active), true, false),
        Err(AuthError::PermissionDenied { .. })
    ));
    assert!(matches!(
        check_key(&k(Permission::Admin(0), KeyStatus::Revoked), true, false),
        Err(AuthError::PermissionDenied { .. })
    ));
    assert!(matches!(
        check_key(&k(Permission::Admin(0), KeyStatus::Active), false, false),
        Err(AuthError::SignatureInvalid)
    ));
}

#[test]
fn subtree_errors_convert_into_engine_errors() {
    let e: eidetica::errors::Error = SubtreeError::KeyNotFound { subtree: "s".to_string(), key: "k".to_string() }.into();
    assert!(matches!(e, eidetica::errors::Error::Subtree(SubtreeError::KeyNotFound { .. })));
}
