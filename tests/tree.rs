use eidetica::auth::{key_value, AuthKey, KeyStatus, Permission};
use eidetica::backend::InMemory;
use eidetica::basedb::BaseDB;
use eidetica::crdt::{Nested, Value};
use eidetica::errors::Error;
use eidetica::auth::AuthError;

fn db_with_key(name: &str) -> BaseDB {
    let mut db = BaseDB::new(InMemory::new());
    db.add_private_key(name).expect("key");
    db
}

fn publish(db: &BaseDB, auth: &mut Nested, name: &str, permissions: Permission, status: KeyStatus) {
    let pubkey = db.get_public_key(name).expect("public key");
    let key = AuthKey { pubkey, permissions, status };
    auth.set_value(name, Value::node(key_value(&key)));
}

#[test]
fn test_mandatory_authentication() {
    let mut db = db_with_key("TEST_KEY");
    let tree = db.new_tree_default("TEST_KEY").expect("tree");
    let mut op = db.new_operation(&tree);
    op.dict_set(&db, "data", "test", "value").expect("Failed to set value");
    let id = db.commit(op).expect("Should succeed with authentication");
    let entry = db.get_entry(&id).expect("Failed to get entry");
    assert_eq!(entry.sig().key.as_deref(), Some("TEST_KEY"));
    assert!(entry.sig().sig.is_some());
}

#[test]
fn test_missing_authentication_key_error() {
    let mut db = db_with_key("TEST_KEY");
    let tree = db.new_tree_default("TEST_KEY").expect("tree");
    let mut op = db.new_authenticated_operation(&tree, "NONEXISTENT_KEY");
    op.dict_set(&db, "data", "test", "value").expect("Failed to set value");
    let before = db.backend().get_entries_by_verification_status(eidetica::backend::VerificationStatus::Verified).len();
    let r = db.commit(op);
    assert!(r.is_err(), "Should fail at commit time with missing key");
    let after = db.backend().get_entries_by_verification_status(eidetica::backend::VerificationStatus::Verified).len();
    assert_eq!(before, after);
}

#[test]
fn test_tree_default_authentication() {
    let mut db = db_with_key("DEFAULT_KEY");
    let mut tree = db.new_tree_default("DEFAULT_KEY").expect("tree");
    assert_eq!(tree.default_auth_key().map(|s| s.as_str()), Some("DEFAULT_KEY"));
    tree.clear_default_auth_key();
    let mut op = db.new_operation(&tree);
    op.dict_set(&db, "data", "test", "value").expect("Failed to set value");
    assert!(db.commit(op).is_err(), "Should fail without authentication");
}

#[test]
fn dict_set_and_delete_show_in_the_viewer() {
    let mut db = db_with_key("K");
    let tree = db.new_tree_default("K").unwrap();

    let mut op = db.new_operation(&tree);
    op.dict_set(&db, "dict", "x", "1").unwrap();
    op.dict_set(&db, "dict", "y", "2").unwrap();
    db.commit(op).unwrap();

    let mut op = db.new_operation(&tree);
    op.dict_delete(&db, "dict", "x").unwrap();
    db.commit(op).unwrap();

    let view = db.get_subtree_viewer(&tree, "dict").unwrap();
    assert!(view.get("x").is_none());
    assert_eq!(view.get_text("y"), Some(&"2".to_string()));
}

#[test]
fn operation_reads_its_own_writes() {
    let mut db = db_with_key("K");
    let tree = db.new_tree_default("K").unwrap();
    let mut op = db.new_operation(&tree);
    op.dict_set(&db, "dict", "a", "1").unwrap();
    let v = op.dict_get(&db, "dict", "a").unwrap();
    assert_eq!(v.as_text().map(|s| s.as_str()), Some("1"));
    assert!(op.dict_get(&db, "dict", "b").is_err());
}

#[test]
fn concurrent_branches_merge_deterministically() {
    let mut db = db_with_key("K");
    let tree = db.new_tree_default("K").unwrap();
    let root = tree.root_id().clone();

    let mut a = db.new_operation_with_tips(&tree, vec![root.clone()]);
    a.dict_set(&db, "records", "k", "A").unwrap();
    a.dict_set(&db, "records", "k_field", "A").unwrap();
    let ida = db.commit(a).unwrap();

    let mut b = db.new_operation_with_tips(&tree, vec![root.clone()]);
    b.dict_set(&db, "records", "k", "B").unwrap();
    b.dict_set(&db, "records", "k_field", "B").unwrap();
    let idb = db.commit(b).unwrap();

    let op = db.new_operation(&tree);
    assert_eq!(op.tips().len(), 2);
    let k = op.dict_get(&db, "records", "k").unwrap();
    let f = op.dict_get(&db, "records", "k_field").unwrap();
    let winner = if ida < idb { "B" } else { "A" };
    assert_eq!(k.as_text().map(|s| s.as_str()), Some(winner));
    assert_eq!(f.as_text().map(|s| s.as_str()), Some(winner));
}

#[test]
fn key_rotation_and_revocation() {
    let mut db = db_with_key("K1");
    db.add_private_key("K2").unwrap();
    let tree = db.new_tree_default("K1").unwrap();

    let mut op = db.new_operation(&tree);
    let mut auth = match op.dict_get(&db, "_settings", "auth").unwrap() {
        Value::Node(n) => n,
        _ => panic!("auth is a map"),
    };
    publish(&db, &mut auth, "K2", Permission::Write(1), KeyStatus::Active);
    op.dict_set_value(&db, "_settings", "auth", Value::node(auth)).unwrap();
    db.commit(op).unwrap();

    let mut op = db.new_authenticated_operation(&tree, "K2");
    op.dict_set(&db, "data", "x", "1").unwrap();
    db.commit(op).expect("a write key may write data");

    let mut op = db.new_authenticated_operation(&tree, "K2");
    op.dict_set(&db, "_settings", "name", "renamed").unwrap();
    let r = db.commit(op);
    assert!(matches!(r, Err(Error::Authentication(AuthError::PermissionDenied { .. }))));

    let mut op = db.new_operation(&tree);
    let mut auth = match op.dict_get(&db, "_settings", "auth").unwrap() {
        Value::Node(n) => n,
        _ => panic!("auth is a map"),
    };
    publish(&db, &mut auth, "K2", Permission::Write(1), KeyStatus::Revoked);
    op.dict_set_value(&db, "_settings", "auth", Value::node(auth)).unwrap();
    db.commit(op).unwrap();

    let mut op = db.new_authenticated_operation(&tree, "K2");
    op.dict_set(&db, "data", "x", "2").unwrap();
    let r = db.commit(op);
    assert!(matches!(r, Err(Error::Authentication(AuthError::PermissionDenied { .. }))));
}

#[test]
fn unknown_key_in_settings_is_rejected() {
    let mut db = db_with_key("K1");
    db.add_private_key("K3").unwrap();
    let tree = db.new_tree_default("K1").unwrap();
    let mut op = db.new_authenticated_operation(&tree, "K3");
    op.dict_set(&db, "data", "x", "1").unwrap();
    let r = db.commit(op);
    assert!(matches!(r, Err(Error::Authentication(AuthError::KeyNotFound { .. }))));
}

#[test]
fn corrupted_auth_locks_the_tree() {
    let mut db = db_with_key("K1");
    let tree = db.new_tree_default("K1").unwrap();

    let mut op = db.new_operation(&tree);
    op.dict_set(&db, "_settings", "auth", "corrupted").unwrap();
    db.commit(op).unwrap();

    let mut op = db.new_operation(&tree);
    op.dict_set(&db, "data", "x", "1").unwrap();
    let r = db.commit(op);
    assert!(matches!(r, Err(Error::Authentication(AuthError::InvalidSettings { .. }))));
}

#[test]
fn tree_name_comes_from_settings() {
    let mut db = BaseDB::new(InMemory::new());
    let mut settings = Nested::new();
    settings.set("name", "Tree2");
    let tree = db.new_tree(settings).unwrap();
    assert_eq!(db.get_name(&tree).unwrap(), "Tree2");
    let unnamed = db.new_tree(Nested::new()).unwrap();
    assert!(db.get_name(&unnamed).is_err());
}

#[test]
fn duplicate_key_names_are_refused() {
    let mut db = db_with_key("K");
    assert!(db.add_private_key("K").is_err());
    assert_eq!(db.list_keys(), vec!["K".to_string()]);
}

#[test]
fn test_table_uuid_generation() {
    let mut db = db_with_key("K");
    let tree = db.new_tree_default("K").unwrap();
    let mut op = db.new_operation(&tree);
    let mut keys: Vec<String> = Vec::new();
    for i in 0..100 {
        let mut rec = Nested::new();
        rec.set("value", &i.to_string());
        keys.push(op.table_insert(&db, "table", rec).unwrap());
    }
    let mut unique = keys.clone();
    unique.sort();
    unique.dedup();
    assert_eq!(unique.len(), 100);
    for k in &keys {
        assert_eq!(k.len(), 36);
        assert_eq!(k.chars().filter(|c| *c == '-').count(), 4);
    }
    db.commit(op).unwrap();

    let view = db.get_subtree_viewer(&tree, "table").unwrap();
    for (i, k) in keys.iter().enumerate() {
        let rec = view.get(k).and_then(|v| v.as_node()).expect("record");
        assert_eq!(rec.get_text("value"), Some(&i.to_string()));
    }
}

#[test]
fn test_table_basic_crud_operations() {
    let mut db = db_with_key("K");
    let tree = db.new_tree_default("K").unwrap();
    let mut op = db.new_operation(&tree);
    let mut rec = Nested::new();
    rec.set("name", "Alice");
    let k = op.table_insert(&db, "people", rec).unwrap();
    let got = op.table_get(&db, "people", &k).unwrap();
    assert_eq!(got.get_text("name"), Some(&"Alice".to_string()));

    let mut rec2 = Nested::new();
    rec2.set("name", "Bob");
    op.table_set(&db, "people", &k, rec2).unwrap();
    let got = op.table_get(&db, "people", &k).unwrap();
    assert_eq!(got.get_text("name"), Some(&"Bob".to_string()));

    assert!(op.table_get(&db, "people", "missing").is_err());
    let all = op.table_records(&db, "people").unwrap();
    assert_eq!(all.len(), 1);
    assert_eq!(all[0].0, k);
}
