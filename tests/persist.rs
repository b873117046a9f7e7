use eidetica::backend::{InMemory, VerificationStatus};
use eidetica::entry::Entry;
use eidetica::basedb::BaseDB;

fn diamond(backend: &mut InMemory) -> (String, String, String, String, String) {
    let root = Entry::root_builder().build();
    let r = root.id();
    backend.put_verified(root).unwrap();
    let a = Entry::builder(&r).add_parent(&r).set_subtree_data("branch", "a").build();
    let ia = a.id();
    backend.put_verified(a).unwrap();
    let b = Entry::builder(&r).add_parent(&r).set_subtree_data("branch", "b").build();
    let ib = b.id();
    backend.put_unverified(b).unwrap();
    let c = Entry::builder(&r).add_parent(&ia).add_parent(&ib).build();
    let ic = c.id();
    backend.put_verified(c).unwrap();
    let x = Entry::builder(&r)
        .add_parent(&ia)
        .add_parent(&ib)
        .set_subtree_data("subtree1", "subtree_data")
        .add_subtree_parent("subtree1", &ia)
        .build();
    let ix = x.id();
    backend.put_verified(x).unwrap();
    (r, ia, ib, ic, ix)
}

#[test]
fn test_save_load_in_memory_backend() {
    let mut backend = InMemory::new();
    let (r, ia, ib, ic, ix) = diamond(&mut backend);

    let text = backend.to_text();
    let loaded = InMemory::from_text(&text).expect("load");

    assert_eq!(loaded.to_text(), text);
    for id in [&r, &ia, &ib, &ic, &ix] {
        let before = backend.get(id).unwrap();
        let after = loaded.get(id).unwrap();
        assert_eq!(before.canonical_bytes(), after.canonical_bytes());
        assert_eq!(after.id(), **id);
        assert_eq!(
            backend.get_verification_status(id).unwrap(),
            loaded.get_verification_status(id).unwrap()
        );
    }
    let mut tips = loaded.get_tips(&r);
    tips.sort();
    let mut expected = vec![ic.clone(), ix.clone()];
    expected.sort();
    assert_eq!(tips, expected);
    assert_eq!(loaded.all_roots(), vec![r.clone()]);
    assert_eq!(loaded.get_subtree_tips(&r, "subtree1"), vec![ix.clone()]);
    assert_eq!(loaded.calculate_heights(&r, None), backend.calculate_heights(&r, None));
    assert_eq!(loaded.get(&ix).unwrap().data("subtree1").unwrap(), "subtree_data");
    assert_eq!(loaded.get_verification_status(&ib).unwrap(), VerificationStatus::Failed);
}

#[test]
fn test_load_invalid_file() {
    assert!(InMemory::from_text("{{invalid json").is_err());
    assert!(InMemory::from_text("").is_err());
}

#[test]
fn empty_storage_round_trips() {
    let backend = InMemory::new();
    let text = backend.to_text();
    assert_eq!(text, "0:");
    let loaded = InMemory::from_text(&text).unwrap();
    assert!(loaded.all_roots().is_empty());
}

#[test]
fn signed_entries_keep_their_signature_when_loaded() {
    let mut db = BaseDB::new(InMemory::new());
    db.add_private_key("K").unwrap();
    let tree = db.new_tree_default("K").unwrap();
    let mut op = db.new_operation(&tree);
    op.dict_set(&db, "d", "k", "v").unwrap();
    let id = db.commit(op).unwrap();
    let text = db.backend().to_text();
    let loaded = InMemory::from_text(&text).unwrap();
    let e = loaded.get(&id).unwrap();
    assert_eq!(e.sig().key.as_deref(), Some("K"));
    assert_eq!(e.sig().sig, db.get_entry(&id).unwrap().sig().sig);
}
