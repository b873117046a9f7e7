use eidetica::backend::{InMemory, VerificationStatus};
use eidetica::entry::Entry;
use eidetica::errors::Error;

fn height_of(heights: &[(String, usize)], id: &str) -> usize {
    heights
        .iter()
        .find(|(k, _)| k == id)
        .map(|(_, h)| *h)
        .unwrap_or(9999)
}

fn is_not_found(e: &Error) -> bool {
    matches!(e, Error::NotFound { .. })
}

#[test]
fn test_in_memory_backend_basic_operations() {
    let mut backend = InMemory::new();

    let entry = Entry::root_builder().build();
    let id = entry.id();

    let put_result = backend.put_verified(entry);
    assert!(put_result.is_ok());

    let get_result = backend.get(&id);
    assert!(get_result.is_ok());
    let retrieved_entry = get_result.unwrap();
    assert_eq!(retrieved_entry.id(), id);

    let roots = backend.all_roots();
    assert_eq!(roots.len(), 1);
    assert_eq!(roots[0], id);
}

#[test]
fn test_in_memory_backend_tree_operations() {
    let mut backend = InMemory::new();

    let root_entry = Entry::root_builder().build();
    let root_id = root_entry.id();
    backend.put_verified(root_entry).unwrap();

    let child1_entry = Entry::builder(&root_id).add_parent(&root_id).build();
    let child1_id = child1_entry.id();
    backend.put_verified(child1_entry).unwrap();

    let child2_entry = Entry::builder(&root_id).add_parent(&child1_id).build();
    let child2_id = child2_entry.id();
    backend.put_verified(child2_entry).unwrap();

    let tips = backend.get_tips(&root_id);
    assert_eq!(tips.len(), 1);
    assert!(tips.contains(&child2_id));

    let tree = backend.get_tree(&root_id);
    assert_eq!(tree.len(), 3);

    let tree_ids: Vec<String> = tree.iter().map(|e| e.id()).collect();
    assert!(tree_ids.contains(&root_id));
    assert!(tree_ids.contains(&child1_id));
    assert!(tree_ids.contains(&child2_id));
}

#[test]
fn test_in_memory_backend_subtree_operations() {
    let mut backend = InMemory::new();

    let root_entry = Entry::root_builder()
        .set_subtree_data("subtree1", "root_subtree1_data")
        .build();
    let root_id = root_entry.id();
    backend.put_verified(root_entry).unwrap();

    let child_entry = Entry::builder(&root_id)
        .add_parent(&root_id)
        .set_subtree_data("subtree1", "child_subtree1_data")
        .add_subtree_parent("subtree1", &root_id)
        .build();
    let child_id = child_entry.id();
    backend.put_verified(child_entry).unwrap();

    let subtree_tips = backend.get_subtree_tips(&root_id, "subtree1");
    assert_eq!(subtree_tips.len(), 1);
    assert_eq!(subtree_tips[0], child_id);

    let subtree = backend.get_subtree(&root_id, "subtree1");
    assert_eq!(subtree.len(), 2);
}

#[test]
fn test_in_memory_backend_error_handling() {
    let backend = InMemory::new();

    let non_existent_id = "non_existent_id";
    assert!(backend.get(non_existent_id).is_err());
    assert!(backend.get_tips(non_existent_id).is_empty());
    assert!(backend.get_subtree(non_existent_id, "non_existent_subtree").is_empty());
    assert!(backend.get_subtree_tips(non_existent_id, "non_existent_subtree").is_empty());
}

#[test]
fn test_in_memory_backend_complex_tree_structure() {
    let mut backend = InMemory::new();

    let root_entry = Entry::root_builder().build();
    let root_id = root_entry.id();
    backend.put_verified(root_entry).unwrap();

    let a_entry = Entry::builder(&root_id)
        .add_parent(&root_id)
        .set_subtree_data("branch", "a")
        .build();
    let a_id = a_entry.id();
    backend.put_verified(a_entry).unwrap();

    let b_entry = Entry::builder(&root_id)
        .add_parent(&root_id)
        .set_subtree_data("branch", "b")
        .build();
    let b_id = b_entry.id();
    backend.put_verified(b_entry).unwrap();

    let c_entry = Entry::builder(&root_id)
        .add_parent(&a_id)
        .add_parent(&b_id)
        .set_subtree_data("branch", "c")
        .build();
    let c_id = c_entry.id();
    backend.put_verified(c_entry).unwrap();

    let tips = backend.get_tips(&root_id);
    assert_eq!(tips.len(), 1);
    assert_eq!(tips[0], c_id);

    let tree = backend.get_tree(&root_id);
    assert_eq!(tree.len(), 4);
    assert_eq!(tree[0].id(), root_id);
    assert_eq!(tree[3].id(), c_id);
    let middle_ids: Vec<String> = vec![tree[1].id(), tree[2].id()];
    assert!(middle_ids.contains(&a_id));
    assert!(middle_ids.contains(&b_id));

    let heights = backend.calculate_heights(&root_id, None);
    assert_eq!(height_of(&heights, &root_id), 0);
    assert_eq!(height_of(&heights, &a_id), 1);
    assert_eq!(height_of(&heights, &b_id), 1);
    assert_eq!(height_of(&heights, &c_id), 2);

    let d_entry = Entry::builder(&root_id).add_parent(&c_id).build();
    let d_id = d_entry.id();
    backend.put_verified(d_entry).unwrap();

    let final_tips = backend.get_tips(&root_id);
    assert_eq!(final_tips.len(), 1);
    assert_eq!(final_tips[0], d_id);
    let heights = backend.calculate_heights(&root_id, None);
    assert_eq!(height_of(&heights, &d_id), 3);
}

#[test]
fn test_backend_get_tree_from_tips() {
    let mut backend = InMemory::new();

    let tree_root = Entry::root_builder().build();
    let root_id = tree_root.id();
    backend.put_verified(tree_root).unwrap();

    let root_entry = Entry::builder(&root_id).add_parent(&root_id).build();
    let root_entry_id = root_entry.id();
    backend.put_verified(root_entry).unwrap();

    let e1_entry = Entry::builder(&root_id).add_parent(&root_entry_id).build();
    let e1_id = e1_entry.id();
    backend.put_verified(e1_entry).unwrap();

    let e2a_entry = Entry::builder(&root_id)
        .add_parent(&e1_id)
        .set_subtree_data("branch", "a")
        .build();
    let e2a_id = e2a_entry.id();
    backend.put_verified(e2a_entry).unwrap();

    let e2b_entry = Entry::builder(&root_id)
        .add_parent(&e1_id)
        .set_subtree_data("branch", "b")
        .build();
    let e2b_id = e2b_entry.id();
    backend.put_verified(e2b_entry).unwrap();

    let tree_e2a = backend.get_tree_from_tips(&root_id, &vec![e2a_id.clone()]);
    assert_eq!(tree_e2a.len(), 4);
    let ids_e2a: Vec<String> = tree_e2a.iter().map(|e| e.id()).collect();
    assert!(ids_e2a.contains(&root_entry_id));
    assert!(ids_e2a.contains(&e1_id));
    assert!(ids_e2a.contains(&e2a_id));
    assert!(!ids_e2a.contains(&e2b_id));
    assert_eq!(tree_e2a[0].id(), root_id);
    assert_eq!(tree_e2a[1].id(), root_entry_id);
    assert_eq!(tree_e2a[2].id(), e1_id);
    assert_eq!(tree_e2a[3].id(), e2a_id);

    let tree_both = backend.get_tree_from_tips(&root_id, &vec![e2a_id.clone(), e2b_id.clone()]);
    assert_eq!(tree_both.len(), 5);
    let last_two: Vec<String> = vec![tree_both[3].id(), tree_both[4].id()];
    assert!(last_two.contains(&e2a_id));
    assert!(last_two.contains(&e2b_id));

    let tree_bad_tip = backend.get_tree_from_tips(&root_id, &vec!["bad_tip_id".to_string()]);
    assert!(tree_bad_tip.is_empty());

    let tree_bad_root = backend.get_tree_from_tips("bad_root", &vec![e1_id.clone()]);
    assert!(tree_bad_root.is_empty());

    let branch = backend.get_subtree_from_tips(&root_id, "branch", &vec![e2a_id.clone(), e2b_id.clone()]);
    assert_eq!(branch.len(), 2);
}

#[test]
fn test_calculate_entry_height() {
    let mut backend = InMemory::new();

    let root = Entry::root_builder().build();
    let root_id = root.id();

    let entry_a = Entry::builder(&root_id).add_parent(&root_id).set_subtree_data("branch", "a").build();
    let id_a = entry_a.id();
    let entry_b = Entry::builder(&root_id).add_parent(&id_a).set_subtree_data("branch", "b").build();
    let id_b = entry_b.id();
    let entry_c = Entry::builder(&root_id).add_parent(&id_b).set_subtree_data("branch", "c").build();
    let id_c = entry_c.id();
    let entry_e = Entry::builder(&root_id).add_parent(&root_id).set_subtree_data("branch", "e").build();
    let id_e = entry_e.id();
    let entry_f = Entry::builder(&root_id).add_parent(&id_e).set_subtree_data("branch", "f").build();
    let id_f = entry_f.id();
    let entry_d = Entry::builder(&root_id)
        .add_parent(&id_c)
        .add_parent(&id_f)
        .set_subtree_data("branch", "d")
        .build();
    let id_d = entry_d.id();

    // parents are stored before their children
    backend.put_verified(root).unwrap();
    backend.put_verified(entry_a).unwrap();
    backend.put_verified(entry_b).unwrap();
    backend.put_verified(entry_c).unwrap();
    backend.put_verified(entry_e).unwrap();
    backend.put_verified(entry_f).unwrap();
    backend.put_verified(entry_d).unwrap();

    let tips = backend.get_tips(&root_id);
    assert_eq!(tips.len(), 1);
    assert_eq!(tips[0], id_d);

    let tree = backend.get_tree_from_tips(&root_id, &vec![id_d.clone()]);
    assert_eq!(tree.len(), 7, "Tree should contain all 7 entries");

    let heights = backend.calculate_heights(&root_id, None);
    assert_eq!(height_of(&heights, &root_id), 0);
    assert_eq!(height_of(&heights, &id_a), 1);
    assert_eq!(height_of(&heights, &id_e), 1);
    assert_eq!(height_of(&heights, &id_b), 2);
    assert_eq!(height_of(&heights, &id_f), 2);
    assert_eq!(height_of(&heights, &id_c), 3);
    assert_eq!(height_of(&heights, &id_d), 4);
}

#[test]
fn put_refuses_an_entry_whose_parent_is_unknown() {
    let mut backend = InMemory::new();
    let orphan = Entry::builder("r").add_parent("missing").build();
    let r = backend.put_verified(orphan);
    assert!(matches!(r, Err(Error::MissingParent { .. })));
    assert!(backend.all_roots().is_empty());
    assert!(backend.get_entries_by_verification_status(VerificationStatus::Verified).is_empty());
}

#[test]
fn test_get_tips() {
    let mut backend = InMemory::new();

    let root = Entry::root_builder().build();
    let root_id = root.id();
    backend.put(VerificationStatus::Verified, root).unwrap();

    let tips = backend.get_tips(&root_id);
    assert_eq!(tips.len(), 1);
    assert_eq!(tips[0], root_id);

    let entry_a = Entry::builder(&root_id).add_parent(&root_id).build();
    let id_a = entry_a.id();
    backend.put(VerificationStatus::Verified, entry_a).unwrap();

    let tips = backend.get_tips(&root_id);
    assert_eq!(tips.len(), 1);
    assert_eq!(tips[0], id_a);

    let entry_b = Entry::builder(&root_id).add_parent(&id_a).build();
    let id_b = entry_b.id();
    backend.put(VerificationStatus::Verified, entry_b).unwrap();

    let tips = backend.get_tips(&root_id);
    assert_eq!(tips.len(), 1);
    assert_eq!(tips[0], id_b);

    let entry_c = Entry::builder(&root_id)
        .add_parent(&root_id)
        .set_subtree_data("x", "c")
        .build();
    let id_c = entry_c.id();
    backend.put(VerificationStatus::Verified, entry_c).unwrap();

    let tips = backend.get_tips(&root_id);
    assert_eq!(tips.len(), 2);
    assert!(tips.contains(&id_b));
    assert!(tips.contains(&id_c));
}

#[test]
fn test_put_get_entry() {
    let mut backend = InMemory::new();

    let entry = Entry::root_builder().build();
    let id = entry.id();
    let copy = entry.duplicate();

    let put_result = backend.put(VerificationStatus::Verified, entry);
    assert!(put_result.is_ok());

    let retrieved = backend.get(&id).unwrap();
    assert_eq!(retrieved.id(), copy.id());
    assert_eq!(retrieved.canonical_bytes(), copy.canonical_bytes());

    let invalid_get = backend.get("non_existent_id");
    assert!(invalid_get.is_err());
    assert!(is_not_found(&invalid_get.unwrap_err()));
}

#[test]
fn test_verification_status_basic_operations() {
    let mut backend = InMemory::new();

    let entry = Entry::builder("root").build();
    let entry_id = entry.id();

    backend.put_verified(entry).expect("Failed to put verified entry");

    let status = backend.get_verification_status(&entry_id).expect("Failed to get status");
    assert_eq!(status, VerificationStatus::Verified);

    backend
        .update_verification_status(&entry_id, VerificationStatus::Failed)
        .expect("Failed to update status");
    let updated_status = backend.get_verification_status(&entry_id).expect("Failed to get updated status");
    assert_eq!(updated_status, VerificationStatus::Failed);

    let failed_entries = backend.get_entries_by_verification_status(VerificationStatus::Failed);
    assert_eq!(failed_entries.len(), 1);
    assert_eq!(failed_entries[0], entry_id);

    let verified_entries = backend.get_entries_by_verification_status(VerificationStatus::Verified);
    assert_eq!(verified_entries.len(), 0);
}

#[test]
fn test_verification_status_default_behavior() {
    let mut backend = InMemory::new();

    let entry = Entry::builder("root").build();
    let entry_id = entry.id();

    backend.put_verified(entry).expect("Failed to put entry");

    let status = backend.get_verification_status(&entry_id).expect("Failed to get status");
    assert_eq!(status, VerificationStatus::Verified);

    let verified_entries = backend.get_entries_by_verification_status(VerificationStatus::Verified);
    assert_eq!(verified_entries.len(), 1);
    assert_eq!(verified_entries[0], entry_id);
}

#[test]
fn test_verification_status_multiple_entries() {
    let mut backend = InMemory::new();

    let entry1 = Entry::builder("root1").build();
    let entry2 = Entry::builder("root2").build();
    let entry3 = Entry::builder("root3").build();

    let entry1_id = entry1.id();
    let entry2_id = entry2.id();
    let entry3_id = entry3.id();

    backend.put_verified(entry1).expect("Failed to put entry1");
    backend.put_verified(entry2).expect("Failed to put entry2");
    backend.put_unverified(entry3).expect("Failed to put entry3");

    let verified_entries = backend.get_entries_by_verification_status(VerificationStatus::Verified);
    assert_eq!(verified_entries.len(), 2);
    assert!(verified_entries.contains(&entry1_id));
    assert!(verified_entries.contains(&entry2_id));

    let failed_entries = backend.get_entries_by_verification_status(VerificationStatus::Failed);
    assert_eq!(failed_entries.len(), 1);
    assert_eq!(failed_entries[0], entry3_id);
}

#[test]
fn test_verification_status_not_found_errors() {
    let mut backend = InMemory::new();

    let result = backend.get_verification_status("nonexistent");
    assert!(result.is_err());
    assert!(is_not_found(&result.unwrap_err()));

    let result = backend.update_verification_status("nonexistent", VerificationStatus::Verified);
    assert!(result.is_err());
    assert!(is_not_found(&result.unwrap_err()));
}

#[test]
fn longer_path_sets_the_height() {
    let mut backend = InMemory::new();
    let root = Entry::root_builder().build();
    let r = root.id();
    backend.put_verified(root).unwrap();
    let a = Entry::builder(&r).add_parent(&r).set_subtree_data("s", "a").build();
    let ia = a.id();
    backend.put_verified(a).unwrap();
    let b = Entry::builder(&r).add_parent(&ia).set_subtree_data("s", "b").add_subtree_parent("s", &ia).build();
    let ib = b.id();
    backend.put_verified(b).unwrap();
    let sub = backend.calculate_heights(&r, Some("s"));
    assert_eq!(height_of(&sub, &ia), 0);
    assert_eq!(height_of(&sub, &ib), 1);
    assert_eq!(sub.len(), 2);
}
