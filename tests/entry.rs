use eidetica::entry::{Entry, EntryBuilder};

const ROOT: &str = "_root";

fn contains(v: &[String], x: &str) -> bool {
    v.iter().any(|s| s == x)
}

fn assert_same_id(a: &Entry, b: &Entry) {
    assert_eq!(a.id(), b.id());
}

fn assert_different_id(a: &Entry, b: &Entry) {
    assert_ne!(a.id(), b.id());
}

fn create_complex_entry_with_order(root: &str, reverse: bool) -> Entry {
    let mut subtrees = vec![
        ("alpha", "alpha_data", vec!["a1".to_string(), "a2".to_string()]),
        ("beta", "beta_data", vec!["b1".to_string()]),
        ("gamma", "gamma_data", vec!["g3".to_string(), "g1".to_string(), "g2".to_string()]),
    ];
    let mut parents = vec!["p1".to_string(), "p2".to_string(), "p3".to_string()];
    if reverse {
        subtrees.reverse();
        parents.reverse();
    }
    let mut builder: EntryBuilder = Entry::builder(root);
    builder.set_parents_mut(parents);
    for (name, data, sub_parents) in subtrees {
        let mut sp = sub_parents;
        if reverse {
            sp.reverse();
        }
        builder.set_subtree_data_mut(name, data);
        builder.set_subtree_parents_mut(name, sp);
    }
    builder.build()
}

#[test]
fn test_entry_creation() {
    let root = "test_root";
    let entry = Entry::builder(root).build();

    assert_eq!(entry.root(), root);
    assert!(!entry.is_root());
    assert!(!entry.is_toplevel_root());

    assert!(entry.parents().is_empty());
}

#[test]
fn test_entry_toplevel_creation() {
    let entry = Entry::root_builder().build();

    assert!(entry.root().is_empty());
    assert!(entry.is_root());
    assert!(entry.in_subtree(ROOT));
    assert!(entry.is_toplevel_root());
}

#[test]
fn test_entry_add_subtree() {
    let root = "test_root_parents";
    let subtree_name = "subtree1";
    let subtree_data = "subtree_data";

    let entry = Entry::builder(root)
        .set_subtree_data(subtree_name, subtree_data)
        .build();

    let subtrees = entry.subtrees();
    assert_eq!(subtrees.len(), 1);
    assert_eq!(subtrees[0], subtree_name);

    let fetched_data = entry.data(subtree_name).unwrap();
    assert_eq!(fetched_data, subtree_data);

    let subtree_parents = entry.subtree_parents(subtree_name).unwrap();
    assert!(subtree_parents.is_empty());

    let mut builder = Entry::builder(root);
    builder.set_subtree_data_mut(subtree_name, subtree_data);
    let new_subtree_data = "new_subtree_data";
    builder.set_subtree_data_mut(subtree_name, new_subtree_data);

    let new_entry = builder.build();
    assert_eq!(new_entry.subtrees().len(), 1);

    let fetched_new_data = new_entry.data(subtree_name).unwrap();
    assert_eq!(fetched_new_data, new_subtree_data);
}

#[test]
fn test_entry_parents() {
    let root = "test_root_parents";
    let mut builder = Entry::builder(root);

    let parent1: String = "parent1".into();
    let parent2: String = "parent2".into();
    let parents = vec![parent1.clone(), parent2.clone()];
    builder.set_parents_mut(parents.clone());

    let subtree_name = "subtree1";
    let subtree_data = "subtree_data";
    builder.set_subtree_data_mut(subtree_name, subtree_data);

    let subtree_parent: String = "subtree_parent".into();
    builder.set_subtree_parents_mut(subtree_name, vec![subtree_parent.clone()]);

    let entry = builder.build();

    let fetched_parents = entry.parents();
    assert_eq!(*fetched_parents, parents);

    let fetched_subtree_parents = entry.subtree_parents(subtree_name).unwrap();
    assert_eq!(*fetched_subtree_parents, vec![subtree_parent]);
}

#[test]
fn test_entry_id() {
    let root = "test_root_id";
    let entry = Entry::builder(root).build();

    let id = entry.id();
    assert!(!id.is_empty());
    assert_eq!(id.len(), 64);

    let identical_entry = Entry::builder(root).build();
    assert_eq!(identical_entry.id(), id);

    let different_entry = Entry::builder("different_root").build();
    assert_ne!(different_entry.id(), id);
}

#[test]
fn test_in_tree_and_subtree() {
    let root = "test_root_subtrees";
    let mut builder = Entry::builder(root);

    let subtree_name = "subtree1";
    builder.set_subtree_data_mut(subtree_name, "subtree_data");

    let entry = builder.build();

    assert!(entry.in_tree(root));
    assert!(!entry.in_tree("other_tree"));
    assert!(entry.in_subtree(subtree_name));
    assert!(!entry.in_subtree("non_existent_subtree"));
}

#[test]
fn test_entry_with_multiple_subtrees() {
    let root = "test_root_order";
    let mut builder = Entry::builder(root);

    let subtrees = [
        ("users", "user_data"),
        ("posts", "post_data"),
        ("comments", "comment_data"),
        ("ratings", "rating_data"),
    ];

    for (name, data) in subtrees.iter() {
        builder.set_subtree_data_mut(name, data);
    }

    for (name, _) in subtrees.iter() {
        let parent_id: String = format!("parent_for_{name}");
        builder.set_subtree_parents_mut(name, vec![parent_id.clone()]);
    }

    let entry = builder.build();

    let subtree_names = entry.subtrees();
    assert_eq!(subtree_names.len(), 4);

    for (name, data) in subtrees.iter() {
        assert!(entry.in_subtree(name));
        assert_eq!(entry.data(name).unwrap(), data);
    }

    let non_existent = entry.data("non_existent");
    assert!(non_existent.is_none());

    for (name, _) in subtrees.iter() {
        let parent_id = format!("parent_for_{name}");
        let parents = entry.subtree_parents(name).unwrap();
        assert_eq!(parents.len(), 1);
        assert_eq!(parents[0], parent_id);
    }
}

#[test]
fn test_entry_id_determinism() {
    let mut builder1 = Entry::builder("test_root");
    builder1.set_parents_mut(vec!["parent1".into(), "parent2".into()]);
    builder1.set_subtree_data_mut("subtree1", "data1");
    builder1.set_subtree_data_mut("subtree2", "data2");
    builder1.set_subtree_parents_mut("subtree1", vec!["sub_parent1".into()]);
    let entry1 = builder1.build();

    let mut builder2 = Entry::builder("test_root");
    builder2.set_subtree_data_mut("subtree2", "data2");
    builder2.set_subtree_data_mut("subtree1", "data1");
    builder2.set_parents_mut(vec!["parent2".into(), "parent1".into()]);
    builder2.set_subtree_parents_mut("subtree1", vec!["sub_parent1".into()]);
    let entry2 = builder2.build();

    assert_same_id(&entry1, &entry2);

    let mut builder3 = Entry::builder("test_root");
    builder3.set_parents_mut(vec!["parent2".into(), "parent1".into()]);
    builder3.set_subtree_data_mut("subtree2", "data2");
    builder3.set_subtree_data_mut("subtree1", "data1");
    builder3.set_subtree_parents_mut("subtree1", vec!["different_parent".into()]);
    let entry3 = builder3.build();

    assert_different_id(&entry1, &entry3);
}

#[test]
fn test_entry_remove_empty_subtrees() {
    let root = "test_root_build";
    let mut builder = Entry::builder(root);

    builder.set_subtree_data_mut("sub1", "data1");
    builder.set_subtree_data_mut("sub2_empty", "");
    builder.set_subtree_data_mut("sub3", "data3");

    builder.remove_empty_subtrees_mut();

    let entry = builder.build();

    let remaining_subtrees = entry.subtrees();
    assert_eq!(remaining_subtrees.len(), 2);
    assert!(contains(&remaining_subtrees, "sub1"));
    assert!(contains(&remaining_subtrees, "sub3"));
    assert!(!contains(&remaining_subtrees, "sub2_empty"));

    assert_eq!(entry.data("sub1").unwrap(), "data1");
    assert_eq!(entry.data("sub3").unwrap(), "data3");
}

#[test]
fn test_add_subtree_success() {
    let mut builder = Entry::builder("root_id");
    builder.set_subtree_data_mut("test", "{}");
    let entry = builder.build();

    assert!(entry.in_subtree("test"));
}

#[test]
fn test_add_subtree_duplicate() {
    let mut builder = Entry::builder("root_id");

    builder.set_subtree_data_mut("test", "{}");
    builder.set_subtree_data_mut("test", "{}");

    let entry = builder.build();

    assert_eq!(entry.subtrees().len(), 1);
}

#[test]
fn test_subtrees_are_sorted() {
    let mut builder = Entry::builder("root_id");

    builder.set_subtree_data_mut("c", "{}");
    builder.set_subtree_data_mut("a", "{}");
    builder.set_subtree_data_mut("b", "{}");

    let entry = builder.build();

    let subtrees = entry.subtrees();
    assert_eq!(
        subtrees,
        vec!["a".to_string(), "b".to_string(), "c".to_string()]
    );
}

#[test]
fn test_parents_are_sorted() {
    let mut builder = Entry::builder("root_id");

    builder.set_parents_mut(vec!["c".into(), "a".into(), "b".into()]);

    builder.set_subtree_data_mut("test", "{}");
    builder.set_subtree_parents_mut("test", vec!["z".into(), "x".into(), "y".into()]);

    let entry = builder.build();

    let main_parents = entry.parents();
    assert_eq!(
        *main_parents,
        vec!["a".to_string(), "b".to_string(), "c".to_string()]
    );

    let subtree_parents = entry.subtree_parents("test").unwrap();
    assert_eq!(
        *subtree_parents,
        vec!["x".to_string(), "y".to_string(), "z".to_string()]
    );
}

#[test]
fn test_dual_api_patterns() {
    let entry = Entry::builder("root_id")
        .set_parents(vec!["parent1".into(), "parent2".into()])
        .set_subtree_data("subtree1", "subtree_data1")
        .set_subtree_parents("subtree1", vec!["subtree_parent1".into()])
        .add_subtree_parent("subtree1", "subtree_parent2")
        .build();

    assert_eq!(entry.root(), "root_id");
    assert!(entry.in_subtree("subtree1"));
    assert_eq!(entry.data("subtree1").unwrap(), "subtree_data1");

    let parents = entry.parents();
    assert_eq!(parents.len(), 2);
    assert!(contains(parents, "parent1"));
    assert!(contains(parents, "parent2"));

    let subtree_parents = entry.subtree_parents("subtree1").unwrap();
    assert_eq!(subtree_parents.len(), 2);
    assert!(contains(subtree_parents, "subtree_parent1"));
    assert!(contains(subtree_parents, "subtree_parent2"));

    let mut builder = Entry::builder("root_id2");
    builder.set_parents_mut(vec!["parent3".into(), "parent4".into()]);
    builder.set_subtree_data_mut("subtree2", "subtree_data2");
    builder.set_subtree_parents_mut("subtree2", vec!["subtree_parent3".into()]);
    builder.add_subtree_parent_mut("subtree2", "subtree_parent4");

    let entry2 = builder.build();

    assert_eq!(entry2.root(), "root_id2");
    assert!(entry2.in_subtree("subtree2"));
    assert_eq!(entry2.data("subtree2").unwrap(), "subtree_data2");

    let parents2 = entry2.parents();
    assert_eq!(parents2.len(), 2);
    assert!(contains(parents2, "parent3"));
    assert!(contains(parents2, "parent4"));

    let subtree_parents2 = entry2.subtree_parents("subtree2").unwrap();
    assert_eq!(subtree_parents2.len(), 2);
    assert!(contains(subtree_parents2, "subtree_parent3"));
    assert!(contains(subtree_parents2, "subtree_parent4"));
}

#[test]
fn test_entrybuilder_api_consistency() {
    let entry1 = Entry::builder("root")
        .set_parents(vec!["parent1".into(), "parent2".into()])
        .set_subtree_data("subtree1", "data1")
        .set_subtree_parents("subtree1", vec!["sp1".into()])
        .add_parent("parent3")
        .add_subtree_parent("subtree1", "sp2")
        .remove_empty_subtrees()
        .build();

    let mut builder2 = Entry::builder("root");
    builder2.set_parents_mut(vec!["parent1".into(), "parent2".into()]);
    builder2.set_subtree_data_mut("subtree1", "data1");
    builder2.set_subtree_parents_mut("subtree1", vec!["sp1".into()]);
    builder2.add_parent_mut("parent3");
    builder2.add_subtree_parent_mut("subtree1", "sp2");
    builder2.remove_empty_subtrees_mut();
    let entry2 = builder2.build();

    assert_eq!(entry1.id(), entry2.id());
}

#[test]
fn test_entrybuilder_empty_subtree_removal() {
    let make = || {
        Entry::builder("root")
            .set_subtree_data("subtree1", "data1")
            .set_subtree_data("empty", "")
    };

    let entry1 = make().remove_empty_subtrees().build();

    let mut builder2 = make();
    builder2.remove_empty_subtrees_mut();
    let entry2 = builder2.build();

    assert_eq!(entry1.subtrees().len(), 1);
    assert_eq!(entry2.subtrees().len(), 1);

    assert_eq!(entry1.id(), entry2.id());

    assert!(entry1.in_subtree("subtree1"));
    assert!(!entry1.in_subtree("empty"));
}

#[test]
fn test_entrybuilder_parent_deduplication() {
    let entry = Entry::builder("test_root")
        .set_parents(vec![
            "parent1".into(),
            "parent2".into(),
            "parent1".into(),
        ])
        .set_subtree_data("subtree1", "data1")
        .set_subtree_parents(
            "subtree1",
            vec!["sp1".into(), "sp2".into(), "sp1".into()],
        )
        .build();

    let tree_parents = entry.parents();
    assert_eq!(tree_parents.len(), 2);
    assert!(contains(tree_parents, "parent1"));
    assert!(contains(tree_parents, "parent2"));

    let subtree_parents = entry.subtree_parents("subtree1").unwrap();
    assert_eq!(subtree_parents.len(), 2);
    assert!(contains(subtree_parents, "sp1"));
    assert!(contains(subtree_parents, "sp2"));
}

#[test]
fn test_entrybuilder_id_stability() {
    let entry1 = Entry::builder("test_root")
        .set_parents(vec!["parent1".into(), "parent2".into()])
        .set_subtree_data("subtree1", "data1")
        .set_subtree_data("subtree2", "data2")
        .set_subtree_parents("subtree1", vec!["sp1".into()])
        .build();

    let entry2 = Entry::builder("test_root")
        .set_parents(vec!["parent2".into(), "parent1".into()])
        .set_subtree_data("subtree2", "data2")
        .set_subtree_data("subtree1", "data1")
        .set_subtree_parents("subtree1", vec!["sp1".into()])
        .build();

    let entry3 = Entry::builder("test_root")
        .set_subtree_data("subtree1", "data1")
        .set_subtree_data("subtree2", "data2")
        .set_parents(vec!["parent1".into(), "parent2".into()])
        .set_subtree_parents("subtree1", vec!["sp1".into()])
        .build();

    assert_same_id(&entry1, &entry2);
    assert_same_id(&entry2, &entry3);
}

#[test]
fn test_id_determinism_with_complex_structure() {
    let entry_a = create_complex_entry_with_order("complex_root", false);
    let entry_b = create_complex_entry_with_order("complex_root", true);

    assert_same_id(&entry_a, &entry_b);
}

#[test]
fn test_entrybuilder_edge_cases() {
    let empty_builder = Entry::builder("");
    let empty_entry = empty_builder.build();
    assert_eq!(empty_entry.root(), "");
    assert!(empty_entry.parents().is_empty());
    assert!(empty_entry.subtrees().is_empty());

    let entry_with_empty_subtree = Entry::builder("test_root")
        .set_subtree_data("", "empty_subtree_data")
        .build();

    assert!(entry_with_empty_subtree.in_subtree(""));
    assert_eq!(
        entry_with_empty_subtree.data("").unwrap(),
        "empty_subtree_data"
    );

    let root_override = Entry::builder("test_root")
        .set_subtree_data(ROOT, "root_data")
        .build();

    assert!(root_override.in_subtree(ROOT));
    assert_eq!(root_override.data(ROOT).unwrap(), "root_data");
    assert_eq!(root_override.root(), "test_root");
}

#[test]
fn test_entrybuilder_add_parent_methods() {
    let mut builder = Entry::builder("test_root");
    builder.add_parent_mut("parent1");
    let builder = builder.add_parent("parent2");
    let entry = builder.build();

    let parents = entry.parents();
    assert_eq!(parents.len(), 2);
    assert!(contains(parents, "parent1"));
    assert!(contains(parents, "parent2"));

    let entry2 = Entry::builder("test_root")
        .set_parents(vec!["parent1".into(), "parent2".into()])
        .add_parent("parent3")
        .build();

    let parents2 = entry2.parents();
    assert_eq!(parents2.len(), 3);
    assert!(contains(parents2, "parent3"));
}

#[test]
fn test_entrybuilder_subtree_parent_methods() {
    let mut builder = Entry::builder("test_root").set_subtree_data("subtree1", "data1");
    builder.add_subtree_parent_mut("subtree1", "sp1");
    let builder = builder.add_subtree_parent("subtree1", "sp2");
    let entry = builder.build();

    let subtree_parents = entry.subtree_parents("subtree1").unwrap();
    assert_eq!(subtree_parents.len(), 2);
    assert!(contains(subtree_parents, "sp1"));
    assert!(contains(subtree_parents, "sp2"));

    let entry2 = Entry::builder("test_root")
        .set_subtree_data("subtree1", "data1")
        .set_subtree_parents("subtree1", vec!["sp1".into(), "sp2".into()])
        .add_subtree_parent("subtree1", "sp3")
        .build();

    let subtree_parents2 = entry2.subtree_parents("subtree1").unwrap();
    assert_eq!(subtree_parents2.len(), 3);
    assert!(contains(subtree_parents2, "sp3"));

    // A subtree that has parents but no payload is dropped when the entry is
    // built: an entry keeps no subtree with an empty payload.
    let entry3 = Entry::builder("test_root")
        .add_subtree_parent("new_subtree", "sp1")
        .build();

    assert!(!entry3.in_subtree("new_subtree"));
    assert!(entry3.subtree_parents("new_subtree").is_none());
}

#[test]
fn signing_keeps_the_id() {
    let mut entry = Entry::builder("root").set_subtree_data("s", "d").build();
    let before = entry.id();
    entry.set_sig(eidetica::entry::SigInfo {
        key: Some("k".to_string()),
        sig: Some("abc".to_string()),
    });
    assert_eq!(entry.id(), before);
    assert_eq!(entry.sig().key.as_deref(), Some("k"));
}

#[test]
fn canonical_bytes_frame_every_field() {
    let entry = Entry::builder("r")
        .add_parent("p")
        .set_subtree_data("s", "d")
        .add_subtree_parent("s", "q")
        .build();
    assert_eq!(entry.canonical_bytes(), b"1:r1:1:p1:1:s1:d1:1:q".to_vec());
}
