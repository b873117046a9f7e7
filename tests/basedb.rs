use eidetica::backend::InMemory;
use eidetica::basedb::BaseDB;
use eidetica::crdt::Nested;

#[test]
fn test_new_db_and_tree() {
    let backend = InMemory::new();
    let mut db = BaseDB::new(backend);
    let settings = Nested::new();
    let tree_result = db.new_tree(settings);
    assert!(tree_result.is_ok());
}

#[test]
fn test_load_tree() {
    let backend = InMemory::new();
    let mut db = BaseDB::new(backend);
    let settings = Nested::new();
    let tree = db.new_tree(settings).expect("Failed to create tree");
    let root_id = tree.root_id().clone();

    drop(tree);

    let loaded_tree_result = db.load_tree(&root_id);
    assert!(loaded_tree_result.is_ok());
    let loaded_tree = loaded_tree_result.unwrap();
    assert_eq!(loaded_tree.root_id(), &root_id);
}

#[test]
fn test_all_trees() {
    let backend = InMemory::new();
    let mut db = BaseDB::new(backend);

    let settings1 = Nested::new();
    let tree1 = db.new_tree(settings1).expect("Failed to create tree 1");
    let root_id1 = tree1.root_id().clone();

    let mut settings2 = Nested::new();
    settings2.set("name", "Tree2");
    let tree2 = db.new_tree(settings2).expect("Failed to create tree 2");
    let root_id2 = tree2.root_id().clone();

    let trees = db.all_trees().expect("Failed to get all trees");
    assert_eq!(trees.len(), 2);

    let found_ids: Vec<String> = trees.iter().map(|t| t.root_id().clone()).collect();
    assert!(found_ids.contains(&root_id1));
    assert!(found_ids.contains(&root_id2));
}

#[test]
fn test_get_backend() {
    let backend = InMemory::new();
    let db = BaseDB::new(backend);
    let retrieved_backend = db.backend();
    assert!(retrieved_backend.all_roots().is_empty());
}

#[test]
fn load_tree_of_unknown_root_fails() {
    let db = BaseDB::new(InMemory::new());
    assert!(db.load_tree("nope").is_err());
}
