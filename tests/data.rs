use eidetica::crdt::{Nested, Value};

fn create_kvoverwrite(pairs: &[(&str, &str)]) -> Nested {
    let mut kv = Nested::new();
    for (k, v) in pairs {
        kv.set(k, v);
    }
    kv
}

fn text(v: Option<&Value>) -> Option<&str> {
    v.and_then(|v| v.as_text()).map(|s| s.as_str())
}

#[test]
fn test_kvoverwrite_basic_operations() {
    let mut kv = create_kvoverwrite(&[]);

    let key = "test_key";
    let value = "test_value";
    kv.set(key, value);

    assert_eq!(kv.get_text(key), Some(&value.to_string()));
    assert_eq!(kv.get_text("non_existent_key"), None);

    let new_value = "new_value";
    kv.set(key, new_value);
    assert_eq!(kv.get_text(key), Some(&new_value.to_string()));
}

#[test]
fn test_kvoverwrite_merge() {
    let kv1 = create_kvoverwrite(&[("key1", "value1"), ("key2", "value2")]);

    let kv2 = create_kvoverwrite(&[("key2", "value2_updated"), ("key3", "value3")]);

    let merged = kv1.merge(&kv2).expect("Merge failed");

    assert_eq!(merged.get_text("key1"), Some(&"value1".to_string()));
    assert_eq!(merged.get_text("key2"), Some(&"value2_updated".to_string()));
    assert_eq!(merged.get_text("key3"), Some(&"value3".to_string()));
}

#[test]
fn test_kvoverwrite_multiple_merge_operations() {
    let base = create_kvoverwrite(&[
        ("key1", "initial1"),
        ("key2", "initial2"),
        ("common", "base"),
    ]);

    let branch1 = create_kvoverwrite(&[
        ("key1", "branch1_value"),
        ("branch1_key", "branch1_only"),
        ("common", "branch1"),
    ]);

    let branch2 = create_kvoverwrite(&[
        ("key2", "branch2_value"),
        ("branch2_key", "branch2_only"),
        ("common", "branch2"),
    ]);

    let merged1 = base.merge(&branch1).expect("First merge failed");
    let merged1_2 = merged1.merge(&branch2).expect("Second merge failed");

    let merged2 = base.merge(&branch2).expect("First merge failed");
    let merged2_1 = merged2.merge(&branch1).expect("Second merge failed");

    assert_eq!(merged1_2.get_text("key1"), Some(&"branch1_value".to_string()));
    assert_eq!(merged1_2.get_text("key2"), Some(&"branch2_value".to_string()));
    assert_eq!(
        merged1_2.get_text("branch1_key"),
        Some(&"branch1_only".to_string())
    );
    assert_eq!(
        merged1_2.get_text("branch2_key"),
        Some(&"branch2_only".to_string())
    );

    assert_eq!(merged2_1.get_text("key1"), Some(&"branch1_value".to_string()));
    assert_eq!(merged2_1.get_text("key2"), Some(&"branch2_value".to_string()));
    assert_eq!(
        merged2_1.get_text("branch1_key"),
        Some(&"branch1_only".to_string())
    );
    assert_eq!(
        merged2_1.get_text("branch2_key"),
        Some(&"branch2_only".to_string())
    );

    assert_eq!(merged1_2.get_text("common"), Some(&"branch2".to_string()));
    assert_eq!(merged2_1.get_text("common"), Some(&"branch1".to_string()));
}

#[test]
fn test_kvoverwrite_remove() {
    let mut kv = Nested::new();

    kv.set("key1", "value1");
    assert_eq!(kv.get_text("key1"), Some(&"value1".to_string()));

    let removed = kv.remove("key1");
    assert_eq!(removed.as_ref().and_then(|v| v.as_text()), Some(&"value1".to_string()));
    assert!(kv.get("key1").is_none());

    let removed = kv.remove("nonexistent");
    assert!(removed.is_none());
}

#[test]
fn test_kvoverwrite_merge_behavior() {
    let mut kv = Nested::new();

    kv.set("key1", "value1");
    kv.set("key2", "value2");

    assert_eq!(kv.get_text("key1"), Some(&"value1".to_string()));

    let removed = kv.remove("key1");
    assert_eq!(removed.as_ref().and_then(|v| v.as_text()), Some(&"value1".to_string()));

    assert!(kv.get("key1").is_none());
    assert!(!kv.contains_key("key1"));

    let mut kv2 = Nested::new();
    kv2.set("key1", "new_value1");
    kv2.set("key3", "value3");

    let merged = kv.merge(&kv2).expect("Merge failed");
    assert_eq!(merged.get_text("key1"), Some(&"new_value1".to_string()));
    assert_eq!(merged.get_text("key2"), Some(&"value2".to_string()));
    assert_eq!(merged.get_text("key3"), Some(&"value3".to_string()));

    let kv3 = Nested::new();
    let final_merge = merged.merge(&kv3).expect("Second merge failed");
    assert_eq!(final_merge.get_text("key1"), Some(&"new_value1".to_string()));
    assert_eq!(final_merge.get_text("key2"), Some(&"value2".to_string()));
    assert_eq!(final_merge.get_text("key3"), Some(&"value3".to_string()));
}

#[test]
fn test_kvoverwrite_remove_nonexistent() {
    let mut kv = Nested::new();

    let result = kv.remove("nonexistent");
    assert!(result.is_none());

    assert!(!kv.contains_key("nonexistent"));
    assert!(kv.get("nonexistent").is_none());
}

#[test]
fn test_kvoverwrite_merge_with_removals() {
    let mut kv1 = Nested::new();
    kv1.set("key1", "value1");
    kv1.set("key2", "value2");
    kv1.remove("key1");

    let mut kv2 = Nested::new();
    kv2.set("key2", "updated2");
    kv2.set("key3", "value3");

    let merged = kv1.merge(&kv2).expect("Merge failed");

    assert!(merged.get("key1").is_none());
    assert_eq!(merged.get_text("key2"), Some(&"updated2".to_string()));
    assert_eq!(merged.get_text("key3"), Some(&"value3".to_string()));

    assert!(!merged.contains_key("key1"));
    assert!(merged.contains_key("key2"));
    assert!(merged.contains_key("key3"));
}

#[test]
fn test_kvnested_basic() {
    let kv = create_kvoverwrite(&[("key1", "value1"), ("key2", "value2")]);

    assert_eq!(text(kv.get("key1")), Some("value1"));
    assert_eq!(text(kv.get("key2")), Some("value2"));
    assert!(kv.get("non_existent").is_none());

    let mut nested = Nested::new();
    let inner = create_kvoverwrite(&[("inner1", "nested_value1"), ("inner2", "nested_value2")]);
    nested.set_value("outer", Value::Node(inner));

    let outer = nested.get("outer").and_then(|v| v.as_node()).expect("outer map");
    assert_eq!(outer.get_text("inner1"), Some(&"nested_value1".to_string()));
    assert_eq!(outer.get_text("inner2"), Some(&"nested_value2".to_string()));

    let kv1 = create_kvoverwrite(&[("a", "value_a"), ("b", "value_b")]);
    let kv2 = create_kvoverwrite(&[("b", "updated_b"), ("c", "value_c")]);

    let merged = kv1.merge(&kv2).expect("Merge failed");

    assert_eq!(text(merged.get("a")), Some("value_a"));
    assert_eq!(text(merged.get("b")), Some("updated_b"));
    assert_eq!(text(merged.get("c")), Some("value_c"));
}

#[test]
fn test_kvnested_tombstones() {
    let mut kv = create_kvoverwrite(&[("str_key", "str_value")]);

    let mut nested = Nested::new();
    nested.set("inner_key", "inner_value");
    kv.set_value("map_key", Value::Node(nested));

    let removed = kv.remove("str_key");
    assert_eq!(text(removed.as_ref()), Some("str_value"));

    assert!(kv.get("str_key").is_none());
    assert!(kv.get_raw("str_key").map(|v| v.is_deleted()).unwrap_or(false));

    let kv2 = create_kvoverwrite(&[("str_key", "revived_value")]);

    let merged = kv.merge(&kv2).expect("Merge failed");
    assert_eq!(text(merged.get("str_key")), Some("revived_value"));

    let mut kv3 = Nested::new();
    kv3.remove("map_key");

    let final_merged = merged.merge(&kv3).expect("Second merge failed");

    assert!(final_merged.get("map_key").is_none());
    assert!(final_merged.get_raw("map_key").map(|v| v.is_deleted()).unwrap_or(false));
    assert_eq!(text(final_merged.get("str_key")), Some("revived_value"));
}

#[test]
fn merge_with_empty_and_with_itself_changes_nothing() {
    let kv = create_kvoverwrite(&[("a", "1"), ("b", "2")]);
    let same = kv.merge(&kv).unwrap();
    assert_eq!(same.get_text("a"), Some(&"1".to_string()));
    assert_eq!(same.get_text("b"), Some(&"2".to_string()));
    let with_empty = kv.merge(&Nested::new()).unwrap();
    assert_eq!(with_empty.to_text(), kv.to_text());
}

#[test]
fn nested_maps_merge_key_by_key() {
    let mut a = Nested::new();
    a.set_value("m", Value::Node(create_kvoverwrite(&[("x", "1"), ("y", "2")])));
    let mut b = Nested::new();
    b.set_value("m", Value::Node(create_kvoverwrite(&[("y", "3"), ("z", "4")])));
    let merged = a.merge(&b).unwrap();
    let m = merged.get("m").and_then(|v| v.as_node()).unwrap();
    assert_eq!(m.get_text("x"), Some(&"1".to_string()));
    assert_eq!(m.get_text("y"), Some(&"3".to_string()));
    assert_eq!(m.get_text("z"), Some(&"4".to_string()));
}

#[test]
fn text_over_map_takes_the_later_side() {
    let mut a = Nested::new();
    a.set_value("k", Value::Node(create_kvoverwrite(&[("x", "1")])));
    let b = create_kvoverwrite(&[("k", "plain")]);
    let merged = a.merge(&b).unwrap();
    assert_eq!(merged.get_text("k"), Some(&"plain".to_string()));
}

#[test]
fn text_form_of_values() {
    let mut kv = Nested::new();
    kv.set("ab", "xyz");
    kv.remove("gone");
    assert_eq!(kv.to_text(), "M2:2:abT3:xyz4:goneD");
    assert_eq!(Nested::new().to_text(), "M0:");
}
