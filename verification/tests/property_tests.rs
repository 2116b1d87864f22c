use shard_query_core::persistence::{
    CollectionPropertyMapping, CollectionPropertyPersistence, FileState,
};
use shard_query_core::properties::StorageError;

fn open_fresh() -> CollectionPropertyPersistence {
    CollectionPropertyPersistence::open(FileState { contents: None, writable: true }).unwrap()
}

fn disk_string(p: &CollectionPropertyPersistence) -> String {
    p.disk.contents.as_ref().unwrap().iter().collect()
}

#[test]
fn test_properties() {
    let mut persistence = open_fresh();
    persistence
        .insert(
            ("property_name".to_string(), "property_value_1".to_string()),
            "test".to_string(),
        )
        .unwrap();
    let props = persistence.get("test").unwrap();
    assert_eq!(
        props,
        vec![("property_name".to_string(), "property_value_1".to_string())]
    );
    persistence
        .insert(
            ("property_name".to_string(), "property_value_2".to_string()),
            "test".to_string(),
        )
        .unwrap();
    let props = persistence.get("test").unwrap();
    assert_eq!(
        props,
        vec![("property_name".to_string(), "property_value_2".to_string())]
    );
    persistence
        .delete("test".to_string(), "property_name".to_string())
        .unwrap();
    assert!(persistence.get("test").is_none());
    // The collection left the file with its last property.
    assert!(!disk_string(&persistence).contains("test"));
}

#[test]
fn open_initializes_empty_file() {
    let persistence = open_fresh();
    assert_eq!(disk_string(&persistence), "{}");
    assert!(persistence.get("anything").is_none());
}

#[test]
fn every_mutation_is_persisted() {
    let mut persistence = open_fresh();
    persistence
        .insert(("k".to_string(), "v1".to_string()), "col".to_string())
        .unwrap();
    assert_eq!(disk_string(&persistence), r#"{"col":{"k":"v1"}}"#);
    persistence
        .insert(("k2".to_string(), "v2".to_string()), "col".to_string())
        .unwrap();
    assert_eq!(disk_string(&persistence), r#"{"col":{"k":"v1","k2":"v2"}}"#);
    persistence
        .delete("col".to_string(), "k".to_string())
        .unwrap();
    assert_eq!(disk_string(&persistence), r#"{"col":{"k2":"v2"}}"#);
}

#[test]
fn round_trip_through_serialized_form() {
    let mut persistence = open_fresh();
    persistence
        .insert(("a".to_string(), "1".to_string()), "first".to_string())
        .unwrap();
    persistence
        .insert(("b".to_string(), "2".to_string()), "first".to_string())
        .unwrap();
    persistence
        .insert(("needs \"escaping\"".to_string(), "a\\b".to_string()), "second".to_string())
        .unwrap();
    let image = persistence.mapping.save();
    let reloaded = CollectionPropertyMapping::load(&image).unwrap();
    assert_eq!(reloaded.entries, persistence.mapping.entries);
    assert_eq!(reloaded.save(), image);
    let round_tripped = persistence.mapping.saved_then_loaded().unwrap();
    assert_eq!(round_tripped.entries, persistence.mapping.entries);
}

#[test]
fn load_rejects_garbage() {
    let garbage: Vec<char> = "not json".chars().collect();
    let r = CollectionPropertyMapping::load(&garbage);
    assert!(matches!(r, Err(StorageError::ServiceError { .. })));
    let empty_inner: Vec<char> = r#"{"a":{}}"#.chars().collect();
    let r = CollectionPropertyMapping::load(&empty_inner);
    assert!(matches!(r, Err(StorageError::ServiceError { .. })));
    let duplicate: Vec<char> = r#"{"a":{"k":"v"},"a":{"k":"v"}}"#.chars().collect();
    let r = CollectionPropertyMapping::load(&duplicate);
    assert!(matches!(r, Err(StorageError::ServiceError { .. })));
}

#[test]
fn failed_save_leaves_prior_state_intact() {
    let mut persistence = open_fresh();
    persistence
        .insert(("k".to_string(), "v1".to_string()), "col".to_string())
        .unwrap();
    let disk_before = persistence.disk.contents.clone();
    // Simulate an interrupted save: the writer fails from here on.
    persistence.disk.writable = false;
    let r = persistence.insert(("k".to_string(), "v2".to_string()), "col".to_string());
    assert!(r.is_err());
    assert_eq!(persistence.disk.contents, disk_before);
    assert_eq!(
        persistence.get("col").unwrap(),
        vec![("k".to_string(), "v1".to_string())]
    );
    let r = persistence.delete("col".to_string(), "k".to_string());
    assert!(r.is_err());
    assert_eq!(persistence.disk.contents, disk_before);
    // Deleting from an absent collection never writes, so it still succeeds.
    persistence.delete("absent".to_string(), "k".to_string()).unwrap();
}

#[test]
fn delete_is_a_no_op_for_absent_collections() {
    let mut persistence = open_fresh();
    persistence
        .insert(("k".to_string(), "v".to_string()), "col".to_string())
        .unwrap();
    persistence
        .delete("other".to_string(), "k".to_string())
        .unwrap();
    assert_eq!(
        persistence.get("col").unwrap(),
        vec![("k".to_string(), "v".to_string())]
    );
}

#[test]
fn get_config_path_appends_file_name() {
    let dir = std::path::Path::new("storage");
    let path = CollectionPropertyPersistence::get_config_path(dir);
    assert!(path.ends_with("properties.json"));
    assert!(path.starts_with("storage"));
}

#[test]
fn loaded_strings_are_rebuilt_from_the_file() {
    // The parsed values must come from the file's characters, unescaped.
    let image: Vec<char> = r#"{"c":{"quote\"key":"back\\slash"}}"#.chars().collect();
    let m = CollectionPropertyMapping::load(&image).unwrap();
    assert_eq!(m.entries.len(), 1);
    assert_eq!(m.entries[0].0, "c");
    assert_eq!(m.entries[0].1[0].0, "quote\"key");
    assert_eq!(m.entries[0].1[0].1, "back\\slash");
}
