//! Tests for the schema registry and the field collection.

use tql::state::{SqlFields, SqlTables, Type};

fn two_fields_reversed() -> SqlFields {
    let mut fields = SqlFields::new();
    fields.insert("b".to_string(), Type::String);
    fields.insert("a".to_string(), Type::I32);
    fields
}

#[test]
fn register_then_lookup_round_trip() {
    let mut tables = SqlTables::new();
    tables.register("T".to_string(), two_fields_reversed());
    let found = tables.lookup("T").expect("registered table must be found");
    assert_eq!(found.fields.len(), 2);
    assert_eq!(found.fields[0], ("a".to_string(), Type::I32));
    assert_eq!(found.fields[1], ("b".to_string(), Type::String));
}

#[test]
fn field_order_is_sorted_regardless_of_insertion_order() {
    let mut forward = SqlFields::new();
    forward.insert("a".to_string(), Type::I32);
    forward.insert("b".to_string(), Type::String);
    let backward = two_fields_reversed();
    assert_eq!(forward.fields, backward.fields);
}

#[test]
fn register_overwrite_replaces_fields() {
    let mut tables = SqlTables::new();
    let mut first = SqlFields::new();
    first.insert("a".to_string(), Type::I32);
    let mut second = SqlFields::new();
    second.insert("b".to_string(), Type::String);
    tables.register("T".to_string(), first);
    tables.register("T".to_string(), second);
    let found = tables.lookup("T").expect("registered table must be found");
    assert_eq!(found.fields.len(), 1);
    assert_eq!(found.fields[0], ("b".to_string(), Type::String));
    assert_eq!(tables.enumerate().len(), 1);
}

#[test]
fn lookup_missing_table_on_empty_registry() {
    let tables = SqlTables::new();
    assert!(tables.lookup("Unknown").is_none());
}

#[test]
fn lookup_missing_table_on_non_matching_registry() {
    let mut tables = SqlTables::new();
    tables.register("T".to_string(), SqlFields::new());
    assert!(tables.lookup("Unknown").is_none());
}

#[test]
fn field_insert_overwrites_existing_binding() {
    let mut fields = SqlFields::new();
    fields.insert("a".to_string(), Type::I32);
    fields.insert("a".to_string(), Type::String);
    assert_eq!(fields.fields.len(), 1);
    assert_eq!(fields.fields[0], ("a".to_string(), Type::String));
}

#[test]
fn field_get_finds_binding() {
    let fields = two_fields_reversed();
    assert_eq!(fields.get("a"), Some(&Type::I32));
    assert_eq!(fields.get("b"), Some(&Type::String));
    assert_eq!(fields.get("c"), None);
}

#[test]
fn enumerate_exposes_the_catalog() {
    let mut tables = SqlTables::new();
    tables.register("Posts".to_string(), SqlFields::new());
    tables.register("Users".to_string(), two_fields_reversed());
    let catalog = tables.enumerate();
    assert_eq!(catalog.len(), 2);
    assert_eq!(catalog[0].0, "Posts");
    assert_eq!(catalog[1].0, "Users");
    assert_eq!(catalog[1].1.fields.len(), 2);
}
