use topos_data_bridge::{AttributeMap, SchemaCategory, SchemaMorphism, SchemaObject, TransformError};

fn object(name: &str, attributes: &[&str]) -> SchemaObject {
    SchemaObject {
        name: name.to_string(),
        attributes: attributes.iter().map(|a| a.to_string()).collect(),
    }
}

fn morphism(source: &str, target: &str, pairs: &[(&str, &str)]) -> SchemaMorphism {
    let mut attribute_map = AttributeMap::new();
    for (key, value) in pairs {
        attribute_map.insert(key.to_string(), value.to_string());
    }
    SchemaMorphism { source: source.to_string(), target: target.to_string(), attribute_map }
}

#[test]
fn attribute_map_starts_empty() {
    let map = AttributeMap::new();
    assert_eq!(map.len(), 0);
    assert_eq!(map.get(&"id".to_string()), None);
    assert_eq!(map.to_entries(), Vec::<(String, String)>::new());
}

#[test]
fn attribute_map_insert_appends_in_order() {
    let mut map = AttributeMap::new();
    assert_eq!(map.insert("id".to_string(), "uuid".to_string()), None);
    assert_eq!(map.insert("name".to_string(), "fullName".to_string()), None);
    assert_eq!(map.len(), 2);
    assert_eq!(
        map.to_entries(),
        vec![
            ("id".to_string(), "uuid".to_string()),
            ("name".to_string(), "fullName".to_string()),
        ]
    );
    assert_eq!(map.get(&"name".to_string()), Some(&"fullName".to_string()));
    assert_eq!(map.position(&"name".to_string()), Some(1));
    assert_eq!(map.position(&"uuid".to_string()), None);
}

#[test]
fn attribute_map_insert_replaces_in_place() {
    let mut map = AttributeMap::new();
    map.insert("id".to_string(), "uuid".to_string());
    map.insert("name".to_string(), "fullName".to_string());
    let former = map.insert("id".to_string(), "key".to_string());
    assert_eq!(former, Some("uuid".to_string()));
    assert_eq!(map.len(), 2);
    assert_eq!(
        map.to_entries(),
        vec![
            ("id".to_string(), "key".to_string()),
            ("name".to_string(), "fullName".to_string()),
        ]
    );
}

#[test]
fn attribute_map_clone_is_equal() {
    let mut map = AttributeMap::new();
    map.insert("a".to_string(), "b".to_string());
    let copy = map.clone();
    assert_eq!(copy, map);
    assert_eq!(copy.to_entries(), vec![("a".to_string(), "b".to_string())]);
}

#[test]
fn morphism_and_object_clone_are_equal() {
    let m = morphism("A", "B", &[("x", "y"), ("u", "v")]);
    assert_eq!(m.clone(), m);
    let o = object("A", &["x", "u"]);
    assert_eq!(o.clone(), o);
}

#[test]
fn new_category_is_empty() {
    let cat = SchemaCategory::new();
    assert!(!cat.has_object("UserV1"));
    assert!(cat.get_object("UserV1").is_none());
    assert_eq!(cat.morphism_count(), 0);
    assert!(cat.morphisms_from("UserV1").is_empty());
}

#[test]
fn add_object_registers_by_name() {
    let mut cat = SchemaCategory::new();
    cat.add_object(object("UserV1", &["id", "name"]));
    cat.add_object(object("UserV2", &["uuid", "fullName"]));
    assert!(cat.has_object("UserV1"));
    assert!(cat.has_object("UserV2"));
    assert!(!cat.has_object("UserV3"));
    assert_eq!(cat.get_object("UserV2"), Some(&object("UserV2", &["uuid", "fullName"])));
}

#[test]
fn add_object_replaces_silently() {
    let mut cat = SchemaCategory::new();
    cat.add_object(object("UserV1", &["id", "name"]));
    cat.add_object(object("Other", &["z"]));
    cat.add_object(object("UserV1", &["id", "name", "email"]));
    assert_eq!(cat.get_object("UserV1"), Some(&object("UserV1", &["id", "name", "email"])));
    assert_eq!(cat.get_object("Other"), Some(&object("Other", &["z"])));
}

#[test]
fn add_object_strict_rejects_duplicate() {
    let mut cat = SchemaCategory::new();
    assert_eq!(cat.add_object_strict(object("UserV1", &["id"])), Ok(()));
    let second = cat.add_object_strict(object("UserV1", &["id", "name"]));
    assert_eq!(second, Err(TransformError::DuplicateObject { name: "UserV1".to_string() }));
    assert_eq!(cat.get_object("UserV1"), Some(&object("UserV1", &["id"])));
}

#[test]
fn add_morphism_needs_both_ends() {
    let mut cat = SchemaCategory::new();
    cat.add_object(object("A", &["x"]));
    let no_target = cat.add_morphism(morphism("A", "B", &[("x", "y")]));
    assert_eq!(no_target, Err(TransformError::UnknownObject { name: "B".to_string() }));
    let no_source = cat.add_morphism(morphism("C", "A", &[("x", "y")]));
    assert_eq!(no_source, Err(TransformError::UnknownObject { name: "C".to_string() }));
    let neither = cat.add_morphism(morphism("C", "D", &[]));
    assert_eq!(neither, Err(TransformError::UnknownObject { name: "C".to_string() }));
    assert_eq!(cat.morphism_count(), 0);
    cat.add_object(object("B", &["y"]));
    assert_eq!(cat.add_morphism(morphism("A", "B", &[("x", "y")])), Ok(()));
    assert_eq!(cat.morphism_count(), 1);
}

#[test]
fn morphisms_from_keeps_insertion_order() {
    let mut cat = SchemaCategory::new();
    cat.add_object(object("A", &["x"]));
    cat.add_object(object("B", &["y"]));
    cat.add_object(object("C", &["z"]));
    cat.add_morphism(morphism("A", "B", &[("x", "y")])).unwrap();
    cat.add_morphism(morphism("B", "C", &[("y", "z")])).unwrap();
    cat.add_morphism(morphism("A", "C", &[("x", "z")])).unwrap();
    cat.add_morphism(morphism("A", "B", &[("x", "other")])).unwrap();
    let from_a = cat.morphisms_from("A");
    assert_eq!(from_a.len(), 3);
    assert_eq!(from_a[0], &morphism("A", "B", &[("x", "y")]));
    assert_eq!(from_a[1], &morphism("A", "C", &[("x", "z")]));
    assert_eq!(from_a[2], &morphism("A", "B", &[("x", "other")]));
    let again = cat.morphisms_from("A");
    assert_eq!(again, from_a);
    assert_eq!(cat.morphisms_from("C").len(), 0);
}
