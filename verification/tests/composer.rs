use topos_data_bridge::{
    compose_chain, AttributeMap, Diagnostic, SchemaMorphism, SchemaObject, TransformError,
};

fn schema(name: &str, attributes: &[&str]) -> SchemaObject {
    SchemaObject {
        name: name.to_string(),
        attributes: attributes.iter().map(|a| a.to_string()).collect(),
    }
}

fn renaming(source: &str, target: &str, pairs: &[(&str, &str)]) -> SchemaMorphism {
    let mut attribute_map = AttributeMap::new();
    for (key, value) in pairs {
        attribute_map.insert(key.to_string(), value.to_string());
    }
    SchemaMorphism { source: source.to_string(), target: target.to_string(), attribute_map }
}

fn pairs(list: &[(&str, &str)]) -> Vec<(String, String)> {
    list.iter().map(|(a, b)| (a.to_string(), b.to_string())).collect()
}

#[test]
fn empty_chain_composes_to_identity() {
    let source = schema("A", &["id", "name"]);
    let (map, diagnostics) = compose_chain(&vec![], &source, false).unwrap();
    assert_eq!(map.entries(), pairs(&[("id", "id"), ("name", "name")]));
    assert_eq!(map.steps(), pairs(&[]));
    assert_eq!(map.len(), 2);
    assert!(diagnostics.is_empty());
    let (strict_map, strict_diagnostics) = compose_chain(&vec![], &source, true).unwrap();
    assert_eq!(strict_map.entries(), pairs(&[("id", "id"), ("name", "name")]));
    assert!(strict_diagnostics.is_empty());
}

#[test]
fn identity_ignores_repeated_attributes() {
    let source = schema("A", &["id", "name", "id"]);
    let (map, diagnostics) = compose_chain(&vec![], &source, true).unwrap();
    assert_eq!(map.entries(), pairs(&[("id", "id"), ("name", "name")]));
    assert!(diagnostics.is_empty());
}

#[test]
fn single_morphism_composes_to_its_map() {
    let source = schema("UserV1", &["id", "name"]);
    let chain = vec![renaming("UserV1", "UserV2", &[("id", "uuid"), ("name", "fullName")])];
    let (map, diagnostics) = compose_chain(&chain, &source, false).unwrap();
    assert_eq!(map.entries(), pairs(&[("id", "uuid"), ("name", "fullName")]));
    assert_eq!(map.steps(), pairs(&[("UserV1", "UserV2")]));
    assert_eq!(map.target_of(&"id".to_string()), Some(&"uuid".to_string()));
    assert_eq!(map.target_of(&"uuid".to_string()), None);
    assert!(diagnostics.is_empty());
}

#[test]
fn two_morphisms_compose_their_renamings() {
    let source = schema("A", &["a", "b"]);
    let chain = vec![
        renaming("A", "B", &[("a", "a1"), ("b", "b1")]),
        renaming("B", "C", &[("b1", "b2"), ("a1", "a2")]),
    ];
    let (map, diagnostics) = compose_chain(&chain, &source, false).unwrap();
    assert_eq!(map.entries(), pairs(&[("a", "a2"), ("b", "b2")]));
    assert_eq!(map.steps(), pairs(&[("A", "B"), ("B", "C")]));
    assert!(diagnostics.is_empty());
}

#[test]
fn unmapped_value_is_dropped_and_reported() {
    let source = schema("A", &["x"]);
    let chain = vec![renaming("A", "B", &[("x", "y")]), renaming("B", "C", &[("z", "w")])];
    let (map, diagnostics) = compose_chain(&chain, &source, false).unwrap();
    assert_eq!(map.entries(), pairs(&[]));
    assert_eq!(map.len(), 0);
    assert_eq!(
        diagnostics,
        vec![Diagnostic::DroppedAttribute {
            source_attribute: "x".to_string(),
            attribute: "y".to_string(),
            step: 1,
        }]
    );
}

#[test]
fn drops_are_reported_step_by_step() {
    let source = schema("A", &["a", "b", "c"]);
    let chain = vec![
        renaming("A", "B", &[("a", "a1"), ("b", "b1"), ("c", "c1")]),
        renaming("B", "C", &[("a1", "a2"), ("c1", "c2")]),
        renaming("C", "D", &[("c2", "c3")]),
    ];
    let (map, diagnostics) = compose_chain(&chain, &source, true).unwrap();
    assert_eq!(map.entries(), pairs(&[("c", "c3")]));
    assert_eq!(
        diagnostics,
        vec![
            Diagnostic::DroppedAttribute {
                source_attribute: "b".to_string(),
                attribute: "b1".to_string(),
                step: 1,
            },
            Diagnostic::DroppedAttribute {
                source_attribute: "a".to_string(),
                attribute: "a2".to_string(),
                step: 2,
            },
        ]
    );
}

#[test]
fn conflict_keeps_first_source() {
    let source = schema("A", &["first", "last", "age"]);
    let chain = vec![renaming(
        "A",
        "B",
        &[("first", "name"), ("age", "years"), ("last", "name")],
    )];
    let (map, diagnostics) = compose_chain(&chain, &source, false).unwrap();
    assert_eq!(map.entries(), pairs(&[("first", "name"), ("age", "years")]));
    assert_eq!(
        diagnostics,
        vec![Diagnostic::CompositionConflict {
            target_attribute: "name".to_string(),
            candidates: vec!["first".to_string(), "last".to_string()],
        }]
    );
}

#[test]
fn conflict_is_an_error_in_strict_mode() {
    let source = schema("A", &["first", "last"]);
    let chain = vec![renaming("A", "B", &[("first", "name"), ("last", "name")])];
    let outcome = compose_chain(&chain, &source, true);
    assert_eq!(
        outcome.err(),
        Some(TransformError::CompositionConflict {
            target_attribute: "name".to_string(),
            candidates: vec!["first".to_string(), "last".to_string()],
        })
    );
}

#[test]
fn conflict_arising_along_the_chain() {
    let source = schema("A", &["a", "b", "c"]);
    let chain = vec![
        renaming("A", "B", &[("a", "p"), ("b", "q"), ("c", "r")]),
        renaming("B", "C", &[("p", "t"), ("q", "u"), ("r", "t")]),
    ];
    let (map, diagnostics) = compose_chain(&chain, &source, false).unwrap();
    assert_eq!(map.entries(), pairs(&[("a", "t"), ("b", "u")]));
    assert_eq!(
        diagnostics,
        vec![Diagnostic::CompositionConflict {
            target_attribute: "t".to_string(),
            candidates: vec!["a".to_string(), "c".to_string()],
        }]
    );
    assert!(compose_chain(&chain, &source, true).is_err());
}

#[test]
fn several_conflicts_in_order_of_targets() {
    let source = schema("A", &[]);
    let chain = vec![renaming(
        "A",
        "B",
        &[("a", "t"), ("b", "u"), ("c", "u"), ("d", "t"), ("e", "t"), ("f", "v")],
    )];
    let (map, diagnostics) = compose_chain(&chain, &source, false).unwrap();
    assert_eq!(map.entries(), pairs(&[("a", "t"), ("b", "u"), ("f", "v")]));
    assert_eq!(
        diagnostics,
        vec![
            Diagnostic::CompositionConflict {
                target_attribute: "t".to_string(),
                candidates: vec!["a".to_string(), "d".to_string(), "e".to_string()],
            },
            Diagnostic::CompositionConflict {
                target_attribute: "u".to_string(),
                candidates: vec!["b".to_string(), "c".to_string()],
            },
        ]
    );
    assert_eq!(
        compose_chain(&chain, &source, true).err(),
        Some(TransformError::CompositionConflict {
            target_attribute: "t".to_string(),
            candidates: vec!["a".to_string(), "d".to_string(), "e".to_string()],
        })
    );
}

#[test]
fn drops_come_before_conflicts() {
    let source = schema("A", &[]);
    let chain = vec![
        renaming("A", "B", &[("a", "p"), ("b", "q"), ("c", "r")]),
        renaming("B", "C", &[("p", "t"), ("r", "t")]),
    ];
    let (map, diagnostics) = compose_chain(&chain, &source, false).unwrap();
    assert_eq!(map.entries(), pairs(&[("a", "t")]));
    assert_eq!(
        diagnostics,
        vec![
            Diagnostic::DroppedAttribute {
                source_attribute: "b".to_string(),
                attribute: "q".to_string(),
                step: 1,
            },
            Diagnostic::CompositionConflict {
                target_attribute: "t".to_string(),
                candidates: vec!["a".to_string(), "c".to_string()],
            },
        ]
    );
}
