use serde_json::Value;
use topos_data_bridge::{
    rename_fields, compose_chain, AttributeMap, Diagnostic, SchemaCategory, SchemaMorphism,
    SchemaObject, TransformEngine, TransformError,
};

fn declared(name: &str, attributes: &[&str]) -> SchemaObject {
    SchemaObject {
        name: name.to_string(),
        attributes: attributes.iter().map(|a| a.to_string()).collect(),
    }
}

fn declared_map(source: &str, target: &str, pairs: &[(&str, &str)]) -> SchemaMorphism {
    let mut attribute_map = AttributeMap::new();
    for (key, value) in pairs {
        attribute_map.insert(key.to_string(), value.to_string());
    }
    SchemaMorphism { source: source.to_string(), target: target.to_string(), attribute_map }
}

fn record(fields: &[(&str, Value)]) -> Value {
    let mut map = serde_json::Map::new();
    for (key, value) in fields {
        map.insert(key.to_string(), value.clone());
    }
    Value::Object(map)
}

fn text(s: &str) -> Value {
    Value::String(s.to_string())
}

fn users() -> SchemaCategory {
    let mut cat = SchemaCategory::new();
    cat.add_object(declared("UserV1", &["id", "name"]));
    cat.add_object(declared("UserV2", &["uuid", "fullName"]));
    cat.add_morphism(declared_map("UserV1", "UserV2", &[("id", "uuid"), ("name", "fullName")]))
        .unwrap();
    cat
}

fn abc() -> SchemaCategory {
    let mut cat = SchemaCategory::new();
    cat.add_object(declared("A", &["x"]));
    cat.add_object(declared("B", &["y"]));
    cat.add_object(declared("C", &["w"]));
    cat.add_morphism(declared_map("A", "B", &[("x", "y")])).unwrap();
    cat.add_morphism(declared_map("B", "C", &[("z", "w")])).unwrap();
    cat
}

#[test]
fn user_v1_migrates_to_user_v2() {
    let engine = TransformEngine::new(users());
    let input = record(&[("id", text("abc-123")), ("name", text("Alice"))]);
    let (output, diagnostics) = engine.transform_data(&input, "UserV1", "UserV2").unwrap();
    assert_eq!(output, record(&[("uuid", text("abc-123")), ("fullName", text("Alice"))]));
    assert!(diagnostics.is_empty());
    assert_eq!(input, record(&[("id", text("abc-123")), ("name", text("Alice"))]));
}

#[test]
fn no_morphism_back_from_user_v2() {
    let engine = TransformEngine::new(users());
    let input = record(&[("uuid", text("abc-123")), ("fullName", text("Alice"))]);
    let outcome = engine.transform_data(&input, "UserV2", "UserV1");
    assert_eq!(
        outcome,
        Err(TransformError::NoPathFound {
            start: "UserV2".to_string(),
            end: "UserV1".to_string(),
        })
    );
}

#[test]
fn chain_with_a_gap_drops_the_field() {
    let engine = TransformEngine::new(abc());
    let input = record(&[("x", Value::from(1))]);
    let (output, diagnostics) = engine.transform_data(&input, "A", "C").unwrap();
    assert_eq!(output, record(&[]));
    assert_eq!(
        diagnostics,
        vec![Diagnostic::DroppedAttribute {
            source_attribute: "x".to_string(),
            attribute: "y".to_string(),
            step: 1,
        }]
    );
    let chain = engine.category().find_morphism_chain("A", "C").unwrap();
    let (map, _) = compose_chain(&chain, &declared("A", &["x"]), false).unwrap();
    assert_eq!(map.len(), 0);
    assert_eq!(map.target_of(&"x".to_string()), None);
}

#[test]
fn unknown_schemas_are_refused() {
    let engine = TransformEngine::new(users());
    let input = record(&[("id", text("abc-123"))]);
    assert_eq!(
        engine.transform_data(&input, "UserV0", "UserV2"),
        Err(TransformError::UnknownObject { name: "UserV0".to_string() })
    );
    assert_eq!(
        engine.transform_data(&input, "UserV1", "UserV9"),
        Err(TransformError::UnknownObject { name: "UserV9".to_string() })
    );
    assert_eq!(
        engine.transform_data(&input, "UserV0", "UserV9"),
        Err(TransformError::UnknownObject { name: "UserV0".to_string() })
    );
    assert_eq!(
        engine.transform_data(&input, "UserV0", "UserV0"),
        Err(TransformError::UnknownObject { name: "UserV0".to_string() })
    );
}

#[test]
fn unreachable_schema_gives_no_path_found() {
    let mut cat = abc();
    cat.add_object(declared("D", &["v"]));
    let engine = TransformEngine::new(cat);
    for value in [record(&[("x", Value::from(1))]), Value::Null, record(&[])] {
        assert_eq!(
            engine.transform_data(&value, "A", "D"),
            Err(TransformError::NoPathFound { start: "A".to_string(), end: "D".to_string() })
        );
        assert_eq!(
            engine.transform_data(&value, "C", "A"),
            Err(TransformError::NoPathFound { start: "C".to_string(), end: "A".to_string() })
        );
    }
}

#[test]
fn identity_projects_onto_declared_attributes() {
    let engine = TransformEngine::new(users());
    let input = record(&[
        ("id", text("abc-123")),
        ("extra", Value::Bool(true)),
        ("name", text("Alice")),
    ]);
    let (output, diagnostics) = engine.transform_data(&input, "UserV1", "UserV1").unwrap();
    assert_eq!(output, record(&[("id", text("abc-123")), ("name", text("Alice"))]));
    assert!(diagnostics.is_empty());
    let strict = TransformEngine::new_strict(users());
    let (strict_output, strict_diagnostics) =
        strict.transform_data(&input, "UserV1", "UserV1").unwrap();
    assert_eq!(strict_output, output);
    assert!(strict_diagnostics.is_empty());
}

#[test]
fn direct_and_stepwise_chains_agree() {
    let mut direct = SchemaCategory::new();
    direct.add_object(declared("A", &["a", "b"]));
    direct.add_object(declared("C", &["a2", "b2"]));
    direct.add_morphism(declared_map("A", "C", &[("b", "b2"), ("a", "a2")])).unwrap();
    let mut stepwise = SchemaCategory::new();
    stepwise.add_object(declared("A", &["a", "b"]));
    stepwise.add_object(declared("B", &["a1", "b1"]));
    stepwise.add_object(declared("C", &["a2", "b2"]));
    stepwise.add_morphism(declared_map("A", "B", &[("a", "a1"), ("b", "b1")])).unwrap();
    stepwise.add_morphism(declared_map("B", "C", &[("a1", "a2"), ("b1", "b2")])).unwrap();
    let input = record(&[("a", Value::from(1)), ("b", text("two")), ("c", Value::Null)]);
    let one = TransformEngine::new(direct).transform_data(&input, "A", "C").unwrap();
    let two = TransformEngine::new(stepwise).transform_data(&input, "A", "C").unwrap();
    assert_eq!(one.0, record(&[("a2", Value::from(1)), ("b2", text("two"))]));
    assert_eq!(one.0, two.0);
}

#[test]
fn transform_is_repeatable() {
    let mut cat = abc();
    cat.add_morphism(declared_map("A", "C", &[("x", "w")])).unwrap();
    cat.add_morphism(declared_map("A", "C", &[("x", "other")])).unwrap();
    let engine = TransformEngine::new(cat);
    let input = record(&[("x", Value::from(7)), ("q", Value::from(8))]);
    let first = engine.transform_data(&input, "A", "C");
    assert_eq!(first, Ok((record(&[("w", Value::from(7))]), vec![])));
    for _ in 0..5 {
        assert_eq!(engine.transform_data(&input, "A", "C"), first);
    }
}

#[test]
fn unmapped_fields_are_left_out() {
    let engine = TransformEngine::new(users());
    let input = record(&[("id", text("abc-123")), ("email", text("a@b.c"))]);
    let (output, diagnostics) = engine.transform_data(&input, "UserV1", "UserV2").unwrap();
    assert_eq!(output, record(&[("uuid", text("abc-123"))]));
    assert!(diagnostics.is_empty());
}

#[test]
fn dropped_attribute_is_reported_once() {
    let mut cat = SchemaCategory::new();
    cat.add_object(declared("A", &["a", "b"]));
    cat.add_object(declared("B", &["a1", "b1"]));
    cat.add_object(declared("C", &["a2"]));
    cat.add_morphism(declared_map("A", "B", &[("a", "a1"), ("b", "b1")])).unwrap();
    cat.add_morphism(declared_map("B", "C", &[("a1", "a2")])).unwrap();
    let engine = TransformEngine::new(cat);
    let input = record(&[("a", Value::from(1)), ("b", Value::from(2))]);
    let (output, diagnostics) = engine.transform_data(&input, "A", "C").unwrap();
    assert_eq!(output, record(&[("a2", Value::from(1))]));
    let about_b: Vec<&Diagnostic> = diagnostics
        .iter()
        .filter(|d| matches!(d, Diagnostic::DroppedAttribute { source_attribute, .. } if source_attribute == "b"))
        .collect();
    assert_eq!(about_b.len(), 1);
    let about_a = diagnostics
        .iter()
        .filter(|d| matches!(d, Diagnostic::DroppedAttribute { source_attribute, .. } if source_attribute == "a"))
        .count();
    assert_eq!(about_a, 0);
    let without_b = record(&[("a", Value::from(1))]);
    assert_eq!(engine.transform_data(&without_b, "A", "C").unwrap().0, output);
}

#[test]
fn conflict_keeps_the_first_field() {
    let mut cat = SchemaCategory::new();
    cat.add_object(declared("A", &["first", "last"]));
    cat.add_object(declared("B", &["name"]));
    cat.add_morphism(declared_map("A", "B", &[("first", "name"), ("last", "name")])).unwrap();
    let input = record(&[("last", text("Liddell")), ("first", text("Alice"))]);
    let engine = TransformEngine::new(cat);
    assert!(!engine.is_strict());
    let (output, diagnostics) = engine.transform_data(&input, "A", "B").unwrap();
    assert_eq!(output, record(&[("name", text("Alice"))]));
    assert_eq!(
        diagnostics,
        vec![Diagnostic::CompositionConflict {
            target_attribute: "name".to_string(),
            candidates: vec!["first".to_string(), "last".to_string()],
        }]
    );
}

#[test]
fn conflict_stops_a_strict_engine() {
    let mut cat = SchemaCategory::new();
    cat.add_object(declared("A", &["first", "last"]));
    cat.add_object(declared("B", &["name"]));
    cat.add_morphism(declared_map("A", "B", &[("first", "name"), ("last", "name")])).unwrap();
    let input = record(&[("last", text("Liddell")), ("first", text("Alice"))]);
    let engine = TransformEngine::new_strict(cat);
    assert!(engine.is_strict());
    assert_eq!(
        engine.transform_data(&input, "A", "B"),
        Err(TransformError::CompositionConflict {
            target_attribute: "name".to_string(),
            candidates: vec!["first".to_string(), "last".to_string()],
        })
    );
}

#[test]
fn values_that_are_no_records_give_an_empty_record() {
    let engine = TransformEngine::new(users());
    for value in [
        Value::Null,
        Value::Bool(true),
        Value::from(12),
        text("id"),
        Value::Array(vec![record(&[("id", text("abc-123"))])]),
    ] {
        let (output, diagnostics) = engine.transform_data(&value, "UserV1", "UserV2").unwrap();
        assert_eq!(output, record(&[]));
        assert!(output.is_object());
        assert!(diagnostics.is_empty());
    }
}

#[test]
fn nested_values_are_carried_whole() {
    let engine = TransformEngine::new(users());
    let nested = record(&[("first", text("Alice")), ("tags", Value::Array(vec![Value::from(1)]))]);
    let input = record(&[("name", nested.clone()), ("id", Value::Null)]);
    let (output, _) = engine.transform_data(&input, "UserV1", "UserV2").unwrap();
    assert_eq!(output, record(&[("fullName", nested), ("uuid", Value::Null)]));
}

#[test]
fn shortest_chain_decides_the_renaming() {
    let mut cat = abc();
    cat.add_morphism(declared_map("B", "C", &[("y", "late")])).unwrap();
    cat.add_morphism(declared_map("A", "C", &[("x", "short")])).unwrap();
    let engine = TransformEngine::new(cat);
    let input = record(&[("x", Value::from(1))]);
    let (output, diagnostics) = engine.transform_data(&input, "A", "C").unwrap();
    assert_eq!(output, record(&[("short", Value::from(1))]));
    assert!(diagnostics.is_empty());
}

#[test]
fn rename_fields_takes_fields_in_turn() {
    let chain = vec![declared_map("A", "B", &[("a", "x"), ("b", "y")])];
    let (map, _) = compose_chain(&chain, &declared("A", &[]), false).unwrap();
    let a = "a".to_string();
    let b = "b".to_string();
    let c = "c".to_string();
    let one = Value::from(1);
    let two = Value::from(2);
    let three = Value::from(3);
    let fields = vec![(&b, &two), (&c, &three), (&a, &one), (&b, &three)];
    let out = rename_fields(&map, &fields);
    assert_eq!(Value::Object(out), record(&[("x", Value::from(1)), ("y", Value::from(3))]));
    let none: Vec<(&String, &Value)> = vec![];
    assert_eq!(rename_fields(&map, &none).len(), 0);
}

#[test]
fn chain_migrates_like_its_morphisms_in_turn() {
    let first = declared_map("A", "B", &[("a", "a1"), ("b", "b1"), ("c", "c1")]);
    let second = declared_map("B", "C", &[("b1", "b2"), ("a1", "a2")]);
    let mut whole = SchemaCategory::new();
    whole.add_object(declared("A", &["a", "b", "c"]));
    whole.add_object(declared("B", &["a1", "b1", "c1"]));
    whole.add_object(declared("C", &["a2", "b2"]));
    whole.add_morphism(first.clone()).unwrap();
    whole.add_morphism(second.clone()).unwrap();
    let engine = TransformEngine::new(whole);
    let input = record(&[
        ("a", Value::from(1)),
        ("b", Value::from(2)),
        ("c", Value::from(3)),
        ("d", Value::from(4)),
    ]);
    let (at_once, _) = engine.transform_data(&input, "A", "C").unwrap();
    let (halfway, _) = engine.transform_data(&input, "A", "B").unwrap();
    assert_eq!(
        halfway,
        record(&[("a1", Value::from(1)), ("b1", Value::from(2)), ("c1", Value::from(3))])
    );
    let (in_turn, _) = engine.transform_data(&halfway, "B", "C").unwrap();
    assert_eq!(at_once, record(&[("a2", Value::from(1)), ("b2", Value::from(2))]));
    assert_eq!(at_once, in_turn);
}
