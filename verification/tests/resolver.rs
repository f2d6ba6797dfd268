use topos_data_bridge::{AttributeMap, SchemaCategory, SchemaMorphism, SchemaObject, TransformError};

fn node(name: &str) -> SchemaObject {
    SchemaObject { name: name.to_string(), attributes: vec!["x".to_string()] }
}

fn edge(source: &str, target: &str, label: &str) -> SchemaMorphism {
    let mut attribute_map = AttributeMap::new();
    attribute_map.insert("x".to_string(), label.to_string());
    SchemaMorphism { source: source.to_string(), target: target.to_string(), attribute_map }
}

fn graph(nodes: &[&str], edges: &[(&str, &str)]) -> SchemaCategory {
    let mut cat = SchemaCategory::new();
    for name in nodes {
        cat.add_object(node(name));
    }
    for (i, (source, target)) in edges.iter().enumerate() {
        cat.add_morphism(edge(source, target, &format!("m{}", i))).unwrap();
    }
    cat
}

#[test]
fn chain_to_itself_is_empty() {
    let cat = graph(&["A", "B"], &[("A", "B"), ("B", "A")]);
    assert_eq!(cat.resolve_chain("A", "A"), Some(vec![]));
    assert_eq!(cat.find_morphism_chain("A", "A"), Ok(vec![]));
    assert_eq!(cat.resolve_chain("Z", "Z"), Some(vec![]));
}

#[test]
fn direct_morphism_is_found() {
    let cat = graph(&["A", "B"], &[("A", "B")]);
    assert_eq!(cat.resolve_chain("A", "B"), Some(vec![0]));
    assert_eq!(cat.find_morphism_chain("A", "B"), Ok(vec![edge("A", "B", "m0")]));
}

#[test]
fn morphisms_are_directed() {
    let cat = graph(&["A", "B"], &[("A", "B")]);
    assert_eq!(cat.resolve_chain("B", "A"), None);
    assert_eq!(
        cat.find_morphism_chain("B", "A"),
        Err(TransformError::NoPathFound { start: "B".to_string(), end: "A".to_string() })
    );
}

#[test]
fn chain_follows_several_morphisms() {
    let cat = graph(&["A", "B", "C", "D"], &[("C", "D"), ("A", "B"), ("B", "C")]);
    assert_eq!(cat.resolve_chain("A", "D"), Some(vec![1, 2, 0]));
    assert_eq!(
        cat.find_morphism_chain("A", "D"),
        Ok(vec![edge("A", "B", "m1"), edge("B", "C", "m2"), edge("C", "D", "m0")])
    );
}

#[test]
fn shortest_chain_wins_over_earlier_morphisms() {
    let cat = graph(&["A", "B", "C"], &[("A", "B"), ("B", "C"), ("A", "C")]);
    assert_eq!(cat.resolve_chain("A", "C"), Some(vec![2]));
}

#[test]
fn first_added_morphism_wins_among_parallel_ones() {
    let cat = graph(&["A", "B"], &[("A", "B"), ("A", "B")]);
    assert_eq!(cat.resolve_chain("A", "B"), Some(vec![0]));
    assert_eq!(cat.find_morphism_chain("A", "B"), Ok(vec![edge("A", "B", "m0")]));
}

#[test]
fn ties_are_broken_by_insertion_order() {
    let cat = graph(&["A", "B", "C", "D"], &[("A", "B"), ("A", "C"), ("C", "D"), ("B", "D")]);
    assert_eq!(cat.resolve_chain("A", "D"), Some(vec![0, 3]));
    let other = graph(&["A", "B", "C", "D"], &[("A", "C"), ("A", "B"), ("B", "D"), ("C", "D")]);
    assert_eq!(other.resolve_chain("A", "D"), Some(vec![0, 3]));
}

#[test]
fn search_ends_on_cycles() {
    let cat = graph(&["V1", "V2", "V3"], &[("V1", "V2"), ("V2", "V1")]);
    assert_eq!(cat.resolve_chain("V1", "V3"), None);
    assert_eq!(cat.resolve_chain("V1", "V2"), Some(vec![0]));
    assert_eq!(cat.resolve_chain("V2", "V1"), Some(vec![1]));
    let looped = graph(&["V1", "V2", "V3"], &[("V1", "V1"), ("V1", "V2"), ("V2", "V1"), ("V2", "V3")]);
    assert_eq!(looped.resolve_chain("V1", "V3"), Some(vec![1, 3]));
}

#[test]
fn unregistered_start_has_no_chain() {
    let cat = graph(&["A", "B"], &[("A", "B")]);
    assert_eq!(cat.resolve_chain("Z", "B"), None);
    assert_eq!(cat.resolve_chain("A", "Z"), None);
}

#[test]
fn resolution_is_repeatable() {
    let cat = graph(
        &["A", "B", "C", "D", "E"],
        &[("A", "B"), ("A", "C"), ("B", "D"), ("C", "D"), ("D", "E"), ("E", "A")],
    );
    let first = cat.resolve_chain("A", "E");
    assert_eq!(first, Some(vec![0, 2, 4]));
    for _ in 0..5 {
        assert_eq!(cat.resolve_chain("A", "E"), first);
    }
}
