use oxigraph::model::{GraphName, Literal, NamedNode, Quad};
use rsp_rs::QuadContainer;

fn quad(subject: &str, value: &str) -> Quad {
    Quad::new(
        NamedNode::new(subject).unwrap(),
        NamedNode::new("http://example.org/value").unwrap(),
        Literal::new_simple_literal(value),
        GraphName::DefaultGraph,
    )
}

#[test]
fn test_quad_container() {
    let mut container = QuadContainer::new(Vec::new(), 0);

    let quad1 = Quad::new(
        NamedNode::new("http://example.org/subject1").unwrap(),
        NamedNode::new("http://example.org/predicate1").unwrap(),
        Literal::new_simple_literal("object1"),
        NamedNode::new("http://example.org/graph1").unwrap(),
    );

    let quad2 = Quad::new(
        NamedNode::new("http://example.org/subject2").unwrap(),
        NamedNode::new("http://example.org/predicate2").unwrap(),
        Literal::new_simple_literal("object2"),
        NamedNode::new("http://example.org/graph2").unwrap(),
    );

    container.add(quad1.clone(), 1);
    assert_eq!(container.len(), 1);
    assert!(container.contains(&quad1));

    container.add(quad2.clone(), 2);
    assert_eq!(container.len(), 2);
    assert!(container.contains(&quad2));

    container.remove(&quad1, 3);
    assert_eq!(container.len(), 1);
    assert!(!container.contains(&quad1));

    container.clear(4);
    assert_eq!(container.len(), 0);
    assert!(container.is_empty());
}

#[test]
fn new_keeps_each_quad_once() {
    let a = quad("http://example.org/a", "1");
    let b = quad("http://example.org/b", "2");
    let container = QuadContainer::new(vec![a.clone(), b.clone(), a.clone(), a.clone()], 7);
    assert_eq!(container.len(), 2);
    assert!(container.contains(&a));
    assert!(container.contains(&b));
    assert_eq!(container.last_timestamp_changed, 7);
    assert_eq!(container.elements, vec![a, b]);
}

#[test]
fn add_of_a_held_quad_changes_only_the_stamp() {
    let a = quad("http://example.org/a", "1");
    let mut container = QuadContainer::new(Vec::new(), 0);
    container.add(a.clone(), 10);
    container.add(a.clone(), 20);
    assert_eq!(container.len(), 1);
    assert_eq!(container.last_timestamp_changed, 20);
}

#[test]
fn quads_that_differ_in_one_term_are_distinct() {
    let a = quad("http://example.org/a", "1");
    let other_value = quad("http://example.org/a", "2");
    let other_subject = quad("http://example.org/b", "1");
    let mut container = QuadContainer::new(Vec::new(), 0);
    container.add(a.clone(), 1);
    assert!(container.contains(&a));
    assert!(!container.contains(&other_value));
    assert!(!container.contains(&other_subject));
    assert!(container.contains(&a.clone()));
}

#[test]
fn remove_of_an_absent_quad_changes_only_the_stamp() {
    let a = quad("http://example.org/a", "1");
    let b = quad("http://example.org/b", "2");
    let mut container = QuadContainer::new(vec![a.clone()], 1);
    container.remove(&b, 5);
    assert_eq!(container.len(), 1);
    assert!(container.contains(&a));
    assert_eq!(container.last_timestamp_changed, 5);
}

#[test]
fn a_quad_is_found_until_it_is_removed() {
    let a = quad("http://example.org/a", "1");
    let b = quad("http://example.org/b", "2");
    let mut container = QuadContainer::new(Vec::new(), 0);
    assert!(!container.contains(&a));
    container.add(a.clone(), 1);
    container.add(b.clone(), 2);
    assert!(container.contains(&a));
    container.remove(&b, 3);
    assert!(container.contains(&a));
    assert!(!container.contains(&b));
    container.remove(&a, 4);
    assert!(!container.contains(&a));
    container.add(a.clone(), 5);
    assert!(container.contains(&a));
    container.clear(6);
    assert!(!container.contains(&a));
    assert!(container.is_empty());
    assert_eq!(container.last_timestamp_changed, 6);
}

#[test]
fn an_empty_container_is_empty() {
    let container = QuadContainer::new(Vec::new(), 3);
    assert!(container.is_empty());
    assert_eq!(container.len(), 0);
    let filled = QuadContainer::new(vec![quad("http://example.org/a", "1")], 3);
    assert!(!filled.is_empty());
}
