use oxigraph::model::{GraphName, Literal, NamedNode, Quad};
use oxigraph::sparql::QueryResults;
use rsp_rs::{execute_query, QuadContainer, R2RError, R2ROperator};

fn solutions(results: QueryResults<'static>) -> usize {
    if let QueryResults::Solutions(solutions) = results {
        solutions.count()
    } else {
        panic!("Expected Solutions result");
    }
}

#[test]
fn test_r2r_operator_creation() {
    let query = "SELECT * WHERE { ?s ?p ?o }".to_string();
    let operator = R2ROperator::new(query.clone());
    assert_eq!(operator.query(), query);
    assert_eq!(operator.static_data_size(), 0);
}

#[test]
fn test_add_static_data() {
    let query = "SELECT * WHERE { ?s ?p ?o }".to_string();
    let mut operator = R2ROperator::new(query);

    let quad = Quad::new(
        NamedNode::new("http://example.org/subject").unwrap(),
        NamedNode::new("http://example.org/predicate").unwrap(),
        NamedNode::new("http://example.org/object").unwrap(),
        GraphName::DefaultGraph,
    );

    operator.add_static_data(quad);
    assert_eq!(operator.static_data_size(), 1);
}

#[test]
fn test_execute_query() {
    let query = "SELECT * WHERE { ?s ?p ?o }".to_string();
    let mut operator = R2ROperator::new(query);

    // Add some static data
    let static_quad = Quad::new(
        NamedNode::new("http://example.org/static").unwrap(),
        NamedNode::new("http://example.org/isStatic").unwrap(),
        Literal::new_simple_literal("true"),
        GraphName::DefaultGraph,
    );
    operator.add_static_data(static_quad.clone());

    // Create a container with some quads
    let stream_quad = Quad::new(
        NamedNode::new("http://example.org/stream").unwrap(),
        NamedNode::new("http://example.org/hasValue").unwrap(),
        Literal::new_simple_literal("42"),
        GraphName::DefaultGraph,
    );
    let container = QuadContainer::new(vec![stream_quad], 0);

    // Execute the query
    let results = operator.execute(&container).unwrap();

    // Check that we got results
    if let QueryResults::Solutions(solutions) = results {
        let count = solutions.count();
        assert_eq!(count, 2); // One from static data, one from container
    }
}

#[test]
fn test_r2r_basic_query() {
    let query = r#"
        PREFIX ex: <http://example.org/>
        SELECT ?s ?p ?o
        WHERE {
            ?s ?p ?o .
        }
    "#
    .to_string();

    let r2r = R2ROperator::new(query);

    // Create a container with some quads
    let mut container = QuadContainer::new(Vec::new(), 1000);

    let quad = Quad::new(
        NamedNode::new("http://example.org/subject1").unwrap(),
        NamedNode::new("http://example.org/predicate1").unwrap(),
        Literal::new_simple_literal("object1"),
        GraphName::DefaultGraph,
    );

    container.add(quad, 1000);

    // Execute query
    let results = r2r.execute(&container);
    assert!(results.is_ok(), "Query execution should succeed");
}

#[test]
fn test_r2r_with_named_graph() {
    let query = r#"
        PREFIX ex: <http://example.org/>
        SELECT ?sensor ?temperature
        WHERE {
            GRAPH ex:tempWindow {
                ?sensor ex:temperature ?temperature .
            }
        }
    "#
    .to_string();

    let r2r = R2ROperator::new(query);

    // Create a container with quad in named graph
    let mut container = QuadContainer::new(Vec::new(), 1000);

    let quad = Quad::new(
        NamedNode::new("http://example.org/sensor1").unwrap(),
        NamedNode::new("http://example.org/temperature").unwrap(),
        Literal::new_typed_literal(
            "25",
            NamedNode::new("http://www.w3.org/2001/XMLSchema#integer").unwrap(),
        ),
        GraphName::NamedNode(NamedNode::new("http://example.org/tempWindow").unwrap()),
    );

    container.add(quad, 1000);

    // Execute query
    let results = r2r.execute(&container).unwrap();

    if let QueryResults::Solutions(solutions) = results {
        let count = solutions.count();
        assert_eq!(count, 1, "Should return exactly one result");
    } else {
        panic!("Expected Solutions result");
    }
}

#[test]
fn test_r2r_with_static_data() {
    let query = r#"
        PREFIX ex: <http://example.org/>
        SELECT ?sensor ?location
        WHERE {
            ?sensor ex:location ?location .
        }
    "#
    .to_string();

    let mut r2r = R2ROperator::new(query);

    // Add static data
    let static_quad = Quad::new(
        NamedNode::new("http://example.org/sensor1").unwrap(),
        NamedNode::new("http://example.org/location").unwrap(),
        Literal::new_simple_literal("Room A"),
        GraphName::DefaultGraph,
    );

    r2r.add_static_data(static_quad);

    // Create empty container
    let container = QuadContainer::new(Vec::new(), 1000);

    // Execute query - should find static data
    let results = r2r.execute(&container).unwrap();

    if let QueryResults::Solutions(solutions) = results {
        let count = solutions.count();
        assert_eq!(count, 1, "Should return static data result");
    } else {
        panic!("Expected Solutions result");
    }
}

fn event(n: i64) -> Quad {
    Quad::new(
        NamedNode::new(format!("http://example.org/event{}", n)).unwrap(),
        NamedNode::new("http://example.org/at").unwrap(),
        Literal::new_simple_literal(format!("{}", n)),
        GraphName::DefaultGraph,
    )
}

#[test]
fn static_data_is_kept_once() {
    let mut operator = R2ROperator::new("SELECT * WHERE { ?s ?p ?o }".to_string());
    operator.add_static_data(event(1));
    operator.add_static_data(event(1));
    operator.add_static_data(event(2));
    assert_eq!(operator.static_data_size(), 2);
    assert_eq!(operator.query(), "SELECT * WHERE { ?s ?p ?o }");
}

#[test]
fn the_store_holds_container_and_static_quads_and_no_others() {
    let mut operator = R2ROperator::new("SELECT * WHERE { ?s ?p ?o }".to_string());
    operator.add_static_data(event(1));
    operator.add_static_data(event(2));
    let container = QuadContainer::new(vec![event(2), event(3), event(4)], 9);
    let store = operator.load(&container).unwrap();
    assert_eq!(store.len().unwrap(), 4);
    for n in 1..=4 {
        assert!(store.contains(&event(n)).unwrap());
    }
    assert!(!store.contains(&event(5)).unwrap());
    let empty = R2ROperator::new("ASK { ?s ?p ?o }".to_string())
        .load(&QuadContainer::new(Vec::new(), 0))
        .unwrap();
    assert!(empty.is_empty().unwrap());
}

#[test]
fn a_quad_in_both_container_and_static_data_is_one_solution() {
    let mut operator = R2ROperator::new("SELECT * WHERE { ?s ?p ?o }".to_string());
    operator.add_static_data(event(1));
    let container = QuadContainer::new(vec![event(1), event(2)], 0);
    assert_eq!(solutions(operator.execute(&container).unwrap()), 2);
}

#[test]
fn execute_select_gives_one_line_per_solution() {
    let operator = R2ROperator::new(
        "SELECT ?o WHERE { <http://example.org/event7> ?p ?o }".to_string(),
    );
    let container = QuadContainer::new(vec![event(7), event(8)], 0);
    let lines = operator.execute_select(&container).unwrap();
    assert_eq!(lines.len(), 1);
    assert!(lines[0].contains("\"7\""));
    assert!(!lines[0].contains("\"8\""));
}

#[test]
fn execute_select_gives_no_line_for_a_boolean_result() {
    let operator = R2ROperator::new("ASK { ?s ?p ?o }".to_string());
    let container = QuadContainer::new(vec![event(7)], 0);
    assert!(matches!(operator.execute(&container), Ok(QueryResults::Boolean(true))));
    assert!(operator.execute_select(&container).unwrap().is_empty());
}

#[test]
fn a_query_that_does_not_parse_is_a_syntax_error() {
    let operator = R2ROperator::new("SELECT WHERE FROM".to_string());
    let container = QuadContainer::new(vec![event(7)], 0);
    assert!(matches!(operator.execute(&container), Err(R2RError::Syntax(_))));
    assert!(matches!(operator.execute_select(&container), Err(R2RError::Syntax(_))));
}

#[test]
fn execute_query_sees_the_container_alone() {
    let container = QuadContainer::new(vec![event(1), event(2), event(3)], 0);
    let results = execute_query(&container, "SELECT * WHERE { ?s ?p ?o }").unwrap();
    assert_eq!(solutions(results), 3);
    let none = execute_query(&QuadContainer::new(Vec::new(), 0), "SELECT * WHERE { ?s ?p ?o }");
    assert_eq!(solutions(none.unwrap()), 0);
    assert!(matches!(execute_query(&container, "nonsense"), Err(R2RError::Syntax(_))));
}

#[test]
fn loading_never_fails() {
    let mut operator = R2ROperator::new("not even a query".to_string());
    assert!(operator.load(&QuadContainer::new(Vec::new(), 0)).is_ok());
    for n in 0..50 {
        operator.add_static_data(event(n));
    }
    let quads: Vec<Quad> = (25..200).map(event).collect();
    let store = operator.load(&QuadContainer::new(quads, i64::MAX)).unwrap();
    assert_eq!(store.len().unwrap(), 200);
    // each call makes a store of its own
    let again = operator.load(&QuadContainer::new(vec![event(1000)], 0)).unwrap();
    assert_eq!(again.len().unwrap(), 51);
    assert_eq!(store.len().unwrap(), 200);
}

#[test]
fn an_error_is_the_parsers_or_the_evaluators() {
    let container = QuadContainer::new(vec![event(1)], 0);
    for text in ["", "SELECT", "ASK { ?s ?p }", "SELECT * WHERE { ?s ?p ?o } LIMIT -1"] {
        let operator = R2ROperator::new(text.to_string());
        match operator.execute(&container) {
            Err(R2RError::Storage(_)) => panic!("loading cannot fail"),
            Err(R2RError::Syntax(_)) | Err(R2RError::Evaluation(_)) => {}
            Ok(_) => panic!("{:?} is no query", text),
        }
        assert!(!matches!(operator.execute_select(&container), Err(R2RError::Storage(_)) | Ok(_)));
        assert!(!matches!(execute_query(&container, text), Err(R2RError::Storage(_)) | Ok(_)));
    }
}

fn reading(value: &str) -> Quad {
    Quad::new(
        NamedNode::new("http://example.org/sensor").unwrap(),
        NamedNode::new("http://example.org/reads").unwrap(),
        Literal::new_typed_literal(
            value,
            NamedNode::new("http://www.w3.org/2001/XMLSchema#integer").unwrap(),
        ),
        GraphName::DefaultGraph,
    )
}

#[test]
fn the_store_keeps_a_typed_literal_by_its_value() {
    // two quads to the container, one to the store
    let container = QuadContainer::new(vec![reading("01"), reading("1")], 0);
    assert_eq!(container.len(), 2);
    let operator = R2ROperator::new("SELECT ?o WHERE { ?s ?p ?o }".to_string());
    let store = operator.load(&container).unwrap();
    assert_eq!(store.len().unwrap(), 1);
    let lines = operator.execute_select(&container).unwrap();
    assert_eq!(lines.len(), 1);
    assert!(lines[0].contains("\"1\""));
    // a literal that is no number is kept as it is written
    let odd = QuadContainer::new(vec![reading("one"), reading("1")], 0);
    assert_eq!(operator.load(&odd).unwrap().len().unwrap(), 2);
}

#[test]
fn a_boolean_answer_has_no_lines() {
    let lines = rsp_rs::answer_lines(rsp_rs::Answer::Boolean(true)).unwrap();
    assert!(lines.is_empty());
    let lines = rsp_rs::answer_lines(rsp_rs::Answer::Boolean(false)).unwrap();
    assert!(lines.is_empty());
    // a graph result gives none either
    let container = QuadContainer::new(vec![event(1)], 0);
    let construct = R2ROperator::new("CONSTRUCT { ?s ?p ?o } WHERE { ?s ?p ?o }".to_string());
    assert!(matches!(construct.execute(&container), Ok(QueryResults::Graph(_))));
    assert!(construct.execute_select(&container).unwrap().is_empty());
}
