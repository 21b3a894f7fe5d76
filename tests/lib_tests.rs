use mst_parser::{parse, Error, Limits, Node};

#[test]
fn lib_test_plain_text() {
    let input = "Hello World";
    let nodes = parse(input, &Limits::default()).unwrap();
    assert_eq!(nodes, vec![Node::Text("Hello World".into())]);
}

#[test]
fn lib_test_simple_variable() {
    let input = "Hello {{name}}!";
    let nodes = parse(input, &Limits::default()).unwrap();
    assert_eq!(
        nodes,
        vec![
            Node::Text("Hello ".into()),
            Node::Variable {
                parts: vec![Node::Text("name".into())]
            },
            Node::Text("!".into())
        ]
    );
}

#[test]
fn lib_test_nested_variable() {
    let input = "{{key.{{sub}}}}";
    let nodes = parse(input, &Limits::default()).unwrap();

    match &nodes[0] {
        Node::Variable { parts } => {
            assert_eq!(parts.len(), 2);
            assert_eq!(parts[0], Node::Text("key.".into()));
            match &parts[1] {
                Node::Variable { parts: sub_parts } => {
                    assert_eq!(sub_parts[0], Node::Text("sub".into()));
                }
                _ => panic!("Expected inner variable"),
            }
        }
        _ => panic!("Expected outer variable"),
    }
}

#[test]
fn lib_test_unclosed_variable() {
    let input = "Hello {{name";
    let err = parse(input, &Limits::default()).unwrap_err();
    assert!(matches!(err, Error::UnclosedVariable { .. }));
}

#[test]
fn lib_test_depth_limit() {
    let limits = Limits {
        max_depth: 1,
        max_nodes: 100,
    };
    let input = "{{a{{b}}}}";
    let err = parse(input, &limits).unwrap_err();
    assert!(matches!(err, Error::DepthExceeded { limit: 1, .. }));
}

#[test]
fn lib_test_node_limit() {
    let limits = Limits {
        max_depth: 10,
        max_nodes: 2,
    };
    let input = "abc{{d}}";
    let err = parse(input, &limits).unwrap_err();
    assert!(matches!(err, Error::NodeLimitExceeded { .. }));
}

#[test]
fn lib_test_consecutive_braces() {
    let input = "{{{}}";
    let nodes = parse(input, &Limits::default()).unwrap();
    match &nodes[0] {
        Node::Variable { parts } => {
            assert_eq!(parts[0], Node::Text("{".into()));
        }
        _ => panic!("Expected variable"),
    }
}
