use mst_parser::parser;
use mst_parser::{Error, Limits, Node, Parser};

#[test]
fn parser_test_plain_text() {
    let input = "Hello World";
    let nodes = parser::parse(input).unwrap();
    assert_eq!(nodes, vec![Node::Text("Hello World".into())]);
}

#[test]
fn parser_test_simple_variable() {
    let input = "Hello {{name}}!";
    let nodes = parser::parse(input).unwrap();
    assert_eq!(
        nodes,
        vec![
            Node::Text("Hello ".into()),
            Node::Variable {
                parts: vec![Node::Text("name".into())]
            },
            Node::Text("!".into())
        ]
    );
}

#[test]
fn parser_test_nested_variable() {
    let input = "{{key.{{sub}}}}";
    let nodes = parser::parse(input).unwrap();

    match &nodes[0] {
        Node::Variable { parts } => {
            assert_eq!(parts.len(), 2);
            assert_eq!(parts[0], Node::Text("key.".into()));
            match &parts[1] {
                Node::Variable { parts: sub_parts } => {
                    assert_eq!(sub_parts[0], Node::Text("sub".into()));
                }
                Node::Text(_) => panic!("Expected inner variable"),
            }
        }
        Node::Text(_) => panic!("Expected outer variable"),
    }
}

#[test]
fn parser_test_unclosed_variable() {
    let input = "Hello {{name";
    let err = parser::parse(input).unwrap_err();
    match err {
        Error::UnclosedVariable { offset } => assert_eq!(offset, 6),
        _ => panic!("Unexpected error: {err:?}"),
    }
}

#[test]
fn parser_test_depth_limit() {
    let limits = Limits {
        max_depth: 1,
        max_nodes: 100,
    };
    let parser = Parser::new(limits);
    let input = "{{a{{b}}}}";
    let err = parser.parse(input).unwrap_err();
    match err {
        Error::DepthExceeded { limit, offset } => {
            assert_eq!(limit, 1);
            assert_eq!(offset, 3);
        }
        _ => panic!("Unexpected error: {err:?}"),
    }
}

#[test]
fn parser_test_node_limit() {
    let limits = Limits {
        max_depth: 10,
        max_nodes: 2,
    };
    let parser = Parser::new(limits);
    let input = "abc{{d}}";
    let err = parser.parse(input).unwrap_err();
    match err {
        Error::NodeLimitExceeded { limit, offset } => {
            assert_eq!(limit, 2);
            assert_eq!(offset, 5);
        }
        _ => panic!("Unexpected error: {err:?}"),
    }
}

#[test]
fn parser_test_consecutive_braces() {
    let input = "{{{}}";
    let nodes = parser::parse(input).unwrap();
    match &nodes[0] {
        Node::Variable { parts } => {
            assert_eq!(parts[0], Node::Text("{".into()));
        }
        Node::Text(_) => panic!("Expected variable"),
    }
}

#[test]
fn test_empty_variable() {
    let input = "{{}}";
    let err = parser::parse(input).unwrap_err();
    match err {
        Error::EmptyVariable { offset } => assert_eq!(offset, 0),
        _ => panic!("Unexpected error: {err:?}"),
    }
}

#[test]
fn test_top_level_closing_braces() {
    let input = "hello}}world";
    let nodes = parser::parse(input).unwrap();
    assert_eq!(nodes, vec![Node::Text("hello}}world".into())]);
}
