use mst_parser::{parse, Error, Limits, Node, Parser};

fn render(nodes: &[Node]) -> String {
    let mut out = String::new();
    for n in nodes {
        match n {
            Node::Text(t) => out.push_str(t),
            Node::Variable { parts } => {
                out.push_str("{{");
                out.push_str(&render(parts));
                out.push_str("}}");
            }
        }
    }
    out
}

fn count(nodes: &[Node]) -> usize {
    nodes
        .iter()
        .map(|n| match n {
            Node::Text(_) => 1,
            Node::Variable { parts } => 1 + count(parts),
        })
        .sum()
}

fn depth(nodes: &[Node]) -> usize {
    nodes
        .iter()
        .map(|n| match n {
            Node::Text(_) => 0,
            Node::Variable { parts } => 1 + depth(parts),
        })
        .max()
        .unwrap_or(0)
}

fn all_variables_nonempty(nodes: &[Node]) -> bool {
    nodes.iter().all(|n| match n {
        Node::Text(_) => true,
        Node::Variable { parts } => !parts.is_empty() && all_variables_nonempty(parts),
    })
}

const SAMPLES: [&str; 8] = [
    "",
    "plain",
    "Hello {{name}}!",
    "{{key.{{sub}}}}",
    "Config: {{service.{{env}}.port}}",
    "a}}b{{c}}}",
    "{{{x}}",
    "x { y } {{z}}{",
];

#[test]
fn variables_are_never_empty() {
    for s in SAMPLES {
        let nodes = parse(s, &Limits::default()).unwrap();
        assert!(all_variables_nonempty(&nodes), "{s}");
    }
}

#[test]
fn round_trip_reproduces_input() {
    for s in SAMPLES {
        let nodes = parse(s, &Limits::default()).unwrap();
        assert_eq!(render(&nodes), s);
    }
}

#[test]
fn results_stay_within_limits() {
    let limits = Limits {
        max_depth: 2,
        max_nodes: 6,
    };
    let nodes = parse("Config: {{service.{{env}}.port}}", &limits).unwrap();
    assert_eq!(count(&nodes), 6);
    assert_eq!(depth(&nodes), 2);
    for s in SAMPLES {
        if let Ok(nodes) = parse(s, &limits) {
            assert!(count(&nodes) <= 6);
            assert!(depth(&nodes) <= 2);
        }
    }
}

#[test]
fn parsing_is_repeatable() {
    let parser = Parser::new(Limits::default());
    for s in SAMPLES {
        assert_eq!(parser.parse(s), parser.parse(s));
        assert_eq!(parser.parse(s), parse(s, &Limits::default()));
    }
    assert_eq!(parser.parse("{{a"), parse("{{a", &Limits::default()));
}

#[test]
fn empty_input_gives_no_nodes() {
    assert_eq!(parse("", &Limits::default()), Ok(vec![]));
}

#[test]
fn zero_node_limit_fails_on_first_node() {
    let limits = Limits {
        max_depth: 5,
        max_nodes: 0,
    };
    assert_eq!(
        parse("abc", &limits),
        Err(Error::NodeLimitExceeded { limit: 0, offset: 0 })
    );
    assert_eq!(
        parse("{{a}}", &limits),
        Err(Error::NodeLimitExceeded { limit: 0, offset: 0 })
    );
    assert_eq!(parse("", &limits), Ok(vec![]));
}

#[test]
fn zero_depth_limit_fails_on_first_tag() {
    let limits = Limits {
        max_depth: 0,
        max_nodes: 50,
    };
    assert_eq!(
        parse("ab{{c}}", &limits),
        Err(Error::DepthExceeded { limit: 0, offset: 2 })
    );
    assert_eq!(parse("abc", &limits), Ok(vec![Node::Text("abc".into())]));
}

#[test]
fn default_limits_values() {
    let l = Limits::default();
    assert_eq!(l.max_depth, 5);
    assert_eq!(l.max_nodes, 50);
}

#[test]
fn node_limit_counts_variable_itself() {
    let limits = Limits {
        max_depth: 5,
        max_nodes: 1,
    };
    assert_eq!(
        parse("ab{{c}}", &limits),
        Err(Error::NodeLimitExceeded { limit: 1, offset: 2 })
    );
}

#[test]
fn unclosed_reports_innermost_tag() {
    assert_eq!(
        parse("x{{a{{b}}", &Limits::default()),
        Err(Error::UnclosedVariable { offset: 1 })
    );
}

#[test]
fn empty_nested_variable() {
    assert_eq!(
        parse("{{a{{}}}}", &Limits::default()),
        Err(Error::EmptyVariable { offset: 3 })
    );
}

#[test]
fn offsets_are_byte_offsets() {
    assert_eq!(
        parse("é{{x", &Limits::default()),
        Err(Error::UnclosedVariable { offset: 2 })
    );
}

#[test]
fn multibyte_text_is_kept_whole() {
    let nodes = parse("héllo {{wörld}} ✓", &Limits::default()).unwrap();
    assert_eq!(
        nodes,
        vec![
            Node::Text("héllo ".into()),
            Node::Variable {
                parts: vec![Node::Text("wörld".into())]
            },
            Node::Text(" ✓".into()),
        ]
    );
}

#[test]
fn lone_braces_are_text() {
    assert_eq!(
        parse("{a}", &Limits::default()),
        Ok(vec![Node::Text("{a}".into())])
    );
    assert_eq!(
        parse("{{a}b}}", &Limits::default()),
        Ok(vec![Node::Variable {
            parts: vec![Node::Text("a}b".into())]
        }])
    );
}
