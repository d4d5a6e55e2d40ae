use tfcheck::operations::{Capture, EngineMatch};
use tfcheck::rule::{Decision, NodeInfo, Rule, RuleError};
use tfcheck::syntax::SyntaxNode;

fn leaf(kind: &str, text: &str, id: usize) -> SyntaxNode {
    SyntaxNode {
        named: true,
        kind: kind.into(),
        text: text.into(),
        id,
        start: 0,
        end: 0,
        children: Vec::new(),
    }
}

fn inner(kind: &str, children: Vec<SyntaxNode>, id: usize) -> SyntaxNode {
    SyntaxNode {
        named: true,
        kind: kind.into(),
        text: String::new(),
        id,
        start: 0,
        end: 0,
        children,
    }
}

/// The parse of `resource "aws_rds_instance" $(*) { size = $(*) }` under
/// the host grammar.
fn rds_size_snippet() -> SyntaxNode {
    inner(
        "configuration",
        vec![inner(
            "resource",
            vec![
                leaf("resource_type", "\"aws_rds_instance\"", 2),
                leaf("query", "$(*)", 3),
                inner(
                    "block",
                    vec![inner(
                        "attribute",
                        vec![leaf("identifier", "size", 6), leaf("query", "$(*)", 7)],
                        5,
                    )],
                    4,
                ),
            ],
            1,
        )],
        0,
    )
}

#[test]
fn turns_a_rule_into_s_expression() {
    let snippet = rds_size_snippet();
    let buffer = Rule::to_sexp(&snippet).expect("the snippet should compile");
    assert_eq!(
        r#"((configuration (resource (resource_type) @1 (*) (block (attribute (identifier) @2 (*) ) ) ) @result )(#eq? @1 "\"aws_rds_instance\"") (#eq? @2 "size") )"#,
        buffer
    )
}

fn capture(index: usize, id: usize, start: usize, end: usize, text: &str) -> Capture {
    Capture {
        index,
        node: NodeInfo { id, start, end },
        text: text.into(),
    }
}

#[test]
fn matches_multiple_resources() {
    let r = Rule::new("Example".into(), Decision::Allow, &rds_size_snippet()).unwrap();

    // The engine evaluates the two #eq? clauses natively, so for a file
    // with one resource of another type and two matching rds resources it
    // reports two structural matches, each filling the capture slots for
    // @1, @2 and @result in turn.
    let reported = vec![
        EngineMatch {
            captures: vec![
                capture(0, 21, 10, 30, "\"aws_rds_instance\""),
                capture(1, 22, 35, 39, "size"),
                capture(2, 20, 10, 60, "resource \"aws_rds_instance\" \"a\" ..."),
            ],
        },
        EngineMatch {
            captures: vec![
                capture(0, 31, 70, 90, "\"aws_rds_instance\""),
                capture(1, 32, 95, 99, "size"),
                capture(2, 30, 70, 120, "resource \"aws_rds_instance\" \"b\" ..."),
            ],
        },
    ];

    let m = r.matches(&reported).unwrap();

    assert_eq!(2, m.len());
}

#[test]
fn compiled_rule_exposes_captures_and_result_slot() {
    let r = Rule::new("Example".into(), Decision::Deny, &rds_size_snippet()).unwrap();
    assert_eq!(r.capture_names, vec!["1".to_string(), "2".to_string(), "result".to_string()]);
    assert_eq!(r.result_index, 2);
    assert_eq!(r.title, "Example");
    assert_eq!(r.decision, Decision::Deny);
    // Both constraints are engine-native #eq? clauses, so nothing is left
    // for local evaluation.
    assert_eq!(r.predicates.len(), 0);
}

#[test]
fn empty_snippet_is_rejected() {
    // A snippet whose nodes are all unnamed contributes nothing.
    let snippet = SyntaxNode {
        named: false,
        kind: "comment".into(),
        text: "# nothing here".into(),
        id: 0,
        start: 0,
        end: 14,
        children: Vec::new(),
    };
    assert!(matches!(
        Rule::new("T".into(), Decision::Allow, &snippet),
        Err(RuleError::EmptyPattern)
    ));
}

#[test]
fn missing_result_capture_is_rejected() {
    // A snippet without the designated entity kind compiles to a query
    // with no capture named result.
    let snippet = inner("block", vec![leaf("identifier", "size", 1)], 0);
    assert!(matches!(
        Rule::new("T".into(), Decision::Allow, &snippet),
        Err(RuleError::MissingResultCapture)
    ));
}

#[test]
fn custom_operator_serializes_as_named_predicate() {
    let snippet = inner(
        "resource",
        vec![leaf("query", "$(custom_op)", 1)],
        0,
    );
    let buffer = Rule::to_sexp(&snippet).expect("the snippet should compile");
    assert_eq!(r#"((resource (*) @1 ) @result(#custom_op? @1) )"#, buffer);
}

#[test]
fn or_marker_serializes_both_operands() {
    let snippet = inner(
        "resource",
        vec![leaf("query", "$(12 || 13)", 1)],
        0,
    );
    let buffer = Rule::to_sexp(&snippet).expect("the snippet should compile");
    assert_eq!(r#"((resource (*) @1 ) @result(#or? @1 "12" "13") )"#, buffer);
}

#[test]
fn or_marker_trims_its_operands() {
    let snippet = inner("resource", vec![leaf("query", "$(  12   ||  13  )", 1)], 0);
    let buffer = Rule::to_sexp(&snippet).expect("the snippet should compile");
    assert_eq!(r#"((resource (*) @1 ) @result(#or? @1 "12" "13") )"#, buffer);
}

#[test]
fn wildcard_marker_tolerates_surrounding_whitespace() {
    let snippet = inner("resource", vec![leaf("query", "$( * )", 1)], 0);
    let buffer = Rule::to_sexp(&snippet).expect("the snippet should compile");
    assert_eq!(r#"((resource (*) ) @result)"#, buffer);
}

#[test]
fn literal_values_are_escaped_for_the_engine() {
    let snippet = leaf("expression", "say \"hi\"", 1);
    let buffer = Rule::to_sexp(&snippet).expect("the snippet should compile");
    assert_eq!(r#"((expression) @1(#eq? @1 "say \"hi\"") )"#, buffer);
}
