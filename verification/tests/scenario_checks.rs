use tfcheck::document::{compile_document, Document, RuleSpec};
use tfcheck::operations::{Capture, EngineMatch};
use tfcheck::report::{compliant, resolve, Resolution};
use tfcheck::rule::{Decision, NodeInfo, Rule};
use tfcheck::syntax::SyntaxNode;

fn leaf(kind: &str, text: &str, id: usize) -> SyntaxNode {
    SyntaxNode {
        named: true,
        kind: kind.into(),
        text: text.into(),
        id,
        start: 0,
        end: 0,
        children: Vec::new(),
    }
}

fn inner(kind: &str, children: Vec<SyntaxNode>, id: usize) -> SyntaxNode {
    SyntaxNode {
        named: true,
        kind: kind.into(),
        text: String::new(),
        id,
        start: 0,
        end: 0,
        children,
    }
}

/// The parse of `resource "aws_rds_instance" $(*) { <attr> = <marker> }`.
fn rds_snippet_with(attr: &str, marker: &str) -> SyntaxNode {
    inner(
        "configuration",
        vec![inner(
            "resource",
            vec![
                leaf("resource_type", "\"aws_rds_instance\"", 2),
                leaf("query", "$(*)", 3),
                inner(
                    "block",
                    vec![inner(
                        "attribute",
                        vec![leaf("identifier", attr, 6), leaf("query", marker, 7)],
                        5,
                    )],
                    4,
                ),
            ],
            1,
        )],
        0,
    )
}

/// The parse of `resource "aws_rds_instance" $(*) { }`.
fn rds_snippet_bare() -> SyntaxNode {
    inner(
        "configuration",
        vec![inner(
            "resource",
            vec![
                leaf("resource_type", "\"aws_rds_instance\"", 2),
                leaf("query", "$(*)", 3),
                inner("block", Vec::new(), 4),
            ],
            1,
        )],
        0,
    )
}

fn capture(index: usize, id: usize, start: usize, end: usize, text: &str) -> Capture {
    Capture {
        index,
        node: NodeInfo { id, start, end },
        text: text.into(),
    }
}

/// One reported match of the size-rule's query: @1 resource_type,
/// @2 identifier, @3 the captured attribute value, @result the resource.
fn sized_match(resource_id: usize, start: usize, end: usize, value: &str) -> EngineMatch {
    EngineMatch {
        captures: vec![
            capture(0, resource_id + 1, start, start + 5, "\"aws_rds_instance\""),
            capture(1, resource_id + 2, start + 6, start + 10, "size"),
            capture(2, resource_id + 3, start + 11, start + 15, value),
            capture(3, resource_id, start, end, "resource ..."),
        ],
    }
}

/// One reported match of the bare rule's query: @1 resource_type,
/// @result the resource.
fn bare_match(resource_id: usize, start: usize, end: usize) -> EngineMatch {
    EngineMatch {
        captures: vec![
            capture(0, resource_id + 1, start, start + 5, "\"aws_rds_instance\""),
            capture(1, resource_id, start, end, "resource ..."),
        ],
    }
}

fn rds_document() -> Document {
    let specs = vec![
        RuleSpec {
            title: "Allow: RDS with a size property set".into(),
            decision: Decision::Allow,
            snippet: Some(rds_snippet_with("size", "$(somethings)")),
        },
        RuleSpec {
            title: "Deny: Any other RDS".into(),
            decision: Decision::Deny,
            snippet: Some(rds_snippet_bare()),
        },
    ];
    let (doc, issues) = compile_document("Only allow RDS with an explicit size".into(), &specs);
    assert!(issues.is_empty());
    assert_eq!(doc.rules.len(), 2);
    doc
}

#[test]
fn matches_the_rds() {
    let doc = rds_document();

    // The checked file holds one rds resource that sets size, so both
    // rules match it structurally.
    let reported = vec![
        vec![sized_match(20, 1, 80, "\"t2.large\"")],
        vec![bare_match(20, 1, 80)],
    ];

    let results = doc.matches(&reported).unwrap();
    assert!(results.iter().any(|m| m.decision == Decision::Allow));
}

#[test]
fn resource_with_size_resolves_allowed() {
    let doc = rds_document();
    let reported = vec![
        vec![sized_match(20, 1, 80, "\"t2.large\"")],
        vec![bare_match(20, 1, 80)],
    ];
    let results = doc.matches(&reported).unwrap();
    let resolved = resolve(&results);
    assert_eq!(resolved.len(), 1);
    assert!(compliant(&resolved));
}

#[test]
fn resource_without_size_resolves_denied_with_range() {
    let doc = rds_document();

    // The file's one resource omits size: only the deny rule matches.
    let reported = vec![Vec::new(), vec![bare_match(40, 7, 93)]];
    let results = doc.matches(&reported).unwrap();
    let resolved = resolve(&results);
    assert_eq!(resolved.len(), 1);
    assert!(!compliant(&resolved));
    match &resolved[0].resolution {
        Resolution::Denied { denial } => {
            assert_eq!(denial.node_info.start, 7);
            assert_eq!(denial.node_info.end, 93);
            assert_eq!(denial.title, "Deny: Any other RDS");
        }
        Resolution::Allowed => panic!("the resource should have been denied"),
    }
}

fn or_rule() -> Rule {
    Rule::new(
        "Allow: RDS with a size property set".into(),
        Decision::Allow,
        &rds_snippet_with("num", "$(12 || 13)"),
    )
    .unwrap()
}

#[test]
fn matches_or_expression_in_parens() {
    let rule = or_rule();
    // The file's resource sets num = 12.
    let reported = vec![sized_match(20, 1, 80, "12")];
    let results = rule.matches(&reported).unwrap();
    assert!(results.iter().any(|m| m.decision == Decision::Allow));
}

#[test]
fn or_constraint_accepts_exactly_the_listed_values() {
    let rule = or_rule();
    let twelve = rule.matches(&vec![sized_match(20, 1, 80, "12")]).unwrap();
    let thirteen = rule.matches(&vec![sized_match(20, 1, 80, "13")]).unwrap();
    let fourteen = rule.matches(&vec![sized_match(20, 1, 80, "14")]).unwrap();
    assert_eq!(twelve.len(), 1);
    assert_eq!(thirteen.len(), 1);
    assert_eq!(fourteen.len(), 0);
}

#[test]
fn matching_twice_yields_identical_results() {
    let rule = or_rule();
    let reported = vec![
        sized_match(20, 1, 80, "12"),
        sized_match(30, 90, 170, "14"),
        sized_match(40, 180, 260, "13"),
    ];
    let first = rule.matches(&reported).unwrap();
    let second = rule.matches(&reported).unwrap();
    assert_eq!(first, second);
}
