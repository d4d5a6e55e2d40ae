use tfcheck::document::{compile_document, decision_for_title, RuleSpec};
use tfcheck::report::{compliant, resolve, Resolution};
use tfcheck::rule::{Decision, MatchResult, NodeInfo, Reference, RuleError};

fn result(id: usize, start: usize, end: usize, decision: Decision, title: &str) -> MatchResult {
    MatchResult {
        node_info: NodeInfo { id, start, end },
        decision,
        title: title.into(),
    }
}

#[test]
fn file_with_no_results_is_compliant() {
    let resolved = resolve(&Vec::new());
    assert!(resolved.is_empty());
    assert!(compliant(&resolved));
}

#[test]
fn any_allow_dominates_deny_for_the_same_entity() {
    let deny_only = vec![result(7, 0, 10, Decision::Deny, "deny rule")];
    let resolved = resolve(&deny_only);
    assert_eq!(resolved.len(), 1);
    assert!(!compliant(&resolved));

    // Adding an Allow result to the entity's group never moves its
    // resolution from Allowed back to Denied.
    let with_allow = vec![
        result(7, 0, 10, Decision::Deny, "deny rule"),
        result(7, 0, 10, Decision::Allow, "allow rule"),
    ];
    let resolved = resolve(&with_allow);
    assert_eq!(resolved.len(), 1);
    assert!(compliant(&resolved));
    assert!(matches!(resolved[0].resolution, Resolution::Allowed));
}

#[test]
fn first_deny_is_the_reported_representative() {
    let results = vec![
        result(7, 5, 15, Decision::Deny, "first deny"),
        result(7, 5, 15, Decision::Deny, "second deny"),
    ];
    let resolved = resolve(&results);
    assert_eq!(resolved.len(), 1);
    match &resolved[0].resolution {
        Resolution::Denied { denial } => assert_eq!(denial.title, "first deny"),
        Resolution::Allowed => panic!("the entity should have been denied"),
    }
}

#[test]
fn entities_are_grouped_by_identity_in_first_occurrence_order() {
    let results = vec![
        result(1, 0, 10, Decision::Deny, "a"),
        result(2, 20, 30, Decision::Allow, "b"),
        result(1, 0, 10, Decision::Allow, "c"),
        result(3, 40, 50, Decision::Deny, "d"),
    ];
    let resolved = resolve(&results);
    assert_eq!(resolved.len(), 3);
    assert_eq!(resolved[0].id, 1);
    assert_eq!(resolved[1].id, 2);
    assert_eq!(resolved[2].id, 3);
    assert!(matches!(resolved[0].resolution, Resolution::Allowed));
    assert!(matches!(resolved[1].resolution, Resolution::Allowed));
    assert!(matches!(resolved[2].resolution, Resolution::Denied { .. }));
}

#[test]
fn headings_starting_with_allow_permit_everything_else_denies() {
    assert_eq!(decision_for_title("Allow: RDS with a size property set"), Decision::Allow);
    assert_eq!(decision_for_title("Allow"), Decision::Allow);
    assert_eq!(decision_for_title("Deny: Any other RDS"), Decision::Deny);
    assert_eq!(decision_for_title("Reject everything"), Decision::Deny);
    assert_eq!(decision_for_title(""), Decision::Deny);
}

#[test]
fn references_count_upward_from_one() {
    let mut generator = Reference::new();
    assert_eq!(generator.next(), "1");
    assert_eq!(generator.next(), "2");
    assert_eq!(generator.next(), "3");
}

#[test]
fn unparsed_snippets_are_collected_as_malformed() {
    let specs = vec![RuleSpec {
        title: "Allow: broken".into(),
        decision: Decision::Allow,
        snippet: None,
    }];
    let (doc, issues) = compile_document("Doc".into(), &specs);
    assert_eq!(doc.title, "Doc");
    assert!(doc.rules.is_empty());
    assert_eq!(issues.len(), 1);
    assert_eq!(issues[0].title, "Allow: broken");
    assert!(matches!(issues[0].error, RuleError::MalformedSnippet));
}
