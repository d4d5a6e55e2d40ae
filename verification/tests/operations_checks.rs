use tfcheck::document::{compile_document, RuleSpec};
use tfcheck::operations::{
    capture_from, read_operation, values_from, Capture, EngineMatch, MatchError, Predicate,
    PredicateArg, QueryPredicate,
};
use tfcheck::rule::{join, Decision, NodeInfo, RuleError};
use tfcheck::syntax::SyntaxNode;

fn or_predicate(slot: usize, options: &[&str]) -> QueryPredicate {
    let mut args = vec![PredicateArg::Capture(slot)];
    for o in options {
        args.push(PredicateArg::Literal((*o).into()));
    }
    QueryPredicate {
        operator: "or?".into(),
        args,
    }
}

fn match_with(slot: usize, text: &str) -> EngineMatch {
    EngineMatch {
        captures: vec![Capture {
            index: slot,
            node: NodeInfo { id: 9, start: 0, end: 4 },
            text: text.into(),
        }],
    }
}

#[test]
fn or_predicate_checks_membership() {
    let pred = or_predicate(0, &["12", "13"]);
    let twelve = read_operation(&pred, &match_with(0, "12")).unwrap();
    let fourteen = read_operation(&pred, &match_with(0, "14")).unwrap();
    assert!(twelve.check());
    assert!(!fourteen.check());
}

#[test]
fn unknown_operators_pass_through() {
    let pred = QueryPredicate {
        operator: "somethings?".into(),
        args: vec![PredicateArg::Capture(0)],
    };
    let p = read_operation(&pred, &match_with(0, "whatever")).unwrap();
    assert!(matches!(p, Predicate::True));
    assert!(p.check());
}

#[test]
fn absent_capture_slot_is_an_unresolved_capture() {
    let pred = or_predicate(5, &["12"]);
    let r = read_operation(&pred, &match_with(0, "12"));
    assert!(matches!(r, Err(MatchError::UnresolvedCapture)));
}

#[test]
fn or_without_capture_argument_is_an_unresolved_capture() {
    let pred = QueryPredicate {
        operator: "or?".into(),
        args: vec![PredicateArg::Literal("12".into())],
    };
    let r = read_operation(&pred, &match_with(0, "12"));
    assert!(matches!(r, Err(MatchError::UnresolvedCapture)));
}

#[test]
fn capture_from_reads_the_first_capture_argument() {
    let pred = or_predicate(0, &["12", "13"]);
    let c = capture_from(&pred, &match_with(0, "12")).unwrap();
    assert_eq!(c, Some("12".to_string()));

    let no_captures = QueryPredicate {
        operator: "or?".into(),
        args: vec![PredicateArg::Literal("12".into())],
    };
    let c = capture_from(&no_captures, &match_with(0, "12")).unwrap();
    assert_eq!(c, None);
}

#[test]
fn values_from_collects_the_literal_arguments_in_order() {
    let pred = or_predicate(0, &["12", "13"]);
    assert_eq!(values_from(&pred), vec!["12".to_string(), "13".to_string()]);
}

#[test]
fn join_quotes_every_value() {
    let values = vec!["12".to_string(), "13".to_string()];
    assert_eq!(join(&values), r#""12" "13""#);
    let quoted = vec!["\"aws_rds_instance\"".to_string()];
    assert_eq!(join(&quoted), r#""\"aws_rds_instance\"""#);
}

#[test]
fn document_with_an_invalid_rule_still_applies_the_valid_ones() {
    let good = SyntaxNode {
        named: true,
        kind: "resource".into(),
        text: String::new(),
        id: 0,
        start: 0,
        end: 20,
        children: vec![SyntaxNode {
            named: true,
            kind: "resource_type".into(),
            text: "\"aws_rds_instance\"".into(),
            id: 1,
            start: 9,
            end: 20,
            children: Vec::new(),
        }],
    };
    // A snippet with only an unnamed node yields no pattern at all.
    let empty = SyntaxNode {
        named: false,
        kind: "comment".into(),
        text: "#".into(),
        id: 0,
        start: 0,
        end: 1,
        children: Vec::new(),
    };
    let specs = vec![
        RuleSpec {
            title: "Deny: typo".into(),
            decision: Decision::Deny,
            snippet: Some(empty),
        },
        RuleSpec {
            title: "Allow: rds".into(),
            decision: Decision::Allow,
            snippet: Some(good),
        },
    ];
    let (doc, issues) = compile_document("Doc".into(), &specs);
    assert_eq!(doc.rules.len(), 1);
    assert_eq!(doc.rules[0].title, "Allow: rds");
    assert_eq!(issues.len(), 1);
    assert_eq!(issues[0].title, "Deny: typo");
    assert!(matches!(issues[0].error, RuleError::EmptyPattern));
}
