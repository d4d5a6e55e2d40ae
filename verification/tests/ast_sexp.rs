use tfcheck::ast::{AST, ToSexp};

fn matches_sexp(node: AST, sexp: &'static str) {
    let buffer = node.sexp();
    assert_eq!(&buffer, sexp)
}

#[test]
fn any_node_gets_turned_into_tree_sitter_astersisk() {
    matches_sexp(AST::Any, "(*)")
}

#[test]
fn container_prints_its_kind_followed_by_its_children() {
    matches_sexp(
        AST::Container {
            kind: "something".into(),
            children: vec![AST::Any],
        },
        "(something (*) )",
    )
}

#[test]
fn resources_get_an_additional_reference_named_result() {
    matches_sexp(
        AST::Container {
            kind: "resource".into(),
            children: vec![AST::Any],
        },
        "(resource (*) ) @result",
    )
}

#[test]
fn nodes_with_a_fixed_value_use_reference_to_match_later() {
    matches_sexp(
        AST::Fixed {
            kind: "resource_type".into(),
            reference: "1".into(),
        },
        "(resource_type) @1",
    )
}

#[test]
fn nodes_with_query_are_asterisk_with_reference_for_later_matching() {
    matches_sexp(
        AST::Referenced {
            reference: "1".into(),
        },
        "(*) @1",
    )
}

#[test]
fn to_sexp_trait_agrees_with_sexp() {
    let node = AST::Container {
        kind: "block".into(),
        children: vec![AST::Fixed {
            kind: "identifier".into(),
            reference: "7".into(),
        }],
    };
    assert_eq!(node.to_sexp(), node.sexp());
}

#[test]
fn nested_containers_serialize_depth_first() {
    matches_sexp(
        AST::Container {
            kind: "block".into(),
            children: vec![AST::Container {
                kind: "attribute".into(),
                children: vec![
                    AST::Fixed {
                        kind: "identifier".into(),
                        reference: "1".into(),
                    },
                    AST::Any,
                ],
            }],
        },
        "(block (attribute (identifier) @1 (*) ) )",
    )
}
