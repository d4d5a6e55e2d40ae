use tfcheck::syntax::{is_container, is_query};

#[test]
fn it_can_read_json() {
    assert!(is_container("resource"));
    assert!(!is_container("resource_type"));
}

#[test]
fn lib_it_can_read_json() {
    assert!(is_container("resource"));
    assert!(!is_container("resource_type"));
}

#[test]
fn query_kind_is_recognized() {
    assert!(is_query("query"));
    assert!(!is_query("resource"));
    assert!(!is_query(""));
}

#[test]
fn container_kinds_cover_the_grammar_productions() {
    assert!(is_container("configuration"));
    assert!(is_container("block"));
    assert!(is_container("attribute"));
    assert!(!is_container("identifier"));
    assert!(!is_container("query"));
}
