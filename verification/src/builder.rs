//! The pattern builder: walks a parsed example snippet, classifies nodes
//! via the grammar's predicates, and emits a pattern tree plus the
//! constraints for its captured leaves. Embedded operator markers are
//! parsed by the query operator parser.

use vstd::prelude::*;

use crate::ast::{
    AST,
    AstView,
    ast_views,
    captures_of,
    captures_of_children,
    lemma_token_clean_concat,
    plain_char,
    strs_view,
    token_clean,
    tokens_wf,
    tokens_wf_children,
};
use crate::rule::{Query, QueryView, Reference, queries_tokens_wf, queries_view, query_tokens_wf};
use crate::strutil::{dec_of, digit_char, str_eq, trim, trimmed};
use crate::syntax::{
    SyntaxNode,
    NodeView,
    is_container,
    is_container_kind,
    is_query,
    is_query_kind,
    lemma_node_views_index,
    lemma_node_views_len,
    lemma_weight_seq_concat,
    node_views,
    weight,
    weight_seq,
};

verus! {

/// The first position at or after `i` where the characters `a`, `b` stand
/// adjacent in `s`.
pub open spec fn find_pair_from(s: Seq<char>, i: int, a: char, b: char) -> Option<int>
    decreases s.len() - i,
{
    if i < 0 || i + 1 >= s.len() {
        None
    } else if s[i] == a && s[i + 1] == b {
        Some(i)
    } else {
        find_pair_from(s, i + 1, a, b)
    }
}

/// The first position at or after `i` where `c` stands in `s`.
pub open spec fn find_char_from(s: Seq<char>, i: int, c: char) -> Option<int>
    decreases s.len() - i,
{
    if i < 0 || i >= s.len() {
        None
    } else if s[i] == c {
        Some(i)
    } else {
        find_char_from(s, i + 1, c)
    }
}

/// An operator marker is well formed when `$(` occurs, a closing `)`
/// follows its first occurrence, and at least one character stands
/// between them. The host grammar produces marker tokens of exactly this
/// shape.
pub open spec fn marker_wf(s: Seq<char>) -> bool {
    match find_pair_from(s, 0, '$', '(') {
        Some(st) => match find_char_from(s, st + 2, ')') {
            Some(en) => en > st + 2,
            None => false,
        },
        None => false,
    }
}

/// The operation text inside a well-formed marker: everything between the
/// first `$(` and the first `)` after it.
pub open spec fn marker_inner(s: Seq<char>) -> Seq<char>
    recommends
        marker_wf(s),
{
    let st = find_pair_from(s, 0, '$', '(')->0;
    let en = find_char_from(s, st + 2, ')')->0;
    s.subrange(st + 2, en)
}

/// What the query operator parser yields for one marker text: the pattern
/// tree leaf, the constraints, and the next counter value.
///
/// `*` becomes a plain wildcard with no constraint. Text containing the
/// token `||` is split at its first occurrence into two trimmed operands
/// of an `Or` constraint. Any other text is an operator name carried by an
/// `Unknown` constraint. Both constraint forms bind a fresh reference.
pub open spec fn op_build(text: Seq<char>, c: int) -> (Option<AstView>, Seq<QueryView>, int)
    recommends
        marker_wf(text),
{
    let inner = trimmed(marker_inner(text));
    if inner == "*"@ {
        (Some(AstView::Any), Seq::<QueryView>::empty(), c)
    } else {
        let reference = dec_of(c as nat);
        match find_pair_from(inner, 0, '|', '|') {
            Some(p) => {
                let left = trimmed(inner.subrange(0, p));
                let right = trimmed(inner.subrange(p + 2, inner.len() as int));
                (
                    Some(AstView::Referenced { reference }),
                    seq![QueryView::Or { reference, values: seq![left, right] }],
                    c + 1,
                )
            },
            None => (
                Some(AstView::Referenced { reference }),
                seq![QueryView::Unknown { reference, operation: inner }],
                c + 1,
            ),
        }
    }
}

/// What the builder yields for one syntax node: the pattern tree (absent
/// where nothing meaningful stands at this position), the constraints,
/// and the next counter value.
///
/// Unnamed nodes contribute nothing — absence, not a wildcard. Operator
/// markers are delegated to the operator parser. Containers recurse over
/// their children. Any other named node becomes a `Fixed` leaf whose `Eq`
/// constraint pins its literal text.
pub open spec fn build_node(n: NodeView, c: int) -> (Option<AstView>, Seq<QueryView>, int)
    decreases n,
{
    if !n.named {
        (None, Seq::<QueryView>::empty(), c)
    } else if is_query_kind(n.kind) {
        op_build(n.text, c)
    } else if is_container_kind(n.kind) {
        let (kids, qs, c2) = build_list(n.children, c);
        (Some(AstView::Container { kind: n.kind, children: kids }), qs, c2)
    } else {
        (
            Some(AstView::Fixed { kind: n.kind, reference: dec_of(c as nat) }),
            seq![QueryView::Eq { reference: dec_of(c as nat), values: seq![n.text] }],
            c + 1,
        )
    }
}

pub open spec fn build_list(cs: Seq<NodeView>, c: int) -> (Seq<AstView>, Seq<QueryView>, int)
    decreases cs,
{
    if cs.len() == 0 {
        (Seq::<AstView>::empty(), Seq::<QueryView>::empty(), c)
    } else {
        let (pre_asts, pre_qs, c0) = build_list(cs.drop_last(), c);
        let (a, qs, c1) = build_node(cs.last(), c0);
        match a {
            None => (pre_asts, pre_qs, c1),
            Some(av) => (pre_asts.push(av), pre_qs + qs, c1),
        }
    }
}

/// Every operator marker reachable by the builder inside this node is
/// well formed.
pub open spec fn markers_wf(n: NodeView) -> bool
    decreases n,
{
    n.named ==> if is_query_kind(n.kind) {
        marker_wf(n.text)
    } else if is_container_kind(n.kind) {
        markers_list_wf(n.children)
    } else {
        true
    }
}

pub open spec fn markers_list_wf(cs: Seq<NodeView>) -> bool
    decreases cs,
{
    if cs.len() == 0 {
        true
    } else {
        markers_list_wf(cs.drop_last()) && markers_wf(cs.last())
    }
}

/// The builder advances the reference counter by no more than the
/// number of nodes in the tree.
pub proof fn lemma_build_counter(n: NodeView, c: int)
    ensures
        c <= build_node(n, c).2 <= c + weight(n),
    decreases n,
{
    if n.named && !is_query_kind(n.kind) && is_container_kind(n.kind) {
        lemma_build_list_counter(n.children, c);
    }
}

pub proof fn lemma_build_list_counter(cs: Seq<NodeView>, c: int)
    ensures
        c <= build_list(cs, c).2 <= c + weight_seq(cs),
    decreases cs,
{
    if cs.len() > 0 {
        lemma_build_list_counter(cs.drop_last(), c);
        lemma_build_counter(cs.last(), build_list(cs.drop_last(), c).2);
        assert(weight_seq(cs) == weight_seq(cs.drop_last()) + weight(cs.last()));
    }
}

/// A leaf-position wildcard marker constrains nothing: the builder turns
/// it into a plain wildcard that matches any subtree, with no constraint
/// and no capture, regardless of what will stand at that position.
pub proof fn lemma_wildcard_leaf(n: NodeView, c: int)
    requires
        n.named,
        is_query_kind(n.kind),
        marker_wf(n.text),
        trimmed(marker_inner(n.text)) == "*"@,
    ensures
        build_node(n, c).0 == Some(AstView::Any),
        build_node(n, c).1 == Seq::<QueryView>::empty(),
        build_node(n, c).2 == c,
{
}

/// Any other named leaf is pinned byte-for-byte: the builder emits a
/// `Fixed` leaf together with an `Eq` constraint whose single value is
/// exactly the leaf's literal text, so only entities whose corresponding
/// leaf text is identical can satisfy the compiled query.
pub proof fn lemma_fixed_leaf(n: NodeView, c: int)
    requires
        n.named,
        !is_query_kind(n.kind),
        !is_container_kind(n.kind),
    ensures
        build_node(n, c).0 == Some(
            AstView::Fixed { kind: n.kind, reference: dec_of(c as nat) },
        ),
        build_node(n, c).1 == seq![
            QueryView::Eq { reference: dec_of(c as nat), values: seq![n.text] },
        ],
        build_node(n, c).2 == c + 1,
{
}

/// What a snippet must satisfy before rule construction: every operator
/// marker is well formed (the host grammar guarantees this of snippets it
/// parsed), and the tree is small enough that reference generation cannot
/// exhaust its counter.
pub open spec fn snippet_ok(n: NodeView) -> bool {
    markers_wf(n) && weight(n) + 1 <= u64::MAX
}

/// Every constraint the builder emits references a capture that appears
/// in the serialization of the tree it emits alongside: the compiled
/// query never names an undeclared capture.
pub proof fn lemma_build_refs_in_captures(n: NodeView, c: int)
    ensures
        build_node(n, c).0 is None ==> build_node(n, c).1.len() == 0,
        build_node(n, c).0 matches Some(a) ==> forall|k: int|
            0 <= k < build_node(n, c).1.len() ==> captures_of(a).contains(
                #[trigger] build_node(n, c).1[k].reference(),
            ),
    decreases n,
{
    if n.named && !is_query_kind(n.kind) && is_container_kind(n.kind) {
        lemma_build_list_refs(n.children, c);
        let r = build_list(n.children, c);
        let a = build_node(n, c).0->0;
        assert forall|k: int| 0 <= k < build_node(n, c).1.len() implies captures_of(a).contains(
            #[trigger] build_node(n, c).1[k].reference(),
        ) by {
            assert(captures_of_children(r.0).contains(r.1[k].reference()));
            lemma_contains_concat(
                captures_of_children(r.0),
                if n.kind == "resource"@ {
                    seq!["result"@]
                } else {
                    Seq::<Seq<char>>::empty()
                },
                r.1[k].reference(),
            );
        }
    } else if n.named && is_query_kind(n.kind) {
        let b = op_build(n.text, c);
        let inner = trimmed(marker_inner(n.text));
        if inner != "*"@ {
            let a = b.0->0;
            assert forall|k: int| 0 <= k < b.1.len() implies captures_of(a).contains(
                #[trigger] b.1[k].reference(),
            ) by {
                assert(b.1[k].reference() == dec_of(c as nat));
                assert(captures_of(a) == seq![dec_of(c as nat)]);
                assert(captures_of(a)[0] == b.1[k].reference());
            }
        }
    } else if n.named {
        let b = build_node(n, c);
        let a = b.0->0;
        assert forall|k: int| 0 <= k < b.1.len() implies captures_of(a).contains(
            #[trigger] b.1[k].reference(),
        ) by {
            assert(captures_of(a)[0] == b.1[k].reference());
        }
    }
}

pub proof fn lemma_build_list_refs(cs: Seq<NodeView>, c: int)
    ensures
        forall|k: int|
            0 <= k < build_list(cs, c).1.len() ==> captures_of_children(
                build_list(cs, c).0,
            ).contains(#[trigger] build_list(cs, c).1[k].reference()),
    decreases cs,
{
    if cs.len() > 0 {
        let pre = build_list(cs.drop_last(), c);
        lemma_build_list_refs(cs.drop_last(), c);
        lemma_build_refs_in_captures(cs.last(), pre.2);
        let last = build_node(cs.last(), pre.2);
        let r = build_list(cs, c);
        match last.0 {
            None => {
                assert(r.0 == pre.0 && r.1 == pre.1);
            },
            Some(av) => {
                assert(r.0 == pre.0.push(av));
                assert(r.0.drop_last() =~= pre.0);
                assert(r.0.last() == av);
                assert(captures_of_children(r.0) == captures_of_children(pre.0) + captures_of(av));
                assert forall|k: int| 0 <= k < r.1.len() implies captures_of_children(
                    r.0,
                ).contains(#[trigger] r.1[k].reference()) by {
                    if k < pre.1.len() {
                        assert(r.1[k] == pre.1[k]);
                        lemma_contains_concat(
                            captures_of_children(pre.0),
                            captures_of(av),
                            r.1[k].reference(),
                        );
                    } else {
                        assert(r.1[k] == last.1[k - pre.1.len()]);
                        assert(captures_of(av).contains(r.1[k].reference()));
                        lemma_contains_concat(
                            captures_of_children(pre.0),
                            captures_of(av),
                            r.1[k].reference(),
                        );
                    }
                }
            },
        }
    }
}

pub proof fn lemma_contains_concat(x: Seq<Seq<char>>, y: Seq<Seq<char>>, e: Seq<char>)
    requires
        x.contains(e) || y.contains(e),
    ensures
        (x + y).contains(e),
{
    if x.contains(e) {
        let i = choose|i: int| 0 <= i < x.len() && x[i] == e;
        assert((x + y)[i] == e);
    } else {
        let i = choose|i: int| 0 <= i < y.len() && y[i] == e;
        assert((x + y)[x.len() + i] == e);
    }
}


proof fn lemma_dec_clean(n: nat)
    ensures
        token_clean(dec_of(n)),
    decreases n,
{
    assert(plain_char(digit_char(n % 10)));
    assert(plain_char(digit_char(n)));
    if n < 10 {
        assert(token_clean(seq![digit_char(n)]));
    } else {
        lemma_dec_clean(n / 10);
        assert(dec_of(n) =~= dec_of(n / 10) + seq![digit_char(n % 10)]);
        assert(token_clean(seq![digit_char(n % 10)]));
        lemma_token_clean_concat(dec_of(n / 10), seq![digit_char(n % 10)]);
    }
}

/// Every text the builder copies into a serialization token from this
/// snippet is a plain token: the kinds the grammar names, and the
/// operator name of any marker that carries one. The literal values of
/// fixed leaves and of OR operands need no condition: the compiler
/// quotes and escapes them.
pub open spec fn texts_clean(n: NodeView) -> bool
    decreases n,
{
    n.named ==> if is_query_kind(n.kind) {
        (trimmed(marker_inner(n.text)) != "*"@ && find_pair_from(
            trimmed(marker_inner(n.text)),
            0,
            '|',
            '|',
        ) is None) ==> token_clean(trimmed(marker_inner(n.text)))
    } else if is_container_kind(n.kind) {
        token_clean(n.kind) && texts_clean_list(n.children)
    } else {
        token_clean(n.kind)
    }
}

pub open spec fn texts_clean_list(cs: Seq<NodeView>) -> bool
    decreases cs,
{
    if cs.len() == 0 {
        true
    } else {
        texts_clean_list(cs.drop_last()) && texts_clean(cs.last())
    }
}

/// Whatever the builder emits from a snippet whose copied texts are
/// plain tokens has token-well-formed serialization tokens: constraint
/// references are decimal digits, and kinds and operator names come from
/// the snippet unchanged.
pub proof fn lemma_build_tokens_wf(n: NodeView, c: int)
    ensures
        texts_clean(n) ==> match build_node(n, c).0 {
            Some(a) => tokens_wf(a) && queries_tokens_wf(build_node(n, c).1),
            None => queries_tokens_wf(build_node(n, c).1),
        },
    decreases n,
{
    if texts_clean(n) {
        let b = build_node(n, c);
        if !n.named {
            assert(queries_tokens_wf(b.1));
        } else if is_query_kind(n.kind) {
            let inner = trimmed(marker_inner(n.text));
            lemma_dec_clean(c as nat);
            if inner == "*"@ {
                assert(queries_tokens_wf(b.1));
            } else {
                match find_pair_from(inner, 0, '|', '|') {
                    Some(p) => {
                        assert(query_tokens_wf(b.1[0]));
                        assert(queries_tokens_wf(b.1));
                    },
                    None => {
                        assert(query_tokens_wf(b.1[0]));
                        assert(queries_tokens_wf(b.1));
                    },
                }
            }
        } else if is_container_kind(n.kind) {
            lemma_build_list_tokens_wf(n.children, c);
        } else {
            lemma_dec_clean(c as nat);
            assert(query_tokens_wf(b.1[0]));
            assert(queries_tokens_wf(b.1));
        }
    }
}

pub proof fn lemma_build_list_tokens_wf(cs: Seq<NodeView>, c: int)
    ensures
        texts_clean_list(cs) ==> tokens_wf_children(build_list(cs, c).0) && queries_tokens_wf(
            build_list(cs, c).1,
        ),
    decreases cs,
{
    if texts_clean_list(cs) && cs.len() > 0 {
        let pre = build_list(cs.drop_last(), c);
        lemma_build_list_tokens_wf(cs.drop_last(), c);
        lemma_build_tokens_wf(cs.last(), pre.2);
        let last = build_node(cs.last(), pre.2);
        let r = build_list(cs, c);
        match last.0 {
            None => {
                assert(tokens_wf_children(r.0));
                assert(queries_tokens_wf(r.1));
            },
            Some(av) => {
                assert(r.0.drop_last() =~= pre.0);
                assert(r.0.last() == av);
                assert(tokens_wf_children(r.0));
                assert forall|k: int| 0 <= k < r.1.len() implies query_tokens_wf(
                    #[trigger] r.1[k],
                ) by {
                    if k < pre.1.len() {
                        assert(r.1[k] == pre.1[k]);
                    } else {
                        assert(r.1[k] == last.1[k - pre.1.len()]);
                    }
                }
            },
        }
    }
}

/// The view of an optional pattern tree node.
pub open spec fn opt_ast_view(o: Option<AST>) -> Option<AstView> {
    match o {
        Some(a) => Some(a@),
        None => None,
    }
}

fn find_marker(s: &str) -> (r: Option<usize>)
    ensures
        match r {
            Some(j) => find_pair_from(s@, 0, '$', '(') == Some(j as int),
            None => find_pair_from(s@, 0, '$', '(') is None,
        },
{
    let n = s.unicode_len();
    if n < 2 {
        return None;
    }
    let mut i: usize = 0;
    while i + 1 < n
        invariant
            i + 1 <= n,
            n == s@.len(),
            find_pair_from(s@, 0, '$', '(') == find_pair_from(s@, i as int, '$', '('),
        decreases n - i,
    {
        if s.get_char(i) == '$' && s.get_char(i + 1) == '(' {
            return Some(i);
        }
        i = i + 1;
    }
    None
}

fn find_pipes(s: &str) -> (r: Option<usize>)
    ensures
        match r {
            Some(j) => find_pair_from(s@, 0, '|', '|') == Some(j as int),
            None => find_pair_from(s@, 0, '|', '|') is None,
        },
{
    let n = s.unicode_len();
    if n < 2 {
        return None;
    }
    let mut i: usize = 0;
    while i + 1 < n
        invariant
            i + 1 <= n,
            n == s@.len(),
            find_pair_from(s@, 0, '|', '|') == find_pair_from(s@, i as int, '|', '|'),
        decreases n - i,
    {
        if s.get_char(i) == '|' && s.get_char(i + 1) == '|' {
            return Some(i);
        }
        i = i + 1;
    }
    None
}

fn find_close(s: &str, from: usize) -> (r: Option<usize>)
    ensures
        match r {
            Some(j) => find_char_from(s@, from as int, ')') == Some(j as int),
            None => find_char_from(s@, from as int, ')') is None,
        },
{
    let n = s.unicode_len();
    let mut i: usize = from;
    while i < n
        invariant
            from <= i,
            i <= n || i == from,
            n == s@.len(),
            find_char_from(s@, from as int, ')') == find_char_from(s@, i as int, ')'),
        decreases n - i,
    {
        if s.get_char(i) == ')' {
            return Some(i);
        }
        i = i + 1;
    }
    None
}

/// Parses the text of one embedded operator marker.
pub fn process_query(value: &str, generator: &mut Reference) -> (r: (Option<AST>, Vec<Query>))
    requires
        marker_wf(value@),
        old(generator).counter() < u64::MAX,
    ensures
        opt_ast_view(r.0) == op_build(value@, old(generator).counter() as int).0,
        queries_view(r.1@) == op_build(value@, old(generator).counter() as int).1,
        final(generator).counter() == op_build(value@, old(generator).counter() as int).2,
{
    let n = value.unicode_len();
    let st = match find_marker(value) {
        Some(st) => st,
        None => {
            proof {
                assert(false);
            }
            unreached()
        },
    };
    proof {
        lemma_find_pair_in_range(value@, 0, '$', '(');
    }
    let en = match find_close(value, st + 2) {
        Some(en) => en,
        None => {
            proof {
                assert(false);
            }
            unreached()
        },
    };
    proof {
        lemma_find_char_in_range(value@, st + 2, ')');
    }
    let inner_raw = value.substring_char(st + 2, en);
    let inner = trim(inner_raw);
    proof {
        assert(inner@ == trimmed(marker_inner(value@)));
    }
    if str_eq(inner.as_str(), "*") {
        let r = (Some(AST::Any), Vec::<Query>::new());
        proof {
            assert(queries_view(r.1@) =~= op_build(
                value@,
                old(generator).counter() as int,
            ).1);
        }
        return r;
    }
    let reference = generator.next();
    let inner_len = inner.as_str().unicode_len();
    match find_pipes(inner.as_str()) {
        Some(p) => {
            proof {
                lemma_find_pair_in_range(inner@, 0, '|', '|');
            }
            let left_raw = inner.as_str().substring_char(0, p);
            let right_raw = inner.as_str().substring_char(p + 2, inner_len);
            let left = trim(left_raw);
            let right = trim(right_raw);
            let mut vals: Vec<String> = Vec::new();
            vals.push(left);
            vals.push(right);
            let q = Query::Or { reference: reference.clone(), values: vals };
            let mut qs: Vec<Query> = Vec::new();
            qs.push(q);
            let r = (Some(AST::Referenced { reference }), qs);
            proof {
                let spec_r = op_build(value@, old(generator).counter() as int);
                assert(strs_view(r.1@[0]->Or_values@) =~= spec_r.1[0]->Or_values);
                assert(r.1@[0]@ =~= spec_r.1[0]);
                assert(queries_view(r.1@) =~= spec_r.1);
            }
            r
        },
        None => {
            let q = Query::Unknown { reference: reference.clone(), operation: inner };
            let mut qs: Vec<Query> = Vec::new();
            qs.push(q);
            let r = (Some(AST::Referenced { reference }), qs);
            proof {
                let spec_r = op_build(value@, old(generator).counter() as int);
                assert(r.1@[0]@ =~= spec_r.1[0]);
                assert(queries_view(r.1@) =~= spec_r.1);
            }
            r
        },
    }
}

proof fn lemma_find_pair_in_range(s: Seq<char>, i: int, a: char, b: char)
    requires
        find_pair_from(s, i, a, b) is Some,
    ensures
        i <= find_pair_from(s, i, a, b)->0,
        find_pair_from(s, i, a, b)->0 + 1 < s.len(),
    decreases s.len() - i,
{
    if !(i < 0 || i + 1 >= s.len()) && !(s[i] == a && s[i + 1] == b) {
        lemma_find_pair_in_range(s, i + 1, a, b);
    }
}

proof fn lemma_find_char_in_range(s: Seq<char>, i: int, c: char)
    requires
        find_char_from(s, i, c) is Some,
    ensures
        i <= find_char_from(s, i, c)->0,
        find_char_from(s, i, c)->0 < s.len(),
    decreases s.len() - i,
{
    if !(i < 0 || i >= s.len()) && s[i] != c {
        lemma_find_char_in_range(s, i + 1, c);
    }
}

fn marker_ok(text: &str) -> (r: bool)
    ensures
        r == marker_wf(text@),
{
    let n = text.unicode_len();
    match find_marker(text) {
        None => false,
        Some(st) => {
            proof {
                lemma_find_pair_in_range(text@, 0, '$', '(');
            }
            match find_close(text, st + 2) {
                None => false,
                Some(en) => en > st + 2,
            }
        },
    }
}

/// Tests whether every operator marker the builder would reach in this
/// snippet is well formed.
#[verifier::loop_isolation(false)]
pub fn markers_ok(node: &SyntaxNode) -> (r: bool)
    ensures
        r == markers_wf(node@),
    decreases *node,
{
    if !node.named {
        return true;
    }
    if is_query(node.kind.as_str()) {
        return marker_ok(node.text.as_str());
    }
    if is_container(node.kind.as_str()) {
        let ghost cv = node_views(node.children@);
        proof {
            lemma_node_views_len(node.children@);
            assert(cv.subrange(0, 0) =~= Seq::<NodeView>::empty());
        }
        let n = node.children.len();
        let mut i: usize = 0;
        while i < n
            invariant
                i <= n,
                markers_list_wf(cv.subrange(0, i as int)),
            decreases n - i,
        {
            proof {
                lemma_node_views_index(node.children@, i as int);
                assert(decreases_to!(*node => node.children@[i as int]));
            }
            let ok = markers_ok(&node.children[i]);
            proof {
                let pre = cv.subrange(0, i as int);
                let cur = cv.subrange(0, i + 1);
                assert(cur.drop_last() =~= pre);
                assert(cur.last() == cv[i as int]);
            }
            if !ok {
                proof {
                    lemma_markers_list_not_wf(cv, i as int);
                }
                return false;
            }
            i = i + 1;
        }
        proof {
            assert(cv.subrange(0, n as int) =~= cv);
        }
        return true;
    }
    true
}

proof fn lemma_markers_list_not_wf(cs: Seq<NodeView>, i: int)
    requires
        0 <= i < cs.len(),
        !markers_wf(cs[i]),
    ensures
        !markers_list_wf(cs),
{
    if markers_list_wf(cs) {
        lemma_markers_list_wf_index(cs, i);
    }
}

/// Tests whether a snippet is admissible for rule construction: its
/// markers are well formed and its size leaves the reference counter
/// headroom. Parsed snippets of any realistic size pass; the check lets a
/// caller establish `snippet_ok` before constructing a rule.
pub fn snippet_admissible(node: &SyntaxNode) -> (r: bool)
    ensures
        r == snippet_ok(node@),
{
    if !markers_ok(node) {
        return false;
    }
    match crate::syntax::checked_weight(node) {
        None => false,
        Some(w) => w < u64::MAX,
    }
}

/// Builds the pattern tree and constraints for a parsed snippet node.
#[verifier::loop_isolation(false)]
pub fn ast(node: &SyntaxNode, generator: &mut Reference) -> (r: (Option<AST>, Vec<Query>))
    requires
        markers_wf(node@),
        old(generator).counter() + weight(node@) <= u64::MAX,
    ensures
        opt_ast_view(r.0) == build_node(node@, old(generator).counter() as int).0,
        queries_view(r.1@) == build_node(node@, old(generator).counter() as int).1,
        final(generator).counter() == build_node(node@, old(generator).counter() as int).2,
    decreases *node,
{
    let ghost c0 = old(generator).counter() as int;
    if !node.named {
        let r = (None::<AST>, Vec::<Query>::new());
        proof {
            assert(queries_view(r.1@) =~= build_node(node@, c0).1);
        }
        return r;
    }
    if is_query(node.kind.as_str()) {
        return process_query(node.text.as_str(), generator);
    }
    if is_container(node.kind.as_str()) {
        let ghost cv = node_views(node.children@);
        proof {
            lemma_node_views_len(node.children@);
            assert(node@.children == cv);
        }
        let mut queries: Vec<Query> = Vec::new();
        let mut children_ast: Vec<AST> = Vec::new();
        let n = node.children.len();
        let mut i: usize = 0;
        proof {
            assert(cv.subrange(0, 0) =~= Seq::<NodeView>::empty());
            assert(ast_views(children_ast@) =~= build_list(cv.subrange(0, 0), c0).0);
            assert(queries_view(queries@) =~= build_list(cv.subrange(0, 0), c0).1);
            assert(cv.subrange(0, cv.len() as int) =~= cv);
            assert(weight(node@) == 1 + weight_seq(cv));
        }
        while i < n
            invariant
                i <= n,
                ast_views(children_ast@) == build_list(cv.subrange(0, i as int), c0).0,
                queries_view(queries@) == build_list(cv.subrange(0, i as int), c0).1,
                generator.counter() == build_list(cv.subrange(0, i as int), c0).2,
                generator.counter() + weight_seq(cv.subrange(i as int, cv.len() as int))
                    <= u64::MAX,
            decreases n - i,
        {
            proof {
                lemma_node_views_index(node.children@, i as int);
                assert(decreases_to!(*node => node.children@[i as int]));
                let single = seq![cv[i as int]];
                assert(cv.subrange(i as int, cv.len() as int) =~= single + cv.subrange(
                    i + 1,
                    cv.len() as int,
                ));
                lemma_weight_seq_concat(single, cv.subrange(i + 1, cv.len() as int));
                assert(single.drop_last() =~= Seq::<NodeView>::empty());
                assert(single.last() == cv[i as int]);
                assert(weight_seq(single) == weight_seq(single.drop_last()) + weight(single.last()));
                assert(weight_seq(single) == weight(cv[i as int]));
                lemma_markers_list_wf_index(cv, i as int);
            }
            let ghost c_i = generator.counter() as int;
            let (child_ast, mut new_queries) = ast(&node.children[i], generator);
            proof {
                let pre = cv.subrange(0, i as int);
                let cur = cv.subrange(0, i + 1);
                assert(cur.drop_last() =~= pre);
                assert(cur.last() == cv[i as int]);
                lemma_build_counter(cv[i as int], c_i);
            }
            match child_ast {
                None => {},
                Some(a) => {
                    let ghost old_children = children_ast@;
                    children_ast.push(a);
                    let ghost old_qs = queries@;
                    let ghost new_qs = new_queries@;
                    queries.append(&mut new_queries);
                    proof {
                        assert(children_ast@.drop_last() =~= old_children);
                        assert(children_ast@.last() == a);
                        assert(ast_views(children_ast@) == ast_views(old_children).push(a@));
                        assert(queries_view(old_qs + new_qs) =~= queries_view(old_qs)
                            + queries_view(new_qs));
                    }
                },
            }
            proof {
                assert(ast_views(children_ast@) =~= build_list(cv.subrange(0, i + 1), c0).0);
                assert(queries_view(queries@) =~= build_list(cv.subrange(0, i + 1), c0).1);
            }
            i = i + 1;
        }
        proof {
            assert(cv.subrange(0, n as int) =~= cv);
        }
        let r = (
            Some(AST::Container { kind: node.kind.clone(), children: children_ast }),
            queries,
        );
        proof {
            assert(opt_ast_view(r.0)->0 =~= build_node(node@, c0).0->0);
        }
        return r;
    }
    let reference = generator.next();
    let mut vals: Vec<String> = Vec::new();
    vals.push(node.text.clone());
    let q = Query::Eq { reference: reference.clone(), values: vals };
    let mut qs: Vec<Query> = Vec::new();
    qs.push(q);
    let r = (Some(AST::Fixed { kind: node.kind.clone(), reference }), qs);
    proof {
        let spec_r = build_node(node@, c0);
        assert(strs_view(r.1@[0]->Eq_values@) =~= spec_r.1[0]->Eq_values);
        assert(r.1@[0]@ =~= spec_r.1[0]);
        assert(queries_view(r.1@) =~= spec_r.1);
    }
    r
}

proof fn lemma_markers_list_wf_index(cs: Seq<NodeView>, i: int)
    requires
        markers_list_wf(cs),
        0 <= i < cs.len(),
    ensures
        markers_wf(cs[i]),
    decreases cs,
{
    if i < cs.len() - 1 {
        lemma_markers_list_wf_index(cs.drop_last(), i);
    }
}

} // verus!
