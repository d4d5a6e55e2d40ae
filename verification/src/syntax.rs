//! The crate's own model of a parsed configuration syntax tree, together
//! with the grammar classifiers the pattern builder consults.
//!
//! The host-language grammar itself is an external collaborator: whatever
//! parses configuration text hands the library one `SyntaxNode` tree per
//! parsed snippet, carrying exactly what the builder reads — named-ness,
//! kind, literal text, byte range, node identity, and ordered children.

use vstd::prelude::*;

use crate::strutil::str_eq;

verus! {

/// One node of a parsed snippet, as the grammar collaborator reports it.
#[derive(Debug)]
pub struct SyntaxNode {
    /// Whether the grammar marks this node as named; unnamed nodes are
    /// skipped by the builder.
    pub named: bool,
    /// The grammar production's name.
    pub kind: String,
    /// The literal source text the node covers.
    pub text: String,
    /// Node identity, stable within one parse.
    pub id: usize,
    /// Start of the node's byte range.
    pub start: usize,
    /// End (exclusive) of the node's byte range.
    pub end: usize,
    /// The node's children, in source order.
    pub children: Vec<SyntaxNode>,
}

/// The mathematical shape of a syntax node.
#[verifier::ext_equal]
pub struct NodeView {
    pub named: bool,
    pub kind: Seq<char>,
    pub text: Seq<char>,
    pub id: usize,
    pub start: usize,
    pub end: usize,
    pub children: Seq<NodeView>,
}

pub open spec fn node_view(n: SyntaxNode) -> NodeView
    decreases n,
{
    NodeView {
        named: n.named,
        kind: n.kind@,
        text: n.text@,
        id: n.id,
        start: n.start,
        end: n.end,
        children: node_views(n.children@),
    }
}

pub open spec fn node_views(cs: Seq<SyntaxNode>) -> Seq<NodeView>
    decreases cs,
{
    if cs.len() == 0 {
        Seq::empty()
    } else {
        node_views(cs.drop_last()).push(node_view(cs.last()))
    }
}

impl View for SyntaxNode {
    type V = NodeView;

    open spec fn view(&self) -> NodeView {
        node_view(*self)
    }
}

pub broadcast proof fn lemma_node_views_len(cs: Seq<SyntaxNode>)
    ensures
        #[trigger] node_views(cs).len() == cs.len(),
    decreases cs,
{
    if cs.len() > 0 {
        lemma_node_views_len(cs.drop_last());
    }
}

pub broadcast proof fn lemma_node_views_index(cs: Seq<SyntaxNode>, i: int)
    requires
        0 <= i < cs.len(),
    ensures
        #[trigger] node_views(cs)[i] == node_view(cs[i]),
    decreases cs,
{
    lemma_node_views_len(cs);
    if i < cs.len() - 1 {
        lemma_node_views_index(cs.drop_last(), i);
    }
}

/// The number of nodes in a tree, counting the root.
pub open spec fn weight(n: NodeView) -> nat
    decreases n,
{
    1 + weight_seq(n.children)
}

pub open spec fn weight_seq(cs: Seq<NodeView>) -> nat
    decreases cs,
{
    if cs.len() == 0 {
        0nat
    } else {
        weight_seq(cs.drop_last()) + weight(cs.last())
    }
}

pub broadcast proof fn lemma_weight_seq_index(cs: Seq<NodeView>, i: int)
    requires
        0 <= i < cs.len(),
    ensures
        #[trigger] weight_seq(cs.subrange(0, i + 1)) == weight_seq(cs.subrange(0, i)) + weight(
            cs[i],
        ),
{
    let cur = cs.subrange(0, i + 1);
    assert(cur.drop_last() =~= cs.subrange(0, i));
    assert(cur.last() == cs[i]);
}

pub proof fn lemma_weight_seq_concat(x: Seq<NodeView>, y: Seq<NodeView>)
    ensures
        weight_seq(x + y) == weight_seq(x) + weight_seq(y),
    decreases y,
{
    if y.len() == 0 {
        assert(x + y =~= x);
    } else {
        lemma_weight_seq_concat(x, y.drop_last());
        assert((x + y).drop_last() =~= x + y.drop_last());
        assert((x + y).last() == y.last());
    }
}

proof fn lemma_weight_seq_prefix(cs: Seq<NodeView>, i: int)
    requires
        0 <= i <= cs.len(),
    ensures
        weight_seq(cs) >= weight_seq(cs.subrange(0, i)),
    decreases cs.len() - i,
{
    if i < cs.len() {
        lemma_weight_seq_index(cs, i);
        lemma_weight_seq_prefix(cs, i + 1);
    } else {
        assert(cs.subrange(0, cs.len() as int) =~= cs);
    }
}

/// Whether the grammar classifies a node kind as the embedded operator
/// marker production.
pub open spec fn is_query_kind(kind: Seq<char>) -> bool {
    kind == "query"@
}

/// Tests whether a node kind is the embedded operator marker production.
pub fn is_query(kind: &str) -> (r: bool)
    ensures
        r == is_query_kind(kind@),
{
    str_eq(kind, "query")
}

/// Whether the grammar classifies a node kind as a container production,
/// one the pattern builder always recurses into.
pub open spec fn is_container_kind(kind: Seq<char>) -> bool {
    ||| kind == "configuration"@
    ||| kind == "resource"@
    ||| kind == "block"@
    ||| kind == "attribute"@
}

/// Tests whether a node kind is a container production.
pub fn is_container(kind: &str) -> (r: bool)
    ensures
        r == is_container_kind(kind@),
{
    str_eq(kind, "configuration") || str_eq(kind, "resource") || str_eq(kind, "block") || str_eq(
        kind,
        "attribute",
    )
}

/// Computes the weight of a tree, or `None` where it exceeds `u64::MAX`.
#[verifier::loop_isolation(false)]
pub fn checked_weight(n: &SyntaxNode) -> (r: Option<u64>)
    ensures
        match r {
            Some(w) => w == weight(n@),
            None => weight(n@) > u64::MAX,
        },
    decreases *n,
{
    let mut acc: u64 = 1;
    let ghost cv = node_views(n.children@);
    proof {
        lemma_node_views_len(n.children@);
        assert(cv.subrange(0, 0) =~= Seq::<NodeView>::empty());
    }
    let count = n.children.len();
    let mut i: usize = 0;
    while i < count
        invariant
            i <= count,
            acc == 1 + weight_seq(cv.subrange(0, i as int)),
        decreases count - i,
    {
        proof {
            lemma_node_views_index(n.children@, i as int);
            assert(decreases_to!(*n => n.children@[i as int]));
        }
        let sub = checked_weight(&n.children[i]);
        proof {
            lemma_weight_seq_index(cv, i as int);
        }
        match sub {
            None => {
                proof {
                    lemma_weight_seq_prefix(cv, i + 1);
                }
                return None;
            },
            Some(w) => {
                match acc.checked_add(w) {
                    None => {
                        proof {
                            lemma_weight_seq_prefix(cv, i + 1);
                        }
                        return None;
                    },
                    Some(total) => {
                        acc = total;
                    },
                }
            },
        }
        i = i + 1;
    }
    proof {
        assert(cv.subrange(0, count as int) =~= cv);
    }
    Some(acc)
}

} // verus!
