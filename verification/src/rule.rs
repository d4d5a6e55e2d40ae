//! Rules: the shared data types, the constraint language attached to a
//! pattern tree, reference generation, and the serialization of
//! constraints into engine predicate clauses.

use vstd::math::min;
use vstd::prelude::*;

use crate::ast::{
    AST,
    AstView,
    ScanState,
    ToSexp,
    captures_of,
    lemma_scan_clean,
    lemma_scan_close,
    lemma_scan_pair,
    lemma_scan_single,
    lemma_scan_concat,
    lemma_scan_open,
    lemma_sexp_scan,
    plain_char,
    scan,
    scan_char,
    scan_ok,
    scan_start,
    sexp_of,
    strs_view,
    token_clean,
    tokens_wf,
};
use crate::builder::{build_node, snippet_ok};
use crate::operations::{
    EngineMatch,
    MatchError,
    MatchView,
    PredArgView,
    PredView,
    PredicateArg,
    QueryPredicate,
    args_view,
    eval_pred,
    find_capture,
    lookup_capture,
    preds_view,
};
use crate::strutil::{dec_of, decimal, escaped, escaped_char, quote, quoted, str_eq};
use crate::syntax::{NodeView, SyntaxNode};

verus! {

/// The verdict a rule attaches to the entities it matches.
#[derive(Clone, Copy, Eq, PartialEq, Structural, Debug)]
pub enum Decision {
    Allow,
    Deny,
}

/// Identity and location of a matched node within one file's parse.
#[derive(Clone, Copy, Eq, PartialEq, Structural, Debug)]
pub struct NodeInfo {
    /// Node identity, stable only within one parse of one file.
    pub id: usize,
    /// Start of the node's byte range in the file.
    pub start: usize,
    /// End (exclusive) of the node's byte range in the file.
    pub end: usize,
}

/// One match of a rule against one parsed file.
#[derive(Clone, Eq, PartialEq, Debug)]
pub struct MatchResult {
    pub node_info: NodeInfo,
    pub decision: Decision,
    pub title: String,
}

/// The mathematical shape of a match result.
#[verifier::ext_equal]
pub struct MatchResultView {
    pub node_info: NodeInfo,
    pub decision: Decision,
    pub title: Seq<char>,
}

impl View for MatchResult {
    type V = MatchResultView;

    open spec fn view(&self) -> MatchResultView {
        MatchResultView { node_info: self.node_info, decision: self.decision, title: self.title@ }
    }
}

/// The views of a sequence of match results.
pub open spec fn results_view(rs: Seq<MatchResult>) -> Seq<MatchResultView> {
    rs.map_values(|r: MatchResult| r@)
}

/// The views of a sequence of reported matches.
pub open spec fn matches_view(ms: Seq<EngineMatch>) -> Seq<MatchView> {
    ms.map_values(|m: EngineMatch| m@)
}

/// Why constructing a rule fails: the example snippet does not parse
/// under the host grammar, the snippet yields no pattern node at all, or
/// the compiled query has no capture named `result`.
#[derive(Clone, Copy, Eq, PartialEq, Structural, Debug)]
pub enum RuleError {
    MalformedSnippet,
    EmptyPattern,
    MissingResultCapture,
}

/// A constraint over one captured leaf, one per reference.
///
/// `Eq` pins the captured text to a literal value, `Match` is reserved for
/// the engine's own pattern comparison, `Or` requires the captured text to
/// be one of the listed values (evaluated locally), and `Unknown` carries
/// an arbitrary named operator whose evaluation is pass-through.
#[derive(Debug, Clone)]
pub enum Query {
    Eq { reference: String, values: Vec<String> },
    Match { reference: String, values: Vec<String> },
    Or { reference: String, values: Vec<String> },
    Unknown { reference: String, operation: String },
}

/// The mathematical shape of a constraint.
#[verifier::ext_equal]
pub enum QueryView {
    Eq { reference: Seq<char>, values: Seq<Seq<char>> },
    Match { reference: Seq<char>, values: Seq<Seq<char>> },
    Or { reference: Seq<char>, values: Seq<Seq<char>> },
    Unknown { reference: Seq<char>, operation: Seq<char> },
}

impl View for Query {
    type V = QueryView;

    open spec fn view(&self) -> QueryView {
        match *self {
            Query::Eq { reference, values } => QueryView::Eq {
                reference: reference@,
                values: strs_view(values@),
            },
            Query::Match { reference, values } => QueryView::Match {
                reference: reference@,
                values: strs_view(values@),
            },
            Query::Or { reference, values } => QueryView::Or {
                reference: reference@,
                values: strs_view(values@),
            },
            Query::Unknown { reference, operation } => QueryView::Unknown {
                reference: reference@,
                operation: operation@,
            },
        }
    }
}

impl QueryView {
    /// The reference this constraint is attached to.
    pub open spec fn reference(self) -> Seq<char> {
        match self {
            QueryView::Eq { reference, .. } => reference,
            QueryView::Match { reference, .. } => reference,
            QueryView::Or { reference, .. } => reference,
            QueryView::Unknown { reference, .. } => reference,
        }
    }
}

/// The values of a constraint rendered as space-separated quoted string
/// literals, as the engine's predicate clauses expect them.
pub open spec fn joined(values: Seq<Seq<char>>) -> Seq<char>
    decreases values,
{
    if values.len() == 0 {
        Seq::empty()
    } else if values.len() == 1 {
        quoted(values[0])
    } else {
        joined(values.drop_last()) + " "@ + quoted(values.last())
    }
}

/// Renders values as space-separated quoted string literals. The quotes
/// matter: the engine compares the captured text against the literal with
/// its quotes stripped.
pub fn join(values: &Vec<String>) -> (r: String)
    ensures
        r@ == joined(strs_view(values@)),
{
    let ghost vs = strs_view(values@);
    proof {
        assert(vs.len() == values@.len());
    }
    let mut s = String::new();
    let n = values.len();
    let mut i: usize = 0;
    while i < n
        invariant
            i <= n,
            n == values@.len(),
            vs == strs_view(values@),
            vs.len() == n,
            s@ == joined(vs.subrange(0, i as int)),
        decreases n - i,
    {
        if i > 0 {
            s.append(" ");
        }
        let q = quote(values[i].as_str());
        s.append(q.as_str());
        proof {
            let pre = vs.subrange(0, i as int);
            let cur = vs.subrange(0, i + 1);
            assert(cur.drop_last() =~= pre);
            assert(cur.last() == vs[i as int]);
            assert(vs[i as int] == values@[i as int]@);
            if i == 0 {
                assert(cur[0] == vs[0]);
            }
            assert(s@ =~= joined(cur));
        }
        i = i + 1;
    }
    proof {
        assert(vs.subrange(0, n as int) =~= vs);
    }
    s
}

/// The predicate clause the compiler writes for one constraint.
pub open spec fn query_sexp(q: QueryView) -> Seq<char> {
    match q {
        QueryView::Unknown { reference, operation } => "(#"@ + operation + "? @"@ + reference
            + ")"@,
        QueryView::Eq { reference, values } => "(#eq? @"@ + reference + " "@ + joined(values)
            + ")"@,
        QueryView::Match { reference, values } => "(#match? @"@ + reference + " "@ + joined(values)
            + ")"@,
        QueryView::Or { reference, values } => "(#or? @"@ + reference + " "@ + joined(values)
            + ")"@,
    }
}

/// The predicate clauses for a whole constraint list, in order, each
/// followed by a space.
pub open spec fn queries_sexp(qs: Seq<QueryView>) -> Seq<char>
    decreases qs,
{
    if qs.len() == 0 {
        Seq::empty()
    } else {
        queries_sexp(qs.drop_last()) + query_sexp(qs.last()) + " "@
    }
}

/// The views of a sequence of constraints.
pub open spec fn queries_view(qs: Seq<Query>) -> Seq<QueryView> {
    qs.map_values(|q: Query| q@)
}

impl ToSexp for Query {
    open spec fn sexp_spec(&self) -> Seq<char> {
        query_sexp(self@)
    }

    fn to_sexp(&self) -> (r: String) {
        match self {
            Query::Unknown { reference, operation } => {
                let mut s = String::new();
                s.append("(#");
                s.append(operation.as_str());
                s.append("? @");
                s.append(reference.as_str());
                s.append(")");
                proof {
                    assert(s@ =~= query_sexp(self@));
                }
                s
            },
            Query::Eq { reference, values } => {
                let mut s = String::new();
                s.append("(#eq? @");
                s.append(reference.as_str());
                s.append(" ");
                let j = join(values);
                s.append(j.as_str());
                s.append(")");
                proof {
                    assert(s@ =~= query_sexp(self@));
                }
                s
            },
            Query::Match { reference, values } => {
                let mut s = String::new();
                s.append("(#match? @");
                s.append(reference.as_str());
                s.append(" ");
                let j = join(values);
                s.append(j.as_str());
                s.append(")");
                proof {
                    assert(s@ =~= query_sexp(self@));
                }
                s
            },
            Query::Or { reference, values } => {
                let mut s = String::new();
                s.append("(#or? @");
                s.append(reference.as_str());
                s.append(" ");
                let j = join(values);
                s.append(j.as_str());
                s.append(")");
                proof {
                    assert(s@ =~= query_sexp(self@));
                }
                s
            },
        }
    }
}

/// Serializes a constraint list into its predicate clauses.
pub fn sexp(queries: &Vec<Query>) -> (r: String)
    ensures
        r@ == queries_sexp(queries_view(queries@)),
{
    let ghost qv = queries_view(queries@);
    proof {
        assert(qv.len() == queries@.len());
    }
    let mut s = String::new();
    proof {
        assert(qv.subrange(0, 0) =~= Seq::<QueryView>::empty());
        assert(s@ =~= queries_sexp(qv.subrange(0, 0)));
    }
    let n = queries.len();
    let mut i: usize = 0;
    while i < n
        invariant
            i <= n,
            n == queries@.len(),
            qv == queries_view(queries@),
            qv.len() == n,
            s@ == queries_sexp(qv.subrange(0, i as int)),
        decreases n - i,
    {
        let q = queries[i].to_sexp();
        s.append(q.as_str());
        s.append(" ");
        proof {
            let pre = qv.subrange(0, i as int);
            let cur = qv.subrange(0, i + 1);
            assert(cur.drop_last() =~= pre);
            assert(cur.last() == qv[i as int]);
            assert(qv[i as int] == queries@[i as int]@);
            assert(s@ =~= queries_sexp(cur));
        }
        i = i + 1;
    }
    proof {
        assert(qv.subrange(0, n as int) =~= qv);
    }
    s
}


/// The first position of `name` in a capture list, if any.
pub open spec fn position_of(caps: Seq<Seq<char>>, name: Seq<char>) -> Option<int>
    decreases caps,
{
    if caps.len() == 0 {
        None
    } else if caps[0] == name {
        Some(0)
    } else {
        match position_of(caps.drop_first(), name) {
            Some(j) => Some(j + 1),
            None => None,
        }
    }
}

pub proof fn lemma_position_of_some(caps: Seq<Seq<char>>, name: Seq<char>)
    requires
        caps.contains(name),
    ensures
        position_of(caps, name) matches Some(j) && 0 <= j < caps.len() && caps[j] == name,
    decreases caps,
{
    if caps[0] != name {
        let i = choose|i: int| 0 <= i < caps.len() && caps[i] == name;
        assert(caps.drop_first()[i - 1] == name);
        assert(caps.drop_first().contains(name));
        lemma_position_of_some(caps.drop_first(), name);
    }
}

/// Finds the first capture with the given name.
fn position_of_str(caps: &Vec<String>, name: &str) -> (r: Option<usize>)
    ensures
        match r {
            Some(j) => position_of(strs_view(caps@), name@) == Some(j as int),
            None => position_of(strs_view(caps@), name@) is None,
        },
{
    let ghost cv = strs_view(caps@);
    let n = caps.len();
    let mut i: usize = 0;
    while i < n
        invariant
            i <= n,
            n == cv.len(),
            cv == strs_view(caps@),
            forall|j: int| 0 <= j < i ==> cv[j] != name@,
        decreases n - i,
    {
        if str_eq(caps[i].as_str(), name) {
            proof {
                lemma_position_of_prefix(cv, name@, i as int);
            }
            return Some(i);
        }
        i = i + 1;
    }
    proof {
        lemma_position_of_absent(cv, name@);
    }
    None
}

proof fn lemma_position_of_prefix(caps: Seq<Seq<char>>, name: Seq<char>, i: int)
    requires
        0 <= i < caps.len(),
        caps[i] == name,
        forall|j: int| 0 <= j < i ==> caps[j] != name,
    ensures
        position_of(caps, name) == Some(i),
    decreases i,
{
    if i > 0 {
        lemma_position_of_prefix(caps.drop_first(), name, i - 1);
    }
}

proof fn lemma_position_of_absent(caps: Seq<Seq<char>>, name: Seq<char>)
    requires
        forall|j: int| 0 <= j < caps.len() ==> caps[j] != name,
    ensures
        position_of(caps, name) is None,
    decreases caps,
{
    if caps.len() > 0 {
        lemma_position_of_absent(caps.drop_first(), name);
    }
}

/// The literal arguments of a predicate clause, one per constraint value.
pub open spec fn lits_of(values: Seq<Seq<char>>) -> Seq<PredArgView> {
    values.map_values(|v: Seq<char>| PredArgView::Literal(v))
}

/// The generic predicate clause the engine reports for one constraint,
/// with capture references resolved to their slots in the capture list.
/// `Eq` and `Match` yield none: the engine evaluates those natively.
pub open spec fn pred_of(q: QueryView, caps: Seq<Seq<char>>) -> Option<PredView> {
    match q {
        QueryView::Or { reference, values } => Some(
            PredView {
                operator: "or?"@,
                args: seq![PredArgView::Capture(position_of(caps, reference)->0 as usize)]
                    + lits_of(values),
            },
        ),
        QueryView::Unknown { reference, operation } => Some(
            PredView {
                operator: operation + "?"@,
                args: seq![PredArgView::Capture(position_of(caps, reference)->0 as usize)],
            },
        ),
        QueryView::Eq { .. } => None,
        QueryView::Match { .. } => None,
    }
}

/// The generic predicate clauses for a constraint list, in order.
pub open spec fn preds_of(qs: Seq<QueryView>, caps: Seq<Seq<char>>) -> Seq<PredView>
    decreases qs,
{
    if qs.len() == 0 {
        Seq::empty()
    } else {
        match pred_of(qs[0], caps) {
            Some(p) => seq![p] + preds_of(qs.drop_first(), caps),
            None => preds_of(qs.drop_first(), caps),
        }
    }
}

/// The complete query text for one rule: the pattern tree serialization
/// and the trailing predicate clauses, wrapped in one outer pair of
/// parentheses.
pub open spec fn rule_sexp(a: AstView, qs: Seq<QueryView>) -> Seq<char> {
    "("@ + sexp_of(a) + queries_sexp(qs) + ")"@
}

/// Why constructing a rule from this snippet fails, if it does: the
/// builder finds nothing meaningful, or the compiled query has no
/// capture named `result`.
pub open spec fn rule_error_of(n: NodeView) -> Option<RuleError> {
    match build_node(n, 1).0 {
        None => Some(RuleError::EmptyPattern),
        Some(a) => if position_of(captures_of(a), "result"@) is None {
            Some(RuleError::MissingResultCapture)
        } else {
            None
        },
    }
}

/// The relation `Rule::new` establishes between a successfully compiled
/// rule and its inputs: the query text is the snippet's compiled pattern
/// and constraint clauses, the capture names are those of the pattern in
/// order of appearance, `result_index` is the slot of the `result`
/// capture, and the stored generic predicates are the `Or` and `Unknown`
/// constraints with their references resolved to capture slots.
pub open spec fn compiled_from(
    rule: Rule,
    title: Seq<char>,
    decision: Decision,
    n: NodeView,
) -> bool {
    let b = build_node(n, 1);
    b.0 matches Some(a) && {
        let caps = captures_of(a);
        &&& position_of(caps, "result"@) matches Some(ri) && rule.result_index as int == ri
        &&& rule.title@ == title
        &&& rule.decision == decision
        &&& rule.query_text@ == rule_sexp(a, b.1)
        &&& strs_view(rule.capture_names@) == caps
        &&& preds_view(rule.predicates@) == preds_of(b.1, caps)
    }
}

/// One compiled rule: its title, its decision, the query text handed to
/// the engine's query compiler, the capture names of that query in order
/// of appearance, the slot of the distinguished `result` capture, and the
/// generic predicate clauses the engine leaves to local evaluation.
#[derive(Debug)]
pub struct Rule {
    pub title: String,
    pub decision: Decision,
    pub result_index: usize,
    pub query_text: String,
    pub capture_names: Vec<String>,
    pub predicates: Vec<QueryPredicate>,
}

fn compose_sexp(node: &AST, queries: &Vec<Query>) -> (r: String)
    ensures
        r@ == rule_sexp(node@, queries_view(queries@)),
{
    let mut text = String::new();
    text.append("(");
    let node_s = node.sexp();
    text.append(node_s.as_str());
    let qs_s = sexp(queries);
    text.append(qs_s.as_str());
    text.append(")");
    proof {
        assert(text@ =~= rule_sexp(node@, queries_view(queries@)));
    }
    text
}

impl Rule {
    /// Compiles a parsed snippet into the engine's query text: the pattern
    /// tree serialization followed by the constraint clauses.
    pub fn to_sexp(snippet: &SyntaxNode) -> (r: Result<String, RuleError>)
        requires
            snippet_ok(snippet@),
        ensures
            match build_node(snippet@, 1).0 {
                None => r == Err::<String, RuleError>(RuleError::EmptyPattern),
                Some(a) => r matches Ok(s) && s@ == rule_sexp(a, build_node(snippet@, 1).1),
            },
    {
        let mut generator = Reference::new();
        let (node_opt, queries) = crate::builder::ast(snippet, &mut generator);
        match node_opt {
            None => Err(RuleError::EmptyPattern),
            Some(node) => Ok(compose_sexp(&node, &queries)),
        }
    }

    /// Constructs a rule from a title, a decision, and a parsed example
    /// snippet.
    ///
    /// Fails with `EmptyPattern` where the builder finds nothing
    /// meaningful in the snippet, and with `MissingResultCapture` where
    /// the compiled query has no capture named `result`. The caller maps
    /// snippets that failed to parse to `MalformedSnippet` before ever
    /// reaching this constructor.
    pub fn new(title: String, decision: Decision, snippet: &SyntaxNode) -> (r: Result<
        Rule,
        RuleError,
    >)
        requires
            snippet_ok(snippet@),
        ensures
            match r {
                Err(e) => rule_error_of(snippet@) == Some(e),
                Ok(rule) => rule_error_of(snippet@) is None && compiled_from(
                    rule,
                    title@,
                    decision,
                    snippet@,
                ),
            },
    {
        let mut generator = Reference::new();
        let (node_opt, queries) = crate::builder::ast(snippet, &mut generator);
        let node = match node_opt {
            None => {
                return Err(RuleError::EmptyPattern);
            },
            Some(node) => node,
        };
        let query_text = compose_sexp(&node, &queries);
        let capture_names = node.captures();
        let result_index = match position_of_str(&capture_names, "result") {
            None => {
                return Err(RuleError::MissingResultCapture);
            },
            Some(i) => i,
        };
        proof {
            crate::builder::lemma_build_refs_in_captures(snippet@, 1);
        }
        let ghost caps = strs_view(capture_names@);
        let ghost qv = queries_view(queries@);
        let mut predicates: Vec<QueryPredicate> = Vec::new();
        let n = queries.len();
        let mut i: usize = 0;
        proof {
            assert(qv.subrange(0, n as int) =~= qv);
            assert(preds_view(predicates@) =~= Seq::<PredView>::empty());
            assert(preds_view(predicates@) + preds_of(qv, caps) =~= preds_of(qv, caps));
        }
        while i < n
            invariant
                i <= n,
                n == qv.len(),
                qv == queries_view(queries@),
                caps == strs_view(capture_names@),
                forall|k: int| 0 <= k < qv.len() ==> caps.contains(#[trigger] qv[k].reference()),
                preds_of(qv, caps) == preds_view(predicates@) + preds_of(
                    qv.subrange(i as int, n as int),
                    caps,
                ),
            decreases n - i,
        {
            proof {
                let suf = qv.subrange(i as int, n as int);
                assert(suf[0] == qv[i as int]);
                assert(suf.drop_first() =~= qv.subrange(i + 1, n as int));
                assert(qv[i as int] == queries@[i as int]@);
            }
            let ghost old_preds = predicates@;
            match &queries[i] {
                Query::Or { reference, values } => {
                    proof {
                        assert(caps.contains(qv[i as int].reference()));
                        assert(qv[i as int].reference() == reference@);
                        lemma_position_of_some(caps, reference@);
                    }
                    let idx = match position_of_str(&capture_names, reference.as_str()) {
                        None => {
                            proof {
                                assert(false);
                            }
                            unreached()
                        },
                        Some(idx) => idx,
                    };
                    let mut args: Vec<PredicateArg> = Vec::new();
                    args.push(PredicateArg::Capture(idx));
                    proof {
                        assert(args_view(args@) =~= seq![PredArgView::Capture(idx)] + lits_of(
                            strs_view(values@.subrange(0, 0)),
                        ));
                    }
                    let vn = values.len();
                    let mut j: usize = 0;
                    while j < vn
                        invariant
                            j <= vn,
                            vn == values@.len(),
                            args_view(args@) == seq![PredArgView::Capture(idx)] + lits_of(
                                strs_view(values@.subrange(0, j as int)),
                            ),
                        decreases vn - j,
                    {
                        let ghost old_args = args@;
                        args.push(PredicateArg::Literal(values[j].clone()));
                        proof {
                            assert(args@.drop_last() =~= old_args);
                            assert(args_view(args@) =~= args_view(old_args).push(
                                PredArgView::Literal(values@[j as int]@),
                            ));
                            assert(args_view(args@) =~= seq![PredArgView::Capture(idx)] + lits_of(
                                strs_view(values@.subrange(0, j + 1)),
                            ));
                        }
                        j = j + 1;
                    }
                    proof {
                        assert(values@.subrange(0, vn as int) =~= values@);
                    }
                    let p = QueryPredicate { operator: String::from_str("or?"), args };
                    predicates.push(p);
                    proof {
                        assert(predicates@.drop_last() =~= old_preds);
                        assert(preds_view(predicates@) =~= preds_view(old_preds).push(
                            predicates@.last()@,
                        ));
                        assert(predicates@.last()@ =~= pred_of(qv[i as int], caps)->0);
                        assert(preds_view(old_preds).push(pred_of(qv[i as int], caps)->0)
                            =~= preds_view(old_preds) + seq![pred_of(qv[i as int], caps)->0]);
                    }
                },
                Query::Unknown { reference, operation } => {
                    proof {
                        assert(caps.contains(qv[i as int].reference()));
                        assert(qv[i as int].reference() == reference@);
                        lemma_position_of_some(caps, reference@);
                    }
                    let idx = match position_of_str(&capture_names, reference.as_str()) {
                        None => {
                            proof {
                                assert(false);
                            }
                            unreached()
                        },
                        Some(idx) => idx,
                    };
                    let mut args: Vec<PredicateArg> = Vec::new();
                    args.push(PredicateArg::Capture(idx));
                    let operator = operation.clone().concat("?");
                    let p = QueryPredicate { operator, args };
                    predicates.push(p);
                    proof {
                        assert(predicates@.drop_last() =~= old_preds);
                        assert(preds_view(predicates@) =~= preds_view(old_preds).push(
                            predicates@.last()@,
                        ));
                        assert(predicates@.last()@.args =~= pred_of(qv[i as int], caps)->0.args);
                        assert(predicates@.last()@ =~= pred_of(qv[i as int], caps)->0);
                        assert(preds_view(old_preds).push(pred_of(qv[i as int], caps)->0)
                            =~= preds_view(old_preds) + seq![pred_of(qv[i as int], caps)->0]);
                    }
                },
                Query::Eq { .. } => {},
                Query::Match { .. } => {},
            }
            i = i + 1;
        }
        proof {
            assert(qv.subrange(n as int, n as int) =~= Seq::<QueryView>::empty());
            assert(preds_view(predicates@) + Seq::<PredView>::empty() =~= preds_view(predicates@));
        }
        Ok(
            Rule {
                title,
                decision,
                result_index,
                query_text,
                capture_names,
                predicates,
            },
        )
    }
}


/// Evaluating a list of generic predicates against one reported match:
/// true only when every predicate holds, evaluated in order with the
/// first failing or erring predicate deciding the outcome.
pub open spec fn eval_preds(ps: Seq<PredView>, m: MatchView) -> Result<bool, MatchError>
    decreases ps,
{
    if ps.len() == 0 {
        Ok(true)
    } else {
        match eval_pred(ps[0], m) {
            Err(e) => Err(e),
            Ok(false) => Ok(false),
            Ok(true) => eval_preds(ps.drop_first(), m),
        }
    }
}

/// What one reported structural match contributes: nothing where a
/// generic predicate fails, one match result where all hold, and an
/// error where evaluation or the result capture's resolution fails.
pub open spec fn one_match(
    ps: Seq<PredView>,
    result_index: usize,
    decision: Decision,
    title: Seq<char>,
    m: MatchView,
) -> Result<Option<MatchResultView>, MatchError> {
    match eval_preds(ps, m) {
        Err(e) => Err(e),
        Ok(false) => Ok(None),
        Ok(true) => match find_capture(m.captures, result_index) {
            None => Err(MatchError::UnresolvedCapture),
            Some(cap) => Ok(
                Some(MatchResultView { node_info: cap.node, decision, title }),
            ),
        },
    }
}

/// The match results for a list of reported matches, in order; the first
/// failing match decides the error.
pub open spec fn matches_spec(
    ps: Seq<PredView>,
    result_index: usize,
    decision: Decision,
    title: Seq<char>,
    ms: Seq<MatchView>,
) -> Result<Seq<MatchResultView>, MatchError>
    decreases ms,
{
    if ms.len() == 0 {
        Ok(Seq::empty())
    } else {
        match one_match(ps, result_index, decision, title, ms[0]) {
            Err(e) => Err(e),
            Ok(opt) => match matches_spec(ps, result_index, decision, title, ms.drop_first()) {
                Err(e) => Err(e),
                Ok(rest) => Ok(
                    match opt {
                        Some(r) => seq![r] + rest,
                        None => rest,
                    },
                ),
            },
        }
    }
}

impl Rule {
    /// The match results this rule yields for the given reported matches.
    pub open spec fn matches_of(&self, ms: Seq<MatchView>) -> Result<
        Seq<MatchResultView>,
        MatchError,
    > {
        matches_spec(
            preds_view(self.predicates@),
            self.result_index,
            self.decision,
            self.title@,
            ms,
        )
    }

    /// Evaluates this rule against the structural matches the engine
    /// reported for one parsed file: keeps each match whose generic
    /// predicates all hold, resolves its `result` capture, and emits one
    /// match result for it. Zero reported matches yield zero results.
    pub fn matches(&self, reported: &Vec<EngineMatch>) -> (r: Result<Vec<MatchResult>, MatchError>)
        ensures
            match self.matches_of(matches_view(reported@)) {
                Ok(s) => r matches Ok(v) && results_view(v@) == s,
                Err(e) => r == Err::<Vec<MatchResult>, MatchError>(e),
            },
    {
        let ghost pv = preds_view(self.predicates@);
        let ghost mv = matches_view(reported@);
        let mut results: Vec<MatchResult> = Vec::new();
        let n = reported.len();
        let mut i: usize = 0;
        proof {
            assert(mv.subrange(0, n as int) =~= mv);
            assert(results_view(results@) =~= Seq::<MatchResultView>::empty());
            match self.matches_of(mv.subrange(0, n as int)) {
                Ok(rest) => {
                    assert(results_view(results@) + rest =~= rest);
                },
                Err(_) => {},
            }
        }
        while i < n
            invariant
                i <= n,
                n == mv.len(),
                mv == matches_view(reported@),
                pv == preds_view(self.predicates@),
                ({
                    let full = self.matches_of(mv);
                    let rest = self.matches_of(mv.subrange(i as int, n as int));
                    match rest {
                        Ok(s) => full matches Ok(f) && f == results_view(results@) + s,
                        Err(e) => full == Err::<Seq<MatchResultView>, MatchError>(e),
                    }
                }),
            decreases n - i,
        {
            proof {
                let suf = mv.subrange(i as int, n as int);
                assert(suf[0] == mv[i as int]);
                assert(suf.drop_first() =~= mv.subrange(i + 1, n as int));
                assert(mv[i as int] == reported@[i as int]@);
            }
            let m = &reported[i];
            let pn = self.predicates.len();
            let mut j: usize = 0;
            let mut passes = true;
            proof {
                assert(pv.subrange(0, pn as int) =~= pv);
            }
            while j < pn && passes
                invariant
                    j <= pn,
                    pn == pv.len(),
                    pv == preds_view(self.predicates@),
                    m@ == mv.subrange(i as int, n as int)[0],
                    m@ == mv[i as int],
                    0 <= i < n <= mv.len(),
                    n == mv.len(),
                    mv == matches_view(reported@),
                    ({
                        let full = self.matches_of(mv);
                        let rest = self.matches_of(mv.subrange(i as int, n as int));
                        match rest {
                            Ok(s) => full matches Ok(f) && f == results_view(results@) + s,
                            Err(e) => full == Err::<Seq<MatchResultView>, MatchError>(e),
                        }
                    }),
                    passes ==> eval_preds(pv, m@) == eval_preds(
                        pv.subrange(j as int, pn as int),
                        m@,
                    ),
                    !passes ==> eval_preds(pv, m@) == Ok::<bool, MatchError>(false),
                decreases pn - j,
            {
                proof {
                    let psuf = pv.subrange(j as int, pn as int);
                    assert(psuf[0] == pv[j as int]);
                    assert(psuf.drop_first() =~= pv.subrange(j + 1, pn as int));
                    assert(pv[j as int] == self.predicates@[j as int]@);
                }
                let pred = crate::operations::read_operation(&self.predicates[j], m);
                match pred {
                    Err(e) => {
                        proof {
                            lemma_matches_spec_err(
                                pv,
                                self.result_index,
                                self.decision,
                                self.title@,
                                mv,
                                i as int,
                                e,
                            );
                        }
                        return Err(e);
                    },
                    Ok(p) => {
                        if !p.check() {
                            passes = false;
                        }
                    },
                }
                j = j + 1;
            }
            proof {
                if passes {
                    assert(pv.subrange(pn as int, pn as int) =~= Seq::<PredView>::empty());
                    assert(eval_preds(pv, m@) == Ok::<bool, MatchError>(true));
                }
            }
            if passes {
                match lookup_capture(m, self.result_index) {
                    None => {
                        proof {
                            lemma_matches_spec_err(
                                pv,
                                self.result_index,
                                self.decision,
                                self.title@,
                                mv,
                                i as int,
                                MatchError::UnresolvedCapture,
                            );
                        }
                        return Err(MatchError::UnresolvedCapture);
                    },
                    Some(cap) => {
                        let ghost old_results = results@;
                        results.push(
                            MatchResult {
                                node_info: cap.node,
                                decision: self.decision,
                                title: self.title.clone(),
                            },
                        );
                        proof {
                            assert(results@.drop_last() =~= old_results);
                            assert(results_view(results@) =~= results_view(old_results).push(
                                results@.last()@,
                            ));
                            let suf = mv.subrange(i as int, n as int);
                            let om = one_match(
                                pv,
                                self.result_index,
                                self.decision,
                                self.title@,
                                mv[i as int],
                            );
                            assert(om matches Ok(o) && o matches Some(rv) && results@.last()@
                                == rv);
                            match self.matches_of(mv.subrange(i + 1, n as int)) {
                                Ok(rest) => {
                                    assert(results_view(old_results) + (seq![results@.last()@]
                                        + rest) =~= results_view(results@) + rest);
                                },
                                Err(_) => {},
                            }
                        }
                    },
                }
            }
            i = i + 1;
        }
        proof {
            assert(mv.subrange(n as int, n as int) =~= Seq::<MatchView>::empty());
            match self.matches_of(mv) {
                Ok(f) => {
                    assert(f =~= results_view(results@));
                },
                Err(_) => {},
            }
        }
        Ok(results)
    }
}

/// Matching is idempotent: one compiled rule evaluated twice over the
/// same reported matches yields identical match result sets. The
/// evaluation is a function of the rule and the reported matches alone —
/// no hidden state takes part.
pub proof fn lemma_matches_deterministic(
    rule: &Rule,
    ms: Seq<MatchView>,
    r1: Result<Seq<MatchResultView>, MatchError>,
    r2: Result<Seq<MatchResultView>, MatchError>,
)
    requires
        r1 == rule.matches_of(ms),
        r2 == rule.matches_of(ms),
    ensures
        r1 == r2,
{
}

/// Where every reported match before position `i` contributed normally
/// and evaluating match `i` fails, the whole evaluation fails with that
/// error.
proof fn lemma_matches_spec_err(
    ps: Seq<PredView>,
    result_index: usize,
    decision: Decision,
    title: Seq<char>,
    ms: Seq<MatchView>,
    i: int,
    e: MatchError,
)
    requires
        0 <= i < ms.len(),
        one_match(ps, result_index, decision, title, ms[i]) == Err::<
            Option<MatchResultView>,
            MatchError,
        >(e),
    ensures
        one_match(ps, result_index, decision, title, ms.subrange(i, ms.len() as int)[0]) == Err::<
            Option<MatchResultView>,
            MatchError,
        >(e),
        matches_spec(ps, result_index, decision, title, ms.subrange(i, ms.len() as int)) == Err::<
            Seq<MatchResultView>,
            MatchError,
        >(e),
{
    let suf = ms.subrange(i, ms.len() as int);
    assert(suf[0] == ms[i]);
}


/// The serialization tokens of a constraint are token texts: its
/// reference and, for a named operator, the operator name. Its values
/// need no condition at all: they are rendered as quoted, escaped string
/// literals, which the engine's lexer passes over whatever they hold.
pub open spec fn query_tokens_wf(q: QueryView) -> bool {
    match q {
        QueryView::Eq { reference, .. } => token_clean(reference),
        QueryView::Match { reference, .. } => token_clean(reference),
        QueryView::Or { reference, .. } => token_clean(reference),
        QueryView::Unknown { reference, operation } => token_clean(reference) && token_clean(
            operation,
        ),
    }
}

pub open spec fn queries_tokens_wf(qs: Seq<QueryView>) -> bool {
    forall|k: int| 0 <= k < qs.len() ==> query_tokens_wf(#[trigger] qs[k])
}

/// Scanning the escape-encoded body of a string literal never leaves the
/// string: every quote and backslash of the value is escaped, everything
/// else stands inside the literal where the lexer ignores it.
proof fn lemma_scan_escaped(v: Seq<char>, st: ScanState)
    requires
        st.in_str,
        !st.esc,
    ensures
        scan(escaped(v), st) == st,
    decreases v.len(),
{
    if v.len() > 0 {
        lemma_scan_escaped(v.drop_last(), st);
        lemma_scan_concat(escaped(v.drop_last()), escaped_char(v.last()), st);
        let c = v.last();
        if c == '"' || c == '\\' {
            let pair = escaped_char(c);
            assert(pair =~= seq!['\\', pair.last()]);
            lemma_scan_pair('\\', pair.last(), st);
        } else {
            assert(escaped_char(c) =~= seq![c]);
            lemma_scan_single(c, st);
        }
    }
}

/// Scanning a whole quoted string literal from outside a string changes
/// nothing, whatever the value holds.
proof fn lemma_scan_quoted(v: Seq<char>, st: ScanState)
    requires
        !st.in_str,
        !st.esc,
    ensures
        scan(quoted(v), st) == st,
{
    let open = seq!['"'];
    lemma_scan_single('"', st);
    let st1 = scan_char(st, '"');
    lemma_scan_escaped(v, st1);
    lemma_scan_single('"', st1);
    assert(scan_char(st1, '"') == st);
    lemma_scan_concat(open, escaped(v), st);
    lemma_scan_concat(open + escaped(v), open, st);
}

proof fn lemma_scan_joined(vs: Seq<Seq<char>>, st: ScanState)
    requires
        !st.in_str,
        !st.esc,
    ensures
        scan(joined(vs), st) == st,
    decreases vs,
{
    if vs.len() == 0 {
    } else if vs.len() == 1 {
        lemma_scan_quoted(vs[0], st);
    } else {
        lemma_scan_joined(vs.drop_last(), st);
        reveal_strlit(" ");
        assert(token_clean(" "@)) by {
            assert(" "@ =~= seq![' ']);
            assert(plain_char(" "@[0]));
        }
        lemma_scan_clean(" "@, st);
        lemma_scan_quoted(vs.last(), st);
        lemma_scan_concat(joined(vs.drop_last()), " "@, st);
        lemma_scan_concat(joined(vs.drop_last()) + " "@, quoted(vs.last()), st);
    }
}

/// The predicate clause of a token-well-formed constraint is
/// scan-neutral: balanced, never dipping below the surrounding balance,
/// with every string literal closed.
pub proof fn lemma_query_sexp_scan(q: QueryView, st: ScanState)
    requires
        query_tokens_wf(q),
        scan_ok(st),
    ensures
        scan(query_sexp(q), st) == st,
{
    reveal_strlit("(");
    reveal_strlit(" ");
    assert(token_clean(" "@)) by {
        assert(" "@ =~= seq![' ']);
        assert(plain_char(" "@[0]));
    }
    match q {
        QueryView::Eq { reference, values } => {
            reveal_strlit("(#eq? @");
            let tail = seq!['#', 'e', 'q', '?', ' ', '@'];
            assert("(#eq? @"@ =~= "("@ + tail);
            lemma_scan_open(st);
            let st1 = scan("("@, st);
            assert(token_clean(tail)) by {
                assert(forall|i: int| 0 <= i < tail.len() ==> plain_char(#[trigger] tail[i]));
            }
            lemma_scan_clean(tail, st1);
            lemma_scan_concat("("@, tail, st);
            lemma_scan_clean(reference, st1);
            lemma_scan_clean(" "@, st1);
            lemma_scan_joined(values, st1);
            lemma_scan_close(st1);
            assert(min(st.low, st1.bal - 1) == st.low);
            lemma_scan_concat("(#eq? @"@, reference, st);
            lemma_scan_concat("(#eq? @"@ + reference, " "@, st);
            lemma_scan_concat("(#eq? @"@ + reference + " "@, joined(values), st);
            lemma_scan_concat("(#eq? @"@ + reference + " "@ + joined(values), ")"@, st);
        },
        QueryView::Match { reference, values } => {
            reveal_strlit("(#match? @");
            let tail = seq!['#', 'm', 'a', 't', 'c', 'h', '?', ' ', '@'];
            assert("(#match? @"@ =~= "("@ + tail);
            lemma_scan_open(st);
            let st1 = scan("("@, st);
            assert(token_clean(tail)) by {
                assert(forall|i: int| 0 <= i < tail.len() ==> plain_char(#[trigger] tail[i]));
            }
            lemma_scan_clean(tail, st1);
            lemma_scan_concat("("@, tail, st);
            lemma_scan_clean(reference, st1);
            lemma_scan_clean(" "@, st1);
            lemma_scan_joined(values, st1);
            lemma_scan_close(st1);
            assert(min(st.low, st1.bal - 1) == st.low);
            lemma_scan_concat("(#match? @"@, reference, st);
            lemma_scan_concat("(#match? @"@ + reference, " "@, st);
            lemma_scan_concat("(#match? @"@ + reference + " "@, joined(values), st);
            lemma_scan_concat("(#match? @"@ + reference + " "@ + joined(values), ")"@, st);
        },
        QueryView::Or { reference, values } => {
            reveal_strlit("(#or? @");
            let tail = seq!['#', 'o', 'r', '?', ' ', '@'];
            assert("(#or? @"@ =~= "("@ + tail);
            lemma_scan_open(st);
            let st1 = scan("("@, st);
            assert(token_clean(tail)) by {
                assert(forall|i: int| 0 <= i < tail.len() ==> plain_char(#[trigger] tail[i]));
            }
            lemma_scan_clean(tail, st1);
            lemma_scan_concat("("@, tail, st);
            lemma_scan_clean(reference, st1);
            lemma_scan_clean(" "@, st1);
            lemma_scan_joined(values, st1);
            lemma_scan_close(st1);
            assert(min(st.low, st1.bal - 1) == st.low);
            lemma_scan_concat("(#or? @"@, reference, st);
            lemma_scan_concat("(#or? @"@ + reference, " "@, st);
            lemma_scan_concat("(#or? @"@ + reference + " "@, joined(values), st);
            lemma_scan_concat("(#or? @"@ + reference + " "@ + joined(values), ")"@, st);
        },
        QueryView::Unknown { reference, operation } => {
            reveal_strlit("(#");
            assert("(#"@ =~= "("@ + seq!['#']);
            lemma_scan_open(st);
            let st1 = scan("("@, st);
            assert(token_clean(seq!['#'])) by {
                assert(plain_char(seq!['#'][0]));
            }
            lemma_scan_clean(seq!['#'], st1);
            lemma_scan_concat("("@, seq!['#'], st);
            lemma_scan_clean(operation, st1);
            reveal_strlit("? @");
            assert(token_clean("? @"@)) by {
                assert("? @"@ =~= seq!['?', ' ', '@']);
                assert(forall|i: int| 0 <= i < "? @"@.len() ==> plain_char(#[trigger] "? @"@[i]));
            }
            lemma_scan_clean("? @"@, st1);
            lemma_scan_clean(reference, st1);
            lemma_scan_close(st1);
            assert(min(st.low, st1.bal - 1) == st.low);
            lemma_scan_concat("(#"@, operation, st);
            lemma_scan_concat("(#"@ + operation, "? @"@, st);
            lemma_scan_concat("(#"@ + operation + "? @"@, reference, st);
            lemma_scan_concat("(#"@ + operation + "? @"@ + reference, ")"@, st);
        },
    }
}

pub proof fn lemma_queries_sexp_scan(qs: Seq<QueryView>, st: ScanState)
    requires
        queries_tokens_wf(qs),
        scan_ok(st),
    ensures
        scan(queries_sexp(qs), st) == st,
    decreases qs,
{
    if qs.len() > 0 {
        assert(queries_tokens_wf(qs.drop_last())) by {
            assert forall|k: int| 0 <= k < qs.drop_last().len() implies query_tokens_wf(
                #[trigger] qs.drop_last()[k],
            ) by {
                assert(qs.drop_last()[k] == qs[k]);
            }
        }
        lemma_queries_sexp_scan(qs.drop_last(), st);
        assert(query_tokens_wf(qs.last())) by {
            assert(qs.last() == qs[qs.len() - 1]);
        }
        lemma_query_sexp_scan(qs.last(), st);
        reveal_strlit(" ");
        assert(token_clean(" "@)) by {
            assert(" "@ =~= seq![' ']);
            assert(plain_char(" "@[0]));
        }
        lemma_scan_clean(" "@, st);
        lemma_scan_concat(queries_sexp(qs.drop_last()), query_sexp(qs.last()), st);
        lemma_scan_concat(queries_sexp(qs.drop_last()) + query_sexp(qs.last()), " "@, st);
    }
}

/// The complete query text of a token-well-formed pattern tree and
/// constraint list is well formed for the engine's lexer: parentheses
/// pair exactly, no prefix closes one it did not open, and every string
/// literal is closed. The constraint values need no condition: quoting
/// and escaping keep whatever they hold inside string literals.
pub proof fn lemma_rule_sexp_scan(a: AstView, qs: Seq<QueryView>)
    requires
        tokens_wf(a),
        queries_tokens_wf(qs),
    ensures
        scan(rule_sexp(a, qs), scan_start()) == scan_start(),
{
    let st = scan_start();
    reveal_strlit("(");
    lemma_scan_open(st);
    let st1 = scan("("@, st);
    lemma_sexp_scan(a, st1);
    lemma_queries_sexp_scan(qs, st1);
    lemma_scan_close(st1);
    assert(min(st.low, st1.bal - 1) == st.low);
    lemma_scan_concat("("@, sexp_of(a), st);
    lemma_scan_concat("("@ + sexp_of(a), queries_sexp(qs), st);
    lemma_scan_concat("("@ + sexp_of(a) + queries_sexp(qs), ")"@, st);
}

/// For every snippet the builder accepts, the query text that rule
/// construction hands to the engine's query compiler is well formed: it
/// scans as one balanced s-expression (parentheses pair exactly, no
/// prefix closes one it did not open, every string literal is closed),
/// and its predicate clauses reference only captures the pattern
/// declares. These are the properties the engine's compiler checks
/// syntactically, so the output compiles for any snippet that parses
/// under the host grammar, whose kinds and operator names are the plain
/// tokens that grammar produces.
pub proof fn lemma_compiled_query_accepted(n: NodeView)
    requires
        crate::builder::texts_clean(n),
    ensures
        build_node(n, 1).0 matches Some(a) ==> {
            let qs = build_node(n, 1).1;
            &&& scan(rule_sexp(a, qs), scan_start()) == scan_start()
            &&& forall|k: int|
                0 <= k < qs.len() ==> captures_of(a).contains(#[trigger] qs[k].reference())
        },
{
    crate::builder::lemma_build_tokens_wf(n, 1);
    crate::builder::lemma_build_refs_in_captures(n, 1);
    match build_node(n, 1).0 {
        Some(a) => {
            lemma_rule_sexp_scan(a, build_node(n, 1).1);
        },
        None => {},
    }
}

/// Issues capture references unique within one rule compilation: the
/// decimal renderings of a counter that starts at one.
pub struct Reference {
    counter: u64,
}

impl Reference {
    /// The value the next issued reference will render.
    pub closed spec fn counter(&self) -> u64 {
        self.counter
    }

    /// A fresh generator, starting at one.
    pub fn new() -> (r: Self)
        ensures
            r.counter() == 1,
    {
        Reference { counter: 1 }
    }

    /// Issues the next reference.
    pub fn next(&mut self) -> (r: String)
        requires
            old(self).counter() < u64::MAX,
        ensures
            final(self).counter() == old(self).counter() + 1,
            r@ == dec_of(old(self).counter() as nat),
    {
        let r = decimal(self.counter);
        self.counter = self.counter + 1;
        r
    }
}

} // verus!
