//! The predicate evaluator, together with the crate's model of what the
//! query engine reports per structural match: captures (index, node,
//! captured text) and the generic predicate clauses the engine does not
//! evaluate natively.

use vstd::prelude::*;

use crate::ast::strs_view;
use crate::rule::NodeInfo;
use crate::strutil::{contains_str, str_eq};

verus! {

/// Why match-time evaluation fails: a generic predicate or the result
/// resolution referenced a capture the engine did not report. This
/// indicates a compiler/engine inconsistency and is not recoverable.
#[derive(Clone, Copy, Eq, PartialEq, Structural, Debug)]
pub enum MatchError {
    UnresolvedCapture,
}

/// One capture the engine reports for a structural match: which capture
/// slot it fills, the matched node, and that node's literal text.
#[derive(Debug, Clone)]
pub struct Capture {
    pub index: usize,
    pub node: NodeInfo,
    pub text: String,
}

/// The mathematical shape of a reported capture.
#[verifier::ext_equal]
pub struct CaptureView {
    pub index: usize,
    pub node: NodeInfo,
    pub text: Seq<char>,
}

impl View for Capture {
    type V = CaptureView;

    open spec fn view(&self) -> CaptureView {
        CaptureView { index: self.index, node: self.node, text: self.text@ }
    }
}

/// One structural match as the engine reports it.
#[derive(Debug, Clone)]
pub struct EngineMatch {
    pub captures: Vec<Capture>,
}

/// The mathematical shape of a reported match.
#[verifier::ext_equal]
pub struct MatchView {
    pub captures: Seq<CaptureView>,
}

impl View for EngineMatch {
    type V = MatchView;

    open spec fn view(&self) -> MatchView {
        MatchView { captures: self.captures@.map_values(|c: Capture| c@) }
    }
}

/// One argument of a generic predicate clause: a capture slot or a string
/// literal.
#[derive(Debug, Clone)]
pub enum PredicateArg {
    Capture(usize),
    Literal(String),
}

/// The mathematical shape of a predicate argument.
#[verifier::ext_equal]
pub enum PredArgView {
    Capture(usize),
    Literal(Seq<char>),
}

impl View for PredicateArg {
    type V = PredArgView;

    open spec fn view(&self) -> PredArgView {
        match self {
            PredicateArg::Capture(i) => PredArgView::Capture(*i),
            PredicateArg::Literal(s) => PredArgView::Literal(s@),
        }
    }
}

/// A generic predicate clause attached to a compiled query, deferred by
/// the engine to local evaluation: an operator name (with its trailing
/// `?`) and its arguments.
#[derive(Debug, Clone)]
pub struct QueryPredicate {
    pub operator: String,
    pub args: Vec<PredicateArg>,
}

/// The mathematical shape of a generic predicate clause.
#[verifier::ext_equal]
pub struct PredView {
    pub operator: Seq<char>,
    pub args: Seq<PredArgView>,
}

impl View for QueryPredicate {
    type V = PredView;

    open spec fn view(&self) -> PredView {
        PredView { operator: self.operator@, args: args_view(self.args@) }
    }
}

/// The views of a sequence of predicate clauses.
pub open spec fn preds_view(ps: Seq<QueryPredicate>) -> Seq<PredView> {
    ps.map_values(|p: QueryPredicate| p@)
}

/// The views of a sequence of predicate arguments.
pub open spec fn args_view(args: Seq<PredicateArg>) -> Seq<PredArgView> {
    args.map_values(|a: PredicateArg| a@)
}

/// The index carried by the first capture argument, if any.
pub open spec fn first_capture_arg(args: Seq<PredArgView>) -> Option<usize>
    decreases args,
{
    if args.len() == 0 {
        None
    } else {
        match args[0] {
            PredArgView::Capture(i) => Some(i),
            PredArgView::Literal(_) => first_capture_arg(args.drop_first()),
        }
    }
}

/// The first reported capture filling the given slot, if any.
pub open spec fn find_capture(caps: Seq<CaptureView>, idx: usize) -> Option<CaptureView>
    decreases caps,
{
    if caps.len() == 0 {
        None
    } else if caps[0].index == idx {
        Some(caps[0])
    } else {
        find_capture(caps.drop_first(), idx)
    }
}

/// The string literal arguments, in order.
pub open spec fn literal_args(args: Seq<PredArgView>) -> Seq<Seq<char>>
    decreases args,
{
    if args.len() == 0 {
        Seq::empty()
    } else {
        match args[0] {
            PredArgView::Literal(s) => seq![s] + literal_args(args.drop_first()),
            PredArgView::Capture(_) => literal_args(args.drop_first()),
        }
    }
}

/// What evaluating one generic predicate against one reported match
/// yields.
///
/// Resolving the first capture argument fails if its slot is absent from
/// the match. An `or?` clause holds exactly when the captured text is one
/// of the literal arguments (and fails if it has no capture argument at
/// all); any other operator passes — the evaluator's explicit extension
/// seam for engine-native or unregistered operators.
pub open spec fn eval_pred(p: PredView, m: MatchView) -> Result<bool, MatchError> {
    let cap_arg = first_capture_arg(p.args);
    if cap_arg is Some && find_capture(m.captures, cap_arg->0) is None {
        Err(MatchError::UnresolvedCapture)
    } else if p.operator == "or?"@ {
        match cap_arg {
            None => Err(MatchError::UnresolvedCapture),
            Some(idx) => Ok(literal_args(p.args).contains(find_capture(m.captures, idx)->0.text)),
        }
    } else {
        Ok(true)
    }
}

/// A locally evaluated predicate: the closed union of everything the
/// evaluator understands. `Or` holds when the captured text is one of the
/// options; `True` is the pass-through for operators evaluated elsewhere
/// or not registered.
#[derive(Debug)]
pub enum Predicate {
    Or { capture: String, options: Vec<String> },
    True,
}

impl Predicate {
    /// What this predicate evaluates to.
    pub open spec fn check_spec(&self) -> bool {
        match self {
            Predicate::Or { capture, options } => strs_view(options@).contains(capture@),
            Predicate::True => true,
        }
    }

    /// Evaluates this predicate.
    pub fn check(&self) -> (b: bool)
        ensures
            b == self.check_spec(),
    {
        match self {
            Predicate::Or { capture, options } => {
                let r = contains_str(options, capture.as_str());
                proof {
                    let ov = strs_view(options@);
                    if r {
                        let i = choose|i: int|
                            0 <= i < options@.len() && #[trigger] options@[i]@ == capture@;
                        assert(ov[i] == capture@);
                    }
                    if ov.contains(capture@) {
                        let i = choose|i: int| 0 <= i < ov.len() && ov[i] == capture@;
                        assert(options@[i]@ == capture@);
                    }
                }
                r
            },
            Predicate::True => true,
        }
    }
}

pub(crate) fn first_capture_index(predicate: &QueryPredicate) -> (r: Option<usize>)
    ensures
        r == first_capture_arg(predicate@.args),
{
    let ghost av = predicate@.args;
    let n = predicate.args.len();
    let mut i: usize = 0;
    proof {
        assert(av.subrange(0, n as int) =~= av);
    }
    while i < n
        invariant
            i <= n,
            n == av.len(),
            av == predicate@.args,
            first_capture_arg(av) == first_capture_arg(av.subrange(i as int, n as int)),
        decreases n - i,
    {
        proof {
            let suf = av.subrange(i as int, n as int);
            assert(suf[0] == av[i as int]);
            assert(suf.drop_first() =~= av.subrange(i + 1, n as int));
        }
        match &predicate.args[i] {
            PredicateArg::Capture(idx) => {
                return Some(*idx);
            },
            PredicateArg::Literal(_) => {},
        }
        i = i + 1;
    }
    proof {
        assert(av.subrange(n as int, n as int) =~= Seq::<PredArgView>::empty());
    }
    None
}

pub(crate) fn lookup_capture<'a>(m: &'a EngineMatch, idx: usize) -> (r: Option<&'a Capture>)
    ensures
        match r {
            Some(c) => find_capture(m@.captures, idx) == Some(c@),
            None => find_capture(m@.captures, idx) is None,
        },
{
    let ghost cv = m@.captures;
    let n = m.captures.len();
    let mut i: usize = 0;
    proof {
        assert(cv.subrange(0, n as int) =~= cv);
    }
    while i < n
        invariant
            i <= n,
            n == cv.len(),
            cv == m@.captures,
            find_capture(cv, idx) == find_capture(cv.subrange(i as int, n as int), idx),
        decreases n - i,
    {
        proof {
            let suf = cv.subrange(i as int, n as int);
            assert(suf[0] == cv[i as int]);
            assert(suf.drop_first() =~= cv.subrange(i + 1, n as int));
        }
        if m.captures[i].index == idx {
            return Some(&m.captures[i]);
        }
        i = i + 1;
    }
    proof {
        assert(cv.subrange(n as int, n as int) =~= Seq::<CaptureView>::empty());
    }
    None
}

/// The text captured by the predicate's first capture argument: `Ok(None)`
/// where the predicate has no capture argument, an error where the match
/// does not fill the referenced slot.
pub fn capture_from(predicate: &QueryPredicate, m: &EngineMatch) -> (r: Result<
    Option<String>,
    MatchError,
>)
    ensures
        match first_capture_arg(predicate@.args) {
            None => r matches Ok(o) && o is None,
            Some(idx) => match find_capture(m@.captures, idx) {
                Some(c) => r matches Ok(o) && o matches Some(t) && t@ == c.text,
                None => r == Err::<Option<String>, MatchError>(MatchError::UnresolvedCapture),
            },
        },
{
    match first_capture_index(predicate) {
        None => Ok(None),
        Some(idx) => match lookup_capture(m, idx) {
            None => Err(MatchError::UnresolvedCapture),
            Some(c) => Ok(Some(c.text.clone())),
        },
    }
}

/// The predicate's string literal arguments, in order.
pub fn values_from(predicate: &QueryPredicate) -> (r: Vec<String>)
    ensures
        strs_view(r@) == literal_args(predicate@.args),
{
    let ghost av = predicate@.args;
    let mut values: Vec<String> = Vec::new();
    let n = predicate.args.len();
    let mut i: usize = 0;
    proof {
        assert(strs_view(values@) =~= Seq::<Seq<char>>::empty());
        assert(av.subrange(0, n as int) =~= av);
        assert(strs_view(values@) + literal_args(av) =~= literal_args(av));
    }
    while i < n
        invariant
            i <= n,
            n == av.len(),
            av == predicate@.args,
            literal_args(av) == strs_view(values@) + literal_args(av.subrange(i as int, n as int)),
        decreases n - i,
    {
        proof {
            let suf = av.subrange(i as int, n as int);
            assert(suf[0] == av[i as int]);
            assert(suf.drop_first() =~= av.subrange(i + 1, n as int));
        }
        let ghost old_values = values@;
        match &predicate.args[i] {
            PredicateArg::Literal(s) => {
                values.push(s.clone());
                proof {
                    assert(strs_view(values@) =~= strs_view(old_values) + seq![s@]);
                    assert(strs_view(old_values) + (seq![s@] + literal_args(
                        av.subrange(i + 1, n as int),
                    )) =~= (strs_view(old_values) + seq![s@]) + literal_args(
                        av.subrange(i + 1, n as int),
                    ));
                }
            },
            PredicateArg::Capture(_) => {},
        }
        i = i + 1;
    }
    proof {
        assert(av.subrange(n as int, n as int) =~= Seq::<PredArgView>::empty());
        assert(strs_view(values@) + Seq::<Seq<char>>::empty() =~= strs_view(values@));
    }
    values
}

/// Resolves one generic predicate clause into a locally evaluated
/// predicate. The resulting predicate's evaluation agrees with
/// `eval_pred`; resolution itself fails exactly where `eval_pred` does.
pub fn read_operation(predicate: &QueryPredicate, m: &EngineMatch) -> (r: Result<
    Predicate,
    MatchError,
>)
    ensures
        match eval_pred(predicate@, m@) {
            Ok(b) => r matches Ok(p) && p.check_spec() == b,
            Err(e) => r == Err::<Predicate, MatchError>(e),
        },
{
    let capture = capture_from(predicate, m)?;
    let options = values_from(predicate);
    if str_eq(predicate.operator.as_str(), "or?") {
        match capture {
            Some(c) => {
                let ghost cv = c@;
                let p = Predicate::Or { capture: c, options };
                proof {
                    let la = literal_args(predicate@.args);
                    if la.contains(cv) {
                        let i = choose|i: int| 0 <= i < la.len() && la[i] == cv;
                        assert(strs_view(p->Or_options@)[i] == cv);
                    }
                    if strs_view(p->Or_options@).contains(cv) {
                        let i = choose|i: int|
                            0 <= i < strs_view(p->Or_options@).len() && strs_view(p->Or_options@)[i]
                                == cv;
                        assert(la[i] == cv);
                    }
                }
                Ok(p)
            },
            None => Err(MatchError::UnresolvedCapture),
        }
    } else {
        Ok(Predicate::True)
    }
}

/// An `or?` predicate is decided by membership alone: with its capture
/// resolved, it holds exactly when the captured text is one of the
/// clause's literal options — no other part of the match plays a role.
pub proof fn lemma_or_predicate(p: PredView, m: MatchView, cap: CaptureView)
    requires
        p.operator == "or?"@,
        first_capture_arg(p.args) matches Some(idx) && find_capture(m.captures, idx) == Some(cap),
    ensures
        eval_pred(p, m) == Ok::<bool, MatchError>(literal_args(p.args).contains(cap.text)),
{
}

} // verus!
