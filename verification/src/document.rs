//! A rule document: an ordered set of compiled rules under one title,
//! assembled from the (title, decision, code) triples the document
//! collaborator extracts. Construction-time failures are collected per
//! rule, so sibling rules of a document with invalid rules still apply.

use vstd::prelude::*;

use crate::builder::snippet_ok;
use crate::operations::{EngineMatch, MatchError, MatchView};
use crate::rule::{
    Decision,
    MatchResult,
    MatchResultView,
    Rule,
    RuleError,
    compiled_from,
    matches_view,
    results_view,
    rule_error_of,
};
use crate::strutil::{starts_with, str_starts_with};
use crate::syntax::SyntaxNode;

verus! {

/// One rule of a document before compilation: its title, its decision,
/// and its example snippet as parsed by the grammar collaborator —
/// `None` where the snippet failed to parse.
pub struct RuleSpec {
    pub title: String,
    pub decision: Decision,
    pub snippet: Option<SyntaxNode>,
}

/// One rule of a document that failed to compile, and why.
#[derive(Debug)]
pub struct RuleIssue {
    pub title: String,
    pub error: RuleError,
}

/// A parsed rule document: its title and its compiled rules, in document
/// order.
#[derive(Debug)]
pub struct Document {
    pub title: String,
    pub rules: Vec<Rule>,
}

/// The decision a rule heading carries: headings that announce an Allow
/// rule start with `Allow`, everything else denies.
pub open spec fn decision_of_title(t: Seq<char>) -> Decision {
    if starts_with(t, "Allow"@) {
        Decision::Allow
    } else {
        Decision::Deny
    }
}

/// Reads the decision off a rule heading.
pub fn decision_for_title(title: &str) -> (d: Decision)
    ensures
        d == decision_of_title(title@),
{
    if str_starts_with(title, "Allow") {
        Decision::Allow
    } else {
        Decision::Deny
    }
}

/// Why compiling this entry fails, if it does: an unparsed snippet is a
/// malformed one, and a parsed snippet fails as rule construction does.
pub open spec fn entry_error(s: RuleSpec) -> Option<RuleError> {
    match s.snippet {
        None => Some(RuleError::MalformedSnippet),
        Some(n) => rule_error_of(n@),
    }
}

/// An entry's snippet, where present, is admissible for construction.
pub open spec fn entry_admissible(s: RuleSpec) -> bool {
    match s.snippet {
        Some(n) => snippet_ok(n@),
        None => true,
    }
}

/// The positions of the entries that compile, in order.
pub open spec fn ok_indices(specs: Seq<RuleSpec>) -> Seq<int>
    decreases specs,
{
    if specs.len() == 0 {
        Seq::empty()
    } else {
        let pre = ok_indices(specs.drop_last());
        if entry_error(specs.last()) is None {
            pre.push(specs.len() - 1)
        } else {
            pre
        }
    }
}

/// The positions of the entries that fail, in order.
pub open spec fn err_indices(specs: Seq<RuleSpec>) -> Seq<int>
    decreases specs,
{
    if specs.len() == 0 {
        Seq::empty()
    } else {
        let pre = err_indices(specs.drop_last());
        if entry_error(specs.last()) is None {
            pre
        } else {
            pre.push(specs.len() - 1)
        }
    }
}

pub proof fn lemma_ok_indices_bounds(specs: Seq<RuleSpec>)
    ensures
        forall|k: int|
            0 <= k < ok_indices(specs).len() ==> 0 <= #[trigger] ok_indices(specs)[k]
                < specs.len(),
        forall|k: int|
            0 <= k < err_indices(specs).len() ==> 0 <= #[trigger] err_indices(specs)[k]
                < specs.len(),
    decreases specs,
{
    if specs.len() > 0 {
        lemma_ok_indices_bounds(specs.drop_last());
        let pre_ok = ok_indices(specs.drop_last());
        let pre_err = err_indices(specs.drop_last());
        assert forall|k: int| 0 <= k < ok_indices(specs).len() implies 0 <= #[trigger] ok_indices(
            specs,
        )[k] < specs.len() by {
            if k < pre_ok.len() {
                assert(ok_indices(specs)[k] == pre_ok[k]);
            } else {
                assert(ok_indices(specs)[k] == specs.len() - 1);
            }
        }
        assert forall|k: int| 0 <= k < err_indices(specs).len() implies 0 <= #[trigger] err_indices(
            specs,
        )[k] < specs.len() by {
            if k < pre_err.len() {
                assert(err_indices(specs)[k] == pre_err[k]);
            } else {
                assert(err_indices(specs)[k] == specs.len() - 1);
            }
        }
    }
}

/// Compiles a document's rule entries. Every entry is processed: the
/// compiled rules are collected in document order, and so are the
/// entries that failed, each with its error, so a document with invalid
/// rules still applies its valid ones and reports the rest.
pub fn compile_document(title: String, specs: &Vec<RuleSpec>) -> (r: (Document, Vec<RuleIssue>))
    requires
        forall|i: int| 0 <= i < specs@.len() ==> entry_admissible(#[trigger] specs@[i]),
    ensures
        r.0.title == title,
        r.0.rules@.len() == ok_indices(specs@).len(),
        forall|k: int|
            0 <= k < ok_indices(specs@).len() ==> {
                let i = ok_indices(specs@)[k];
                compiled_from(
                    #[trigger] r.0.rules@[k],
                    specs@[i].title@,
                    specs@[i].decision,
                    specs@[i].snippet->0@,
                )
            },
        r.1@.len() == err_indices(specs@).len(),
        forall|k: int|
            0 <= k < err_indices(specs@).len() ==> {
                let i = err_indices(specs@)[k];
                (#[trigger] r.1@[k]).title@ == specs@[i].title@ && Some(r.1@[k].error)
                    == entry_error(specs@[i])
            },
{
    let mut rules: Vec<Rule> = Vec::new();
    let mut issues: Vec<RuleIssue> = Vec::new();
    let n = specs.len();
    let mut i: usize = 0;
    proof {
        assert(specs@.subrange(0, 0) =~= Seq::<RuleSpec>::empty());
    }
    while i < n
        invariant
            i <= n,
            n == specs@.len(),
            forall|j: int| 0 <= j < specs@.len() ==> entry_admissible(#[trigger] specs@[j]),
            rules@.len() == ok_indices(specs@.subrange(0, i as int)).len(),
            forall|k: int|
                0 <= k < rules@.len() ==> {
                    let idx = ok_indices(specs@.subrange(0, i as int))[k];
                    0 <= idx < i && compiled_from(
                        #[trigger] rules@[k],
                        specs@[idx].title@,
                        specs@[idx].decision,
                        specs@[idx].snippet->0@,
                    )
                },
            issues@.len() == err_indices(specs@.subrange(0, i as int)).len(),
            forall|k: int|
                0 <= k < issues@.len() ==> {
                    let idx = err_indices(specs@.subrange(0, i as int))[k];
                    0 <= idx < i && (#[trigger] issues@[k]).title@ == specs@[idx].title@ && Some(
                        issues@[k].error,
                    ) == entry_error(specs@[idx])
                },
        decreases n - i,
    {
        let ghost pre = specs@.subrange(0, i as int);
        let ghost cur = specs@.subrange(0, i + 1);
        proof {
            assert(cur.drop_last() =~= pre);
            assert(cur.last() == specs@[i as int]);
            lemma_ok_indices_bounds(pre);
        }
        let entry = &specs[i];
        let ghost old_rules = rules@;
        let ghost old_issues = issues@;
        match &entry.snippet {
            None => {
                issues.push(
                    RuleIssue { title: entry.title.clone(), error: RuleError::MalformedSnippet },
                );
            },
            Some(snippet) => {
                match Rule::new(entry.title.clone(), entry.decision, snippet) {
                    Ok(rule) => {
                        rules.push(rule);
                    },
                    Err(e) => {
                        issues.push(RuleIssue { title: entry.title.clone(), error: e });
                    },
                }
            },
        }
        proof {
            if entry_error(specs@[i as int]) is None {
                assert(ok_indices(cur) == ok_indices(pre).push(i as int));
                assert(err_indices(cur) == err_indices(pre));
                assert(rules@.drop_last() =~= old_rules);
                assert forall|k: int| 0 <= k < rules@.len() implies {
                    let idx = ok_indices(cur)[k];
                    0 <= idx < i + 1 && compiled_from(
                        #[trigger] rules@[k],
                        specs@[idx].title@,
                        specs@[idx].decision,
                        specs@[idx].snippet->0@,
                    )
                } by {
                    if k < old_rules.len() {
                        assert(ok_indices(cur)[k] == ok_indices(pre)[k]);
                        assert(rules@[k] == old_rules[k]);
                    } else {
                        assert(ok_indices(cur)[k] == i as int);
                        assert(rules@[k] == rules@.last());
                    }
                }
            } else {
                assert(ok_indices(cur) == ok_indices(pre));
                assert(err_indices(cur) == err_indices(pre).push(i as int));
                assert(issues@.drop_last() =~= old_issues);
                assert forall|k: int| 0 <= k < issues@.len() implies {
                    let idx = err_indices(cur)[k];
                    0 <= idx < i + 1 && (#[trigger] issues@[k]).title@ == specs@[idx].title@
                        && Some(issues@[k].error) == entry_error(specs@[idx])
                } by {
                    if k < old_issues.len() {
                        assert(err_indices(cur)[k] == err_indices(pre)[k]);
                        assert(issues@[k] == old_issues[k]);
                    } else {
                        assert(err_indices(cur)[k] == i as int);
                        assert(issues@[k] == issues@.last());
                    }
                }
            }
        }
        i = i + 1;
    }
    proof {
        assert(specs@.subrange(0, n as int) =~= specs@);
    }
    (Document { title, rules }, issues)
}

/// The views of each rule's reported matches.
pub open spec fn reports_view(reported: Seq<Vec<EngineMatch>>) -> Seq<Seq<MatchView>> {
    reported.map_values(|v: Vec<EngineMatch>| matches_view(v@))
}

/// The match results of a whole document for one file: each rule's
/// results against its own reported matches, concatenated in document
/// order; the first failing rule decides the error.
pub open spec fn doc_matches_spec(rules: Seq<Rule>, reported: Seq<Seq<MatchView>>) -> Result<
    Seq<MatchResultView>,
    MatchError,
>
    decreases rules,
{
    if rules.len() == 0 {
        Ok(Seq::empty())
    } else {
        match rules[0].matches_of(reported[0]) {
            Err(e) => Err(e),
            Ok(first) => match doc_matches_spec(rules.drop_first(), reported.drop_first()) {
                Err(e) => Err(e),
                Ok(rest) => Ok(first + rest),
            },
        }
    }
}

impl Document {
    /// Evaluates every rule of this document against the structural
    /// matches the engine reported for it on one parsed file, in
    /// document order, and concatenates the match results.
    pub fn matches(&self, reported_per_rule: &Vec<Vec<EngineMatch>>) -> (r: Result<
        Vec<MatchResult>,
        MatchError,
    >)
        requires
            reported_per_rule@.len() == self.rules@.len(),
        ensures
            match doc_matches_spec(self.rules@, reports_view(reported_per_rule@)) {
                Ok(s) => r matches Ok(v) && results_view(v@) == s,
                Err(e) => r == Err::<Vec<MatchResult>, MatchError>(e),
            },
    {
        let ghost rv = reports_view(reported_per_rule@);
        let mut results: Vec<MatchResult> = Vec::new();
        let n = self.rules.len();
        let mut i: usize = 0;
        proof {
            assert(self.rules@.subrange(0, n as int) =~= self.rules@);
            assert(rv.subrange(0, n as int) =~= rv);
            assert(results_view(results@) =~= Seq::<MatchResultView>::empty());
            match doc_matches_spec(self.rules@, rv) {
                Ok(rest) => {
                    assert(results_view(results@) + rest =~= rest);
                },
                Err(_) => {},
            }
        }
        while i < n
            invariant
                i <= n,
                n == self.rules@.len(),
                n == rv.len(),
                rv == reports_view(reported_per_rule@),
                ({
                    let full = doc_matches_spec(self.rules@, rv);
                    let rest = doc_matches_spec(
                        self.rules@.subrange(i as int, n as int),
                        rv.subrange(i as int, n as int),
                    );
                    match rest {
                        Ok(s) => full matches Ok(f) && f == results_view(results@) + s,
                        Err(e) => full == Err::<Seq<MatchResultView>, MatchError>(e),
                    }
                }),
            decreases n - i,
        {
            proof {
                let rsuf = self.rules@.subrange(i as int, n as int);
                let vsuf = rv.subrange(i as int, n as int);
                assert(rsuf[0] == self.rules@[i as int]);
                assert(vsuf[0] == rv[i as int]);
                assert(rsuf.drop_first() =~= self.rules@.subrange(i + 1, n as int));
                assert(vsuf.drop_first() =~= rv.subrange(i + 1, n as int));
                assert(rv[i as int] == matches_view(reported_per_rule@[i as int]@));
            }
            match self.rules[i].matches(&reported_per_rule[i]) {
                Err(e) => {
                    return Err(e);
                },
                Ok(mut rs) => {
                    let ghost old_results = results@;
                    let ghost new_results = rs@;
                    results.append(&mut rs);
                    proof {
                        assert(results_view(old_results + new_results) =~= results_view(
                            old_results,
                        ) + results_view(new_results));
                        match doc_matches_spec(
                            self.rules@.subrange(i + 1, n as int),
                            rv.subrange(i + 1, n as int),
                        ) {
                            Ok(rest) => {
                                assert((results_view(old_results) + results_view(new_results))
                                    + rest =~= results_view(old_results) + (results_view(
                                    new_results,
                                ) + rest));
                            },
                            Err(_) => {},
                        }
                    }
                },
            }
            i = i + 1;
        }
        proof {
            assert(self.rules@.subrange(n as int, n as int) =~= Seq::<Rule>::empty());
            match doc_matches_spec(self.rules@, rv) {
                Ok(f) => {
                    assert(f =~= results_view(results@));
                },
                Err(_) => {},
            }
        }
        Ok(results)
    }
}

} // verus!
