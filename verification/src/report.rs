//! The decision resolver: groups the match results of one file by matched
//! entity and resolves one Allow/Deny verdict per entity. Allow dominates:
//! an entity with any Allow result is allowed; otherwise one
//! representative Deny result (the first found) reports its byte range.

use vstd::prelude::*;

use crate::rule::{Decision, MatchResult, MatchResultView, results_view};

verus! {

/// The verdict for one entity: allowed, or denied with the representative
/// denial to report.
#[derive(Debug)]
pub enum Resolution {
    Allowed,
    Denied { denial: MatchResult },
}

/// The mathematical shape of a resolution.
#[verifier::ext_equal]
pub enum ResolutionView {
    Allowed,
    Denied { denial: MatchResultView },
}

impl View for Resolution {
    type V = ResolutionView;

    open spec fn view(&self) -> ResolutionView {
        match self {
            Resolution::Allowed => ResolutionView::Allowed,
            Resolution::Denied { denial } => ResolutionView::Denied { denial: denial@ },
        }
    }
}

/// One entity of the checked file together with its resolved verdict.
#[derive(Debug)]
pub struct ResolvedEntity {
    pub id: usize,
    pub resolution: Resolution,
}

/// Whether some result allows this entity.
pub open spec fn entity_allowed(rs: Seq<MatchResultView>, id: usize) -> bool {
    exists|k: int|
        0 <= k < rs.len() && #[trigger] rs[k].node_info.id == id && rs[k].decision
            == Decision::Allow
}

/// The distinct entity identities of a result list, in order of first
/// occurrence.
pub open spec fn first_ids(rs: Seq<MatchResultView>) -> Seq<usize>
    decreases rs,
{
    if rs.len() == 0 {
        Seq::empty()
    } else {
        let pre = first_ids(rs.drop_last());
        if pre.contains(rs.last().node_info.id) {
            pre
        } else {
            pre.push(rs.last().node_info.id)
        }
    }
}

/// The first result carrying the given entity identity.
pub open spec fn first_with_id(rs: Seq<MatchResultView>, id: usize) -> MatchResultView
    decreases rs,
{
    if rs.len() == 0 {
        arbitrary()
    } else if rs[0].node_info.id == id {
        rs[0]
    } else {
        first_with_id(rs.drop_first(), id)
    }
}

/// The entity identities of a resolved list, in order.
pub open spec fn resolved_ids(r: Seq<ResolvedEntity>) -> Seq<usize> {
    r.map_values(|e: ResolvedEntity| e.id)
}

proof fn lemma_first_ids_contains(rs: Seq<MatchResultView>, id: usize)
    ensures
        first_ids(rs).contains(id) <==> exists|k: int|
            0 <= k < rs.len() && #[trigger] rs[k].node_info.id == id,
    decreases rs,
{
    if rs.len() > 0 {
        lemma_first_ids_contains(rs.drop_last(), id);
        let pre = first_ids(rs.drop_last());
        if rs.last().node_info.id == id {
            if !pre.contains(id) {
                assert(first_ids(rs).last() == id);
                assert(first_ids(rs).contains(id));
            }
            assert(rs[rs.len() - 1].node_info.id == id);
        } else {
            if first_ids(rs).contains(id) {
                if !pre.contains(id) {
                    let j = choose|j: int|
                        0 <= j < first_ids(rs).len() && first_ids(rs)[j] == id;
                    assert(first_ids(rs) == pre.push(rs.last().node_info.id));
                    assert(pre[j] == id);
                }
            }
            if pre.contains(id) {
                if first_ids(rs) == pre {
                    assert(first_ids(rs).contains(id));
                } else {
                    let j = choose|j: int| 0 <= j < pre.len() && pre[j] == id;
                    assert(first_ids(rs)[j] == id);
                    assert(first_ids(rs).contains(id));
                }
            }
            if exists|k: int| 0 <= k < rs.len() && #[trigger] rs[k].node_info.id == id {
                let k = choose|k: int| 0 <= k < rs.len() && #[trigger] rs[k].node_info.id == id;
                assert(k < rs.len() - 1);
                assert(rs.drop_last()[k].node_info.id == id);
            }
        }
    }
}

proof fn lemma_first_with_id_at(rs: Seq<MatchResultView>, id: usize, i: int)
    requires
        0 <= i < rs.len(),
        rs[i].node_info.id == id,
        forall|j: int| 0 <= j < i ==> rs[j].node_info.id != id,
    ensures
        first_with_id(rs, id) == rs[i],
    decreases i,
{
    if i > 0 {
        lemma_first_with_id_at(rs.drop_first(), id, i - 1);
    }
}

/// A resolved entity is correct for a result list: Allowed exactly where
/// some result allows it, otherwise Denied with the first result of that
/// entity as the representative denial.
pub open spec fn entity_resolved_ok(rs: Seq<MatchResultView>, e: ResolvedEntity) -> bool {
    match e.resolution@ {
        ResolutionView::Allowed => entity_allowed(rs, e.id),
        ResolutionView::Denied { denial } => !entity_allowed(rs, e.id) && denial == first_with_id(
            rs,
            e.id,
        ),
    }
}

/// Groups one file's match results by entity and resolves each entity's
/// verdict. An entity with any Allow result is Allowed; an entity with
/// only Deny results is Denied, and its first result is the denial to
/// report.
pub fn resolve(results: &Vec<MatchResult>) -> (r: Vec<ResolvedEntity>)
    ensures
        resolved_ids(r@) == first_ids(results_view(results@)),
        forall|k: int|
            0 <= k < r@.len() ==> entity_resolved_ok(results_view(results@), #[trigger] r@[k]),
{
    let ghost rv = results_view(results@);
    let mut resolved: Vec<ResolvedEntity> = Vec::new();
    let n = results.len();
    let mut i: usize = 0;
    proof {
        assert(rv.subrange(0, 0) =~= Seq::<MatchResultView>::empty());
        assert(resolved_ids(resolved@) =~= first_ids(rv.subrange(0, 0)));
    }
    while i < n
        invariant
            i <= n,
            n == rv.len(),
            rv == results_view(results@),
            resolved_ids(resolved@) == first_ids(rv.subrange(0, i as int)),
            forall|k: int|
                0 <= k < resolved@.len() ==> entity_resolved_ok(rv, #[trigger] resolved@[k]),
        decreases n - i,
    {
        let id = results[i].node_info.id;
        proof {
            assert(rv[i as int] == results@[i as int]@);
            assert(rv[i as int].node_info.id == id);
        }
        let mut seen = false;
        let mut j: usize = 0;
        while j < i
            invariant
                j <= i,
                i < n,
                n == rv.len(),
                rv == results_view(results@),
                id == rv[i as int].node_info.id,
                seen ==> exists|k: int| 0 <= k < i && #[trigger] rv[k].node_info.id == id,
                !seen ==> forall|k: int| 0 <= k < j ==> #[trigger] rv[k].node_info.id != id,
            decreases i - j,
        {
            proof {
                assert(rv[j as int] == results@[j as int]@);
            }
            if results[j].node_info.id == id {
                seen = true;
                proof {
                    assert(rv[j as int].node_info.id == id);
                }
            }
            j = j + 1;
        }
        let ghost pre = rv.subrange(0, i as int);
        let ghost cur = rv.subrange(0, i + 1);
        proof {
            assert(cur.drop_last() =~= pre);
            assert(cur.last() == rv[i as int]);
            lemma_first_ids_contains(pre, id);
            assert forall|k: int| 0 <= k < i implies #[trigger] pre[k].node_info.id == rv[
                k
            ].node_info.id by {
                assert(pre[k] == rv[k]);
            }
        }
        if !seen {
            proof {
                assert(!(exists|k2: int|
                    0 <= k2 < pre.len() && #[trigger] pre[k2].node_info.id == id)) by {
                    if exists|k2: int| 0 <= k2 < pre.len() && #[trigger] pre[k2].node_info.id
                        == id {
                        let k2 = choose|k2: int|
                            0 <= k2 < pre.len() && #[trigger] pre[k2].node_info.id == id;
                        assert(rv[k2].node_info.id == id);
                    }
                }
                assert(!first_ids(pre).contains(id));
            }
            let mut allow = false;
            let mut j2: usize = 0;
            while j2 < n
                invariant
                    j2 <= n,
                    n == rv.len(),
                    rv == results_view(results@),
                    allow ==> entity_allowed(rv, id),
                    !allow ==> forall|k: int|
                        0 <= k < j2 ==> !(#[trigger] rv[k].node_info.id == id && rv[k].decision
                            == Decision::Allow),
                decreases n - j2,
            {
                proof {
                    assert(rv[j2 as int] == results@[j2 as int]@);
                }
                if results[j2].node_info.id == id && results[j2].decision == Decision::Allow {
                    allow = true;
                    proof {
                        assert(rv[j2 as int].node_info.id == id && rv[j2 as int].decision
                            == Decision::Allow);
                    }
                }
                j2 = j2 + 1;
            }
            proof {
                if !allow {
                    assert(!entity_allowed(rv, id)) by {
                        if entity_allowed(rv, id) {
                            let k = choose|k: int|
                                0 <= k < rv.len() && #[trigger] rv[k].node_info.id == id
                                    && rv[k].decision == Decision::Allow;
                            assert(!(rv[k].node_info.id == id && rv[k].decision
                                == Decision::Allow));
                        }
                    }
                }
            }
            let ghost old_resolved = resolved@;
            if allow {
                resolved.push(ResolvedEntity { id, resolution: Resolution::Allowed });
                proof {
                    assert(resolved@.last().resolution@ is Allowed);
                    assert(entity_allowed(rv, resolved@.last().id));
                }
            } else {
                proof {
                    assert(forall|k: int| 0 <= k < i ==> #[trigger] rv[k].node_info.id != id);
                    lemma_first_with_id_at(rv, id, i as int);
                }
                let denial = MatchResult {
                    node_info: results[i].node_info,
                    decision: results[i].decision,
                    title: results[i].title.clone(),
                };
                proof {
                    assert(results@[i as int]@ == rv[i as int]);
                    assert(denial@ =~= rv[i as int]);
                }
                resolved.push(ResolvedEntity { id, resolution: Resolution::Denied { denial } });
                proof {
                    assert(resolved@.last().resolution@ matches ResolutionView::Denied { denial: d }
                        && d == first_with_id(rv, resolved@.last().id));
                }
            }
            proof {
                assert(resolved@.drop_last() =~= old_resolved);
                assert(resolved_ids(resolved@) =~= resolved_ids(old_resolved).push(id));
                assert(!first_ids(pre).contains(id));
                assert(first_ids(cur) == first_ids(pre).push(id));
                assert forall|k: int| 0 <= k < resolved@.len() implies entity_resolved_ok(
                    rv,
                    #[trigger] resolved@[k],
                ) by {
                    if k < old_resolved.len() {
                        assert(resolved@[k] == old_resolved[k]);
                        assert(entity_resolved_ok(rv, old_resolved[k]));
                    } else {
                        assert(resolved@[k] == resolved@.last());
                        assert(entity_resolved_ok(rv, resolved@.last()));
                    }
                }
            }
        } else {
            proof {
                let k = choose|k: int| 0 <= k < i && #[trigger] rv[k].node_info.id == id;
                assert(pre[k] == rv[k]);
                assert(exists|k2: int|
                    0 <= k2 < pre.len() && #[trigger] pre[k2].node_info.id == id);
                assert(first_ids(pre).contains(id));
                assert(first_ids(cur) == first_ids(pre));
            }
        }
        i = i + 1;
    }
    proof {
        assert(rv.subrange(0, n as int) =~= rv);
    }
    resolved
}

/// Whether a file is fully compliant: no entity resolved to Denied. A
/// file with no match results resolves to no entities and is compliant.
pub fn compliant(resolved: &Vec<ResolvedEntity>) -> (r: bool)
    ensures
        r <==> forall|k: int|
            0 <= k < resolved@.len() ==> (#[trigger] resolved@[k]).resolution@ is Allowed,
{
    let n = resolved.len();
    let mut i: usize = 0;
    while i < n
        invariant
            i <= n,
            n == resolved@.len(),
            forall|k: int| 0 <= k < i ==> (#[trigger] resolved@[k]).resolution@ is Allowed,
        decreases n - i,
    {
        match &resolved[i].resolution {
            Resolution::Denied { .. } => {
                proof {
                    assert(!(resolved@[i as int].resolution@ is Allowed));
                }
                return false;
            },
            Resolution::Allowed => {
                proof {
                    assert(resolved@[i as int].resolution@ is Allowed);
                }
            },
        }
        i = i + 1;
    }
    true
}

/// Decision resolution is monotone in Allow: an entity allowed under some
/// results stays allowed when any further result is added, and adding an
/// Allow result for an entity makes it allowed. A resolved Allow verdict
/// can never move back to Denied by adding results that include an Allow.
pub proof fn lemma_allow_monotone(rs: Seq<MatchResultView>, extra: MatchResultView, id: usize)
    ensures
        entity_allowed(rs, id) ==> entity_allowed(rs.push(extra), id),
        extra.decision == Decision::Allow && extra.node_info.id == id ==> entity_allowed(
            rs.push(extra),
            id,
        ),
{
    if entity_allowed(rs, id) {
        let k = choose|k: int|
            0 <= k < rs.len() && #[trigger] rs[k].node_info.id == id && rs[k].decision
                == Decision::Allow;
        assert(rs.push(extra)[k] == rs[k]);
        assert(rs.push(extra)[k].node_info.id == id);
    }
    if extra.decision == Decision::Allow && extra.node_info.id == id {
        assert(rs.push(extra)[rs.len() as int] == extra);
        assert(rs.push(extra)[rs.len() as int].node_info.id == id);
    }
}

} // verus!
