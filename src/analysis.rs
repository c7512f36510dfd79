//! Structural analysis: cycles among components, weak links and their impact.
use vstd::prelude::*;
use crate::graph::{TrustEdge, TrustGraph, edge_links};
use crate::keyed::has_key;
use crate::propagation::{first_visit_result, first_visit_step, lemma_unique_within, propagate_first_visit};
use crate::score::{SCALE, WEAK_LINK_THRESHOLD};

verus! {

/// More affected components than this make an impact severe.
pub const SEVERE_IMPACT_SIZE: usize = 10;

/// A cycle (or other high-criticality path) among components.
#[derive(Clone, Debug)]
pub struct CriticalPath {
    pub path: Vec<String>,
    /// In millionths.
    pub criticality: u64,
    pub description: String,
}

/// The components that a weak component can affect.
#[derive(Clone, Debug)]
pub struct ImpactAssessment {
    pub affected_components: Vec<String>,
    /// In millionths: full when more than ten components are affected, half otherwise.
    pub severity: u64,
    pub business_impact: String,
}

/// A component whose score is below the weak-link threshold.
#[derive(Clone, Debug)]
pub struct WeakLink {
    pub component_id: String,
    pub trust_score: u64,
    pub impact_assessment: ImpactAssessment,
    pub mitigation_suggestions: Vec<String>,
}

/// The views of a list of strings.
pub open spec fn views(v: Seq<String>) -> Seq<Seq<char>> {
    v.map_values(|s: String| s@)
}

/// Whether some edge runs `from -> to`.
pub open spec fn edge_exists(edges: Seq<TrustEdge>, from: Seq<char>, to: Seq<char>) -> bool {
    exists|e: int| 0 <= e < edges.len() && edge_links(edges[e], from, to)
}

/// Distinct components, each linked by an edge to the next.
pub open spec fn is_simple_path(edges: Seq<TrustEdge>, p: Seq<Seq<char>>) -> bool {
    &&& p.no_duplicates()
    &&& forall|i: int| 0 <= i < p.len() - 1 ==> edge_exists(edges, #[trigger] p[i], p[i + 1])
}

/// A simple path whose last component links back to its first.
pub open spec fn is_cycle(edges: Seq<TrustEdge>, c: Seq<Seq<char>>) -> bool {
    &&& c.len() >= 1
    &&& is_simple_path(edges, c)
    &&& edge_exists(edges, c.last(), c[0])
}

/// `ks` starts at `start`, lists distinct components, holds every target of an
/// edge leaving one of them, and reaches each later one over an edge from an
/// earlier one.
pub open spec fn forward_closure(edges: Seq<TrustEdge>, start: Seq<char>, ks: Seq<Seq<char>>) -> bool {
    &&& ks.len() >= 1
    &&& ks[0] == start
    &&& ks.no_duplicates()
    &&& forall|i: int, e: int|
        0 <= i < ks.len() && 0 <= e < edges.len() && #[trigger] edges[e].from@ == #[trigger] ks[i]
            ==> ks.contains(edges[e].to@)
    &&& forall|i: int| 0 < i < ks.len() ==> #[trigger] reached_from_earlier(edges, ks, i)
}

/// `ks[i]` is the target of an edge from an earlier element of `ks`.
pub open spec fn reached_from_earlier(edges: Seq<TrustEdge>, ks: Seq<Seq<char>>, i: int) -> bool {
    exists|j: int, e: int|
        #![trigger ks[j], edges[e]]
        0 <= j < i && 0 <= e < edges.len() && edges[e].from@ == ks[j] && edges[e].to@ == ks[i]
}

/// The keys of a first-visit result form the forward closure of its source.
proof fn lemma_keys_closure(
    edges: Seq<TrustEdge>,
    source: Seq<char>,
    sv: Seq<(String, u64)>,
    ks: Seq<Seq<char>>,
)
    requires
        first_visit_result(edges, source, None, sv),
        ks.len() == sv.len(),
        forall|k: int| 0 <= k < ks.len() ==> ks[k] == sv[k].0@,
    ensures
        forward_closure(edges, source, ks),
{
    assert forall|a: int, b: int| 0 <= a < ks.len() && 0 <= b < ks.len() && a != b implies ks[a] != ks[b] by {
        if a < b {
            assert(sv[a].0@ != sv[b].0@);
        } else {
            assert(sv[b].0@ != sv[a].0@);
        }
    }
    assert forall|i: int, e: int|
        0 <= i < ks.len() && 0 <= e < edges.len() && #[trigger] edges[e].from@ == #[trigger] ks[i] implies ks.contains(
            edges[e].to@,
        ) by {
        assert(edges[e].from@ == sv[i].0@);
        assert(has_key(sv, edges[e].to@));
        let m = choose|m: int| 0 <= m < sv.len() && sv[m].0@ == edges[e].to@;
        assert(ks[m] == edges[e].to@);
    }
    assert forall|i: int| 0 < i < ks.len() implies #[trigger] reached_from_earlier(edges, ks, i) by {
        assert(sv[i] == sv[i]);
        let (j, e) = choose|j: int, e: int|
            0 <= j < i && 0 <= e < edges.len() && edges[e].from@ == sv[j].0@ && edges[e].to@ == sv[i].0@
                && sv[i].1 == first_visit_step(None, sv[j].1, edges[e]);
        assert(ks[j] == sv[j].0@);
    }
}
/// The components reachable forward from `source`, in breadth-first order.
fn reachable_from(g: &TrustGraph, source: &str) -> (r: Vec<String>)
    ensures
        forward_closure(g.edges@, source@, views(r@)),
{
    let scores = propagate_first_visit(g, source, None);
    let ghost sv = scores@;
    let mut r: Vec<String> = Vec::new();
    let mut i: usize = 0;
    while i < scores.len()
        invariant
            sv == scores@,
            i <= sv.len(),
            r@.len() == i,
            forall|k: int| 0 <= k < i ==> (#[trigger] r@[k])@ == sv[k].0@,
        decreases sv.len() - i,
    {
        r.push(scores[i].0.clone());
        i = i + 1;
    }
    proof {
        let ks = views(r@);
        assert forall|k: int| 0 <= k < ks.len() implies ks[k] == sv[k].0@ by {
            assert(r@[k]@ == sv[k].0@);
        }
        lemma_keys_closure(g.edges@, source@, sv, ks);
    }
    r
}

/// The suggestions for a score: by band below 0.1, 0.3 and 0.5; none above.
pub open spec fn mitigation_spec(score: u64) -> Seq<Seq<char>> {
    if score < 100_000 {
        seq!["Immediate isolation required"@, "Emergency security review"@]
    } else if score < 300_000 {
        seq!["Enhanced monitoring required"@, "Security patch deployment"@]
    } else if score < 500_000 {
        seq!["Regular security assessment"@, "Performance optimization"@]
    } else {
        seq![]
    }
}

/// Canned mitigation suggestions for a component's score.
pub fn get_mitigation_suggestions(component_id: &String, score: u64) -> (r: Vec<String>)
    ensures
        views(r@) == mitigation_spec(score),
{
    let mut r: Vec<String> = Vec::new();
    if score < 100_000 {
        r.push(String::from_str("Immediate isolation required"));
        r.push(String::from_str("Emergency security review"));
    } else if score < 300_000 {
        r.push(String::from_str("Enhanced monitoring required"));
        r.push(String::from_str("Security patch deployment"));
    } else if score < 500_000 {
        r.push(String::from_str("Regular security assessment"));
        r.push(String::from_str("Performance optimization"));
    }
    assert(views(r@) =~= mitigation_spec(score));
    r
}

/// The severity of an impact on `n` components.
pub open spec fn impact_severity(n: nat) -> u64 {
    if n > SEVERE_IMPACT_SIZE { SCALE } else { SCALE / 2 }
}

/// Every component reachable forward from `component_id`, breadth first.
pub fn assess_impact(graph: &TrustGraph, component_id: &String) -> (r: ImpactAssessment)
    ensures
        forward_closure(graph.edges@, component_id@, views(r.affected_components@)),
        r.severity == impact_severity(r.affected_components@.len()),
        r.business_impact@ == "High"@,
{
    let affected = reachable_from(graph, component_id.as_str());
    let severity = if affected.len() > SEVERE_IMPACT_SIZE { SCALE } else { SCALE / 2 };
    ImpactAssessment { affected_components: affected, severity, business_impact: String::from_str("High") }
}

/// The entries of `scores` below the weak-link threshold, in order.
pub open spec fn weak_scores(scores: Seq<(String, u64)>) -> Seq<(Seq<char>, u64)>
    decreases scores.len(),
{
    if scores.len() == 0 {
        Seq::empty()
    } else {
        let rest = weak_scores(scores.drop_last());
        if scores.last().1 < WEAK_LINK_THRESHOLD {
            rest.push((scores.last().0@, scores.last().1))
        } else {
            rest
        }
    }
}

/// `w` reports component `id` of score `score`, with its forward impact and the
/// suggestions for its score band.
pub open spec fn weak_link_for(edges: Seq<TrustEdge>, w: WeakLink, id: Seq<char>, score: u64) -> bool {
    &&& w.component_id@ == id
    &&& w.trust_score == score
    &&& forward_closure(edges, id, views(w.impact_assessment.affected_components@))
    &&& w.impact_assessment.severity == impact_severity(
        w.impact_assessment.affected_components@.len(),
    )
    &&& views(w.mitigation_suggestions@) == mitigation_spec(score)
}

/// One weak link for each component whose score is below 0.3, in order.
pub fn identify_weak_links(graph: &TrustGraph, scores: &Vec<(String, u64)>) -> (r: Vec<WeakLink>)
    ensures
        r@.len() == weak_scores(scores@).len(),
        forall|k: int|
            0 <= k < r@.len() ==> weak_link_for(
                graph.edges@,
                #[trigger] r@[k],
                weak_scores(scores@)[k].0,
                weak_scores(scores@)[k].1,
            ),
{
    let mut r: Vec<WeakLink> = Vec::new();
    let mut i: usize = 0;
    while i < scores.len()
        invariant
            i <= scores@.len(),
            r@.len() == weak_scores(scores@.subrange(0, i as int)).len(),
            forall|k: int|
                0 <= k < r@.len() ==> weak_link_for(
                    graph.edges@,
                    #[trigger] r@[k],
                    weak_scores(scores@.subrange(0, i as int))[k].0,
                    weak_scores(scores@.subrange(0, i as int))[k].1,
                ),
        decreases scores@.len() - i,
    {
        assert(scores@.subrange(0, i + 1).drop_last() == scores@.subrange(0, i as int));
        assert(scores@.subrange(0, i + 1).last() == scores@[i as int]);
        let score = scores[i].1;
        if score < WEAK_LINK_THRESHOLD {
            let id = &scores[i].0;
            let link = WeakLink {
                component_id: id.clone(),
                trust_score: score,
                impact_assessment: assess_impact(graph, id),
                mitigation_suggestions: get_mitigation_suggestions(id, score),
            };
            r.push(link);
        }
        i = i + 1;
    }
    assert(scores@.subrange(0, scores@.len() as int) == scores@);
    r
}

/// Every entry is a cycle, reported at full criticality.
pub open spec fn all_cycles(edges: Seq<TrustEdge>, found: Seq<CriticalPath>) -> bool {
    forall|k: int|
        0 <= k < found.len() ==> is_cycle(edges, views((#[trigger] found[k]).path@))
            && found[k].criticality == SCALE && found[k].description@
            == "Circular dependency detected"@
}

/// A simple path has at most one component more than there are edges.
proof fn lemma_simple_path_bound(edges: Seq<TrustEdge>, p: Seq<Seq<char>>)
    requires
        p.len() > 0,
        is_simple_path(edges, p),
    ensures
        p.len() <= edges.len() + 1,
{
    let t = seq![p[0]] + edges.map_values(|e: TrustEdge| e.to@);
    assert forall|i: int| 0 <= i < p.len() implies t.contains(p[i]) by {
        if i == 0 {
            assert(t[0] == p[0]);
        } else {
            assert(edge_exists(edges, p[i - 1], p[i - 1 + 1]));
            let e = choose|e: int| 0 <= e < edges.len() && edge_links(edges[e], p[i - 1], p[i]);
            assert(t[e + 1] == p[i]);
        }
    }
    lemma_unique_within(p, t);
}

/// Some entry of `found` is the cycle `c`.
pub open spec fn reports(found: Seq<CriticalPath>, c: Seq<Seq<char>>) -> bool {
    exists|k: int| 0 <= k < found.len() && views(found[k].path@) == c
}

/// `q` is a simple path that starts with `start`, and an edge leads from its
/// last component back to `q[j]`: the cycle `q[j..]` closes there.
pub open spec fn closes_cycle(edges: Seq<TrustEdge>, start: Seq<Seq<char>>, q: Seq<Seq<char>>, j: int) -> bool {
    &&& is_simple_path(edges, q)
    &&& start.len() <= q.len()
    &&& q.take(start.len() as int) == start
    &&& 0 <= j < q.len()
    &&& edge_exists(edges, q.last(), q[j])
}

/// Every cycle that closes on a simple path starting with `start` is reported.
pub open spec fn covers(edges: Seq<TrustEdge>, found: Seq<CriticalPath>, start: Seq<Seq<char>>) -> bool {
    forall|q: Seq<Seq<char>>, j: int|
        #[trigger] closes_cycle(edges, start, q, j) ==> reports(found, q.subrange(j, q.len() as int))
}

/// `c` closes on a simple path that starts with `start` and, when longer, goes
/// on through `next`.
pub open spec fn cycle_from(edges: Seq<TrustEdge>, start: Seq<Seq<char>>, next: Seq<char>, c: Seq<Seq<char>>) -> bool {
    exists|q: Seq<Seq<char>>, j: int|
        #[trigger] closes_cycle(edges, start, q, j) && (q.len() > start.len() ==> q[start.len() as int] == next)
            && c == q.subrange(j, q.len() as int)
}

/// A cycle on a simple path from `root`.
pub open spec fn cycle_reachable_from(edges: Seq<TrustEdge>, root: Seq<char>, c: Seq<Seq<char>>) -> bool {
    cycle_from(edges, Seq::empty(), root, c)
}

/// Growing `found` at its end keeps what it reports.
proof fn lemma_reports_grow(old_found: Seq<CriticalPath>, new_found: Seq<CriticalPath>, c: Seq<Seq<char>>)
    requires
        old_found.len() <= new_found.len(),
        new_found.subrange(0, old_found.len() as int) == old_found,
        reports(old_found, c),
    ensures
        reports(new_found, c),
{
    let k = choose|k: int| 0 <= k < old_found.len() && views(old_found[k].path@) == c;
    assert(new_found[k] == new_found.subrange(0, old_found.len() as int)[k]);
}

/// A cycle found past `start + [next]` through `after` was found past `start`
/// through `next`.
proof fn lemma_cycle_from_shorter(
    edges: Seq<TrustEdge>,
    start: Seq<Seq<char>>,
    next: Seq<char>,
    after: Seq<char>,
    c: Seq<Seq<char>>,
)
    requires
        cycle_from(edges, start.push(next), after, c),
    ensures
        cycle_from(edges, start, next, c),
{
    let s2 = start.push(next);
    let (q, j) = choose|q: Seq<Seq<char>>, j: int|
        #[trigger] closes_cycle(edges, s2, q, j) && (q.len() > s2.len() ==> q[s2.len() as int] == after)
            && c == q.subrange(j, q.len() as int);
    assert(q.take(start.len() as int) =~= s2.take(start.len() as int));
    assert(s2.take(start.len() as int) =~= start);
    assert(q[start.len() as int] == q.take(s2.len() as int)[start.len() as int]);
    assert(closes_cycle(edges, start, q, j));
}

/// Depth-first search from `current` along `path`; an edge back into the path
/// closes a cycle, which is reported.
fn dfs_critical_paths(
    graph: &TrustGraph,
    current: &String,
    path: &mut Vec<String>,
    found: &mut Vec<CriticalPath>,
)
    requires
        is_simple_path(graph.edges@, views(old(path)@)),
        old(path)@.len() <= graph.edges@.len() + 1,
        old(path)@.len() > 0 ==> edge_exists(graph.edges@, old(path)@.last()@, current@),
        all_cycles(graph.edges@, old(found)@),
    ensures
        final(path)@ == old(path)@,
        all_cycles(graph.edges@, final(found)@),
        final(found)@.len() >= old(found)@.len(),
        final(found)@.subrange(0, old(found)@.len() as int) == old(found)@,
        forall|k: int|
            old(found)@.len() <= k < final(found)@.len() ==> cycle_from(
                graph.edges@,
                views(old(path)@),
                current@,
                views((#[trigger] final(found)@[k]).path@),
            ),
        forall|i: int|
            0 <= i < old(path)@.len() && old(path)@[i]@ == current@ ==> reports(
                final(found)@,
                views(old(path)@).subrange(i, old(path)@.len() as int),
            ),
        !views(old(path)@).contains(current@) ==> covers(
            graph.edges@,
            final(found)@,
            views(old(path)@).push(current@),
        ),
    decreases graph.edges@.len() + 1 - old(path)@.len(),
{
    let ghost path_before = path@;
    let ghost f0 = found@;
    let ghost edges = graph.edges@;
    let mut pos: usize = 0;
    while pos < path.len() && path[pos] != *current
        invariant
            path@ == path_before,
            pos <= path_before.len(),
            forall|q: int| 0 <= q < pos ==> path_before[q]@ != current@,
        decreases path_before.len() - pos,
    {
        pos = pos + 1;
    }
    if pos < path.len() {
        let mut cycle: Vec<String> = Vec::new();
        let mut j: usize = pos;
        while j < path.len()
            invariant
                path@ == path_before,
                pos <= j <= path_before.len(),
                views(cycle@) == views(path_before).subrange(pos as int, j as int),
            decreases path_before.len() - j,
        {
            let ghost old_c = cycle@;
            cycle.push(path[j].clone());
            assert(views(cycle@) =~= views(old_c).push(path_before[j as int]@));
            assert(views(cycle@) =~= views(path_before).subrange(pos as int, j + 1));
            j = j + 1;
        }
        proof {
            let c = views(cycle@);
            let vp = views(path_before);
            assert(vp[pos as int] == current@);
            assert(c[0] == vp[pos as int]);
            assert(c.last() == vp.last());
            assert forall|i: int| 0 <= i < c.len() - 1 implies edge_exists(edges, #[trigger] c[i], c[i + 1]) by {
                assert(c[i] == vp[pos + i]);
                assert(c[i + 1] == vp[pos + i + 1]);
            }
            assert forall|a: int, b: int| 0 <= a < c.len() && 0 <= b < c.len() && a != b implies c[a] != c[b] by {
                assert(c[a] == vp[pos + a]);
                assert(c[b] == vp[pos + b]);
            }
        }
        found.push(CriticalPath {
            path: cycle,
            criticality: SCALE,
            description: String::from_str("Circular dependency detected"),
        });
        proof {
            let vp = views(path_before);
            assert(found@.subrange(0, f0.len() as int) =~= f0);
            assert(views(found@[f0.len() as int].path@) == vp.subrange(pos as int, vp.len() as int));
            assert(vp.take(vp.len() as int) =~= vp);
            assert(vp.last() == path_before.last()@);
            assert(closes_cycle(edges, vp, vp, pos as int));
            assert(cycle_from(edges, vp, current@, views(found@[f0.len() as int].path@)));
            assert forall|i: int| 0 <= i < path_before.len() && path_before[i]@ == current@ implies reports(
                found@,
                vp.subrange(i, path_before.len() as int),
            ) by {
                if i != pos {
                    assert(vp[i] == vp[pos as int]);
                }
                assert(views(found@[f0.len() as int].path@) == vp.subrange(i, vp.len() as int));
            }
            assert forall|k: int| 0 <= k < found@.len() implies is_cycle(edges, views((#[trigger] found@[k]).path@))
                && found@[k].criticality == SCALE && found@[k].description@ == "Circular dependency detected"@ by {
                if k < f0.len() {
                    assert(found@[k] == f0[k]);
                }
            }
        }
        return;
    }
    path.push(current.clone());
    proof {
        let vp = views(path@);
        assert(vp =~= views(path_before).push(current@));
        assert forall|a: int, b: int| 0 <= a < vp.len() && 0 <= b < vp.len() && a != b implies vp[a] != vp[b] by {
            if a < path_before.len() && b < path_before.len() {
                assert(vp[a] == views(path_before)[a]);
                assert(vp[b] == views(path_before)[b]);
            } else if a < path_before.len() {
                assert(vp[a] == path_before[a]@);
            } else {
                assert(vp[b] == path_before[b]@);
            }
        }
        assert forall|i: int| 0 <= i < vp.len() - 1 implies edge_exists(edges, #[trigger] vp[i], vp[i + 1]) by {
            if i < path_before.len() - 1 {
                assert(vp[i] == views(path_before)[i]);
                assert(vp[i + 1] == views(path_before)[i + 1]);
            } else {
                assert(vp[i] == path_before.last()@);
            }
        }
        lemma_simple_path_bound(edges, vp);
    }
    let ghost pushed = path@;
    let ghost start = views(path_before).push(current@);
    proof {
        assert(!views(path_before).contains(current@)) by {
            if views(path_before).contains(current@) {
                let i = choose|i: int| 0 <= i < views(path_before).len() && views(path_before)[i] == current@;
                assert(path_before[i]@ == current@);
            }
        }
    }
    let mut e: usize = 0;
    while e < graph.edges.len()
        invariant
            edges == graph.edges@,
            old(path)@ == path_before,
            path@ == pushed,
            pushed == path_before.push(*current),
            is_simple_path(edges, views(pushed)),
            pushed.len() <= edges.len() + 1,
            path_before.len() < pushed.len(),
            all_cycles(edges, found@),
            found@.len() >= f0.len(),
            found@.subrange(0, f0.len() as int) == f0,
            e <= edges.len(),
            start == views(pushed),
            start == views(path_before).push(current@),
            forall|k: int|
                f0.len() <= k < found@.len() ==> cycle_from(
                    edges,
                    views(path_before),
                    current@,
                    views((#[trigger] found@[k]).path@),
                ),
            forall|q: Seq<Seq<char>>, j: int, ee: int|
                #![trigger closes_cycle(edges, start, q, j), edges[ee]]
                closes_cycle(edges, start, q, j) && 0 <= ee < e && edges[ee].from@ == current@
                    && edges[ee].to@ == (if q.len() > start.len() { q[start.len() as int] } else { q[j] })
                    ==> reports(found@, q.subrange(j, q.len() as int)),
        decreases edges.len() - e,
    {
        if graph.edges[e].from == *current {
            proof {
                assert(edge_links(edges[e as int], pushed.last()@, edges[e as int].to@));
            }
            let ghost before = found@;
            let ghost t = edges[e as int].to@;
            dfs_critical_paths(graph, &graph.edges[e].to, path, found);
            proof {
                assert(found@.subrange(0, f0.len() as int) =~= before.subrange(0, f0.len() as int));
                assert forall|k: int| f0.len() <= k < found@.len() implies cycle_from(
                    edges,
                    views(path_before),
                    current@,
                    views((#[trigger] found@[k]).path@),
                ) by {
                    if k < before.len() {
                        assert(found@[k] == found@.subrange(0, before.len() as int)[k]);
                    } else {
                        lemma_cycle_from_shorter(edges, views(path_before), current@, t, views(found@[k].path@));
                    }
                }
                assert forall|q: Seq<Seq<char>>, j: int, ee: int|
                    #![trigger closes_cycle(edges, start, q, j), edges[ee]]
                    closes_cycle(edges, start, q, j) && 0 <= ee < e + 1 && edges[ee].from@ == current@
                        && edges[ee].to@ == (if q.len() > start.len() { q[start.len() as int] } else { q[j] })
                        implies reports(found@, q.subrange(j, q.len() as int)) by {
                    if ee < e {
                        lemma_reports_grow(before, found@, q.subrange(j, q.len() as int));
                    } else if q.len() > start.len() {
                        let n = start.len() as int;
                        assert(q[n] == t);
                        assert(!start.contains(t)) by {
                            if start.contains(t) {
                                let i = choose|i: int| 0 <= i < start.len() && start[i] == t;
                                assert(q[i] == q.take(n)[i]);
                            }
                        }
                        assert(q.take(n + 1) =~= start.push(t)) by {
                            assert forall|x: int| 0 <= x < n implies q.take(n + 1)[x] == start[x] by {
                                assert(q.take(n)[x] == q[x]);
                            }
                        }
                        assert(closes_cycle(edges, start.push(t), q, j));
                    } else {
                        assert(q =~= start) by {
                            assert(q.take(start.len() as int) =~= q);
                        }
                        assert(pushed[j]@ == t);
                    }
                }
            }
        } else {
            proof {
                assert forall|q: Seq<Seq<char>>, j: int, ee: int|
                    #![trigger closes_cycle(edges, start, q, j), edges[ee]]
                    closes_cycle(edges, start, q, j) && 0 <= ee < e + 1 && edges[ee].from@ == current@
                        && edges[ee].to@ == (if q.len() > start.len() { q[start.len() as int] } else { q[j] })
                        implies reports(found@, q.subrange(j, q.len() as int)) by {
                    if ee == e {
                        assert(edges[e as int].from@ == current@);
                    }
                }
            }
        }
        e = e + 1;
    }
    proof {
        assert forall|q: Seq<Seq<char>>, j: int| #[trigger] closes_cycle(edges, start, q, j) implies reports(
            found@,
            q.subrange(j, q.len() as int),
        ) by {
            let n = start.len() as int;
            let tgt = if q.len() > start.len() { q[n] } else { q[j] };
            if q.len() > n {
                assert(q[n - 1] == q.take(n)[n - 1]);
                assert(edge_exists(edges, q[n - 1], q[n - 1 + 1]));
            } else {
                assert(q.last() == q.take(n)[n - 1]);
            }
            assert(edge_exists(edges, current@, tgt));
            let ee = choose|ee: int| 0 <= ee < edges.len() && edge_links(edges[ee], current@, tgt);
            assert(closes_cycle(edges, start, q, j) && 0 <= ee < e && edges[ee].from@ == current@);
        }
    }
    path.pop();
    proof {
        assert(path@ =~= path_before);
    }
}

/// Every entry is a cycle, reported at full criticality; every cycle that closes
/// on a simple path from a root is reported; and every entry is such a cycle.
pub open spec fn cycle_search_result(edges: Seq<TrustEdge>, roots: Seq<String>, r: Seq<CriticalPath>) -> bool {
    &&& all_cycles(edges, r)
    &&& forall|i: int| 0 <= i < roots.len() ==> covers(edges, r, seq![(#[trigger] roots[i])@])
    &&& forall|k: int| 0 <= k < r.len() ==> from_some_root(edges, roots, roots.len() as int, views((#[trigger] r[k]).path@))
}

/// `c` is a cycle on a simple path from one of the first `n` roots.
pub open spec fn from_some_root(edges: Seq<TrustEdge>, roots: Seq<String>, n: int, c: Seq<Seq<char>>) -> bool {
    exists|x: int| 0 <= x < n && x < roots.len() && #[trigger] cycle_reachable_from(edges, roots[x]@, c)
}

/// When no cycle closes on a simple path from any root, nothing is reported.
pub proof fn lemma_no_reachable_cycle_reports_nothing(edges: Seq<TrustEdge>, roots: Seq<String>, r: Seq<CriticalPath>)
    requires
        cycle_search_result(edges, roots, r),
        forall|i: int, c: Seq<Seq<char>>| 0 <= i < roots.len() ==> !#[trigger] cycle_reachable_from(edges, roots[i]@, c),
    ensures
        r.len() == 0,
{
    if r.len() > 0 {
        assert(from_some_root(edges, roots, roots.len() as int, views(r[0].path@)));
    }
}

/// Runs the depth-first cycle search from each root in turn.
pub fn identify_critical_paths(graph: &TrustGraph, roots: &Vec<String>) -> (r: Vec<CriticalPath>)
    ensures
        cycle_search_result(graph.edges@, roots@, r@),
{
    let ghost edges = graph.edges@;
    let mut found: Vec<CriticalPath> = Vec::new();
    let mut i: usize = 0;
    while i < roots.len()
        invariant
            edges == graph.edges@,
            all_cycles(edges, found@),
            i <= roots@.len(),
            forall|x: int| 0 <= x < i ==> covers(edges, found@, seq![(#[trigger] roots@[x])@]),
            forall|k: int|
                0 <= k < found@.len() ==> from_some_root(edges, roots@, i as int, views((#[trigger] found@[k]).path@)),
        decreases roots@.len() - i,
    {
        let mut path: Vec<String> = Vec::new();
        proof {
            assert(views(path@) =~= Seq::<Seq<char>>::empty());
        }
        let ghost before = found@;
        dfs_critical_paths(graph, &roots[i], &mut path, &mut found);
        proof {
            assert(Seq::<Seq<char>>::empty().push(roots@[i as int]@) =~= seq![roots@[i as int]@]);
            assert forall|x: int| 0 <= x < i + 1 implies covers(edges, found@, seq![(#[trigger] roots@[x])@]) by {
                if x < i {
                    assert forall|q: Seq<Seq<char>>, j: int| #[trigger] closes_cycle(edges, seq![roots@[x]@], q, j)
                        implies reports(found@, q.subrange(j, q.len() as int)) by {
                        lemma_reports_grow(before, found@, q.subrange(j, q.len() as int));
                    }
                }
            }
            assert forall|k: int| 0 <= k < found@.len() implies from_some_root(
                edges,
                roots@,
                i + 1,
                views((#[trigger] found@[k]).path@),
            ) by {
                if k < before.len() {
                    assert(found@[k] == found@.subrange(0, before.len() as int)[k]);
                    assert(from_some_root(edges, roots@, i as int, views(before[k].path@)));
                    let x = choose|x: int| 0 <= x < i && x < roots@.len() && cycle_reachable_from(edges, roots@[x]@, views(before[k].path@));
                    assert(cycle_reachable_from(edges, roots@[x]@, views(found@[k].path@)));
                } else {
                    assert(cycle_reachable_from(edges, roots@[i as int]@, views(found@[k].path@)));
                }
            }
        }
        i = i + 1;
    }
    found
}

} // verus!
