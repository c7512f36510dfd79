//! The composition engine: runs every propagation model from every root and
//! combines the results into a system-wide trust score.
use vstd::prelude::*;
use crate::analysis::{
    CriticalPath, WeakLink, all_cycles, cycle_search_result, identify_critical_paths, identify_weak_links,
    weak_link_for, weak_scores,
};
use crate::graph::{ComponentType, TrustEdge, TrustGraph, TrustNode};
use crate::keyed::{
    find_key, has_key, keys_unique, lemma_value_of_absent, lemma_value_of_at,
    lemma_value_of_frame, upsert, value_of,
};
use vstd::arithmetic::div_mod::lemma_fundamental_div_mod_converse;
use crate::clock::now_millis;
use crate::propagation::{
    BayesianPropagationModel, MinimumTrustModel, WeightedAverageModel, first_visit_result,
    minimum_trust_result, first_visit_step, lemma_first_visit_isolated, lemma_scaled_product_le,
    no_edge_from, weights_at_most_one, values_at_most_one, discovered_from_earlier, supported_at,
    min_of,
};
use crate::score::SCALE;

verus! {

/// A registered propagation model.
pub enum PropagationModel {
    WeightedAverage(WeightedAverageModel),
    MinimumTrust(MinimumTrustModel),
    Bayesian(BayesianPropagationModel),
}

/// What a model's run from `source` returns.
pub open spec fn model_result(
    m: PropagationModel,
    edges: Seq<TrustEdge>,
    source: Seq<char>,
    r: Seq<(String, u64)>,
) -> bool {
    match m {
        PropagationModel::WeightedAverage(_) => first_visit_result(edges, source, None, r),
        PropagationModel::MinimumTrust(_) => minimum_trust_result(edges, source, r),
        PropagationModel::Bayesian(b) => first_visit_result(
            edges,
            source,
            Some(b.conditional_probabilities@),
            r,
        ),
    }
}

impl PropagationModel {
    /// Runs the model from `source`.
    pub fn propagate_trust(&self, graph: &TrustGraph, source: &str) -> (r: Vec<(String, u64)>)
        ensures
            model_result(*self, graph.edges@, source@, r@),
            keys_unique(r@),
    {
        match self {
            PropagationModel::WeightedAverage(m) => m.propagate_trust(graph, source),
            PropagationModel::MinimumTrust(m) => m.propagate_trust(graph, source),
            PropagationModel::Bayesian(m) => m.propagate_trust(graph, source),
        }
    }

    /// The model's configured name.
    pub fn get_model_name(&self) -> (r: String)
        ensures
            r@ == match *self {
                PropagationModel::WeightedAverage(m) => m.name@,
                PropagationModel::MinimumTrust(m) => m.name@,
                PropagationModel::Bayesian(m) => m.name@,
            },
    {
        match self {
            PropagationModel::WeightedAverage(m) => m.get_model_name(),
            PropagationModel::MinimumTrust(m) => m.get_model_name(),
            PropagationModel::Bayesian(m) => m.get_model_name(),
        }
    }
}

/// In a first-visit result without a table, no value exceeds 1.0 when no
/// weight does.
proof fn lemma_first_visit_value_bound(edges: Seq<TrustEdge>, source: Seq<char>, r: Seq<(String, u64)>, i: int)
    requires
        first_visit_result(edges, source, None, r),
        weights_at_most_one(edges),
        0 <= i < r.len(),
    ensures
        r[i].1 <= SCALE,
    decreases i,
{
    if i > 0 {
        assert(r[i] == r[i]);
        let (j, e) = choose|j: int, e: int|
            #![trigger r[j], edges[e]]
            0 <= j < i && 0 <= e < edges.len() && edges[e].from@ == r[j].0@ && edges[e].to@ == r[i].0@
                && r[i].1 == first_visit_step(None, r[j].1, edges[e]);
        lemma_first_visit_value_bound(edges, source, r, j);
        lemma_scaled_product_le(r[j].1, edges[e].trust_weight);
    }
}

/// From a source that no edge leaves, every model returns the source alone, at
/// full trust.
pub proof fn lemma_isolated_source_alone(
    m: PropagationModel,
    edges: Seq<TrustEdge>,
    source: Seq<char>,
    r: Seq<(String, u64)>,
)
    requires
        model_result(m, edges, source, r),
        no_edge_from(edges, source),
    ensures
        r.len() == 1,
        r[0].0@ == source,
        r[0].1 == SCALE,
{
    match m {
        PropagationModel::WeightedAverage(_) => {
            lemma_first_visit_isolated(edges, source, None, r);
        },
        PropagationModel::Bayesian(b) => {
            lemma_first_visit_isolated(edges, source, Some(b.conditional_probabilities@), r);
        },
        PropagationModel::MinimumTrust(_) => {
            if r.len() > 1 {
                assert(discovered_from_earlier(r, edges, 1));
                let (j, e) = choose|j: int, e: int|
                    #![trigger r[j], edges[e]]
                    0 <= j < 1 && 0 <= e < edges.len() && edges[e].from@ == r[j].0@ && edges[e].to@ == r[1].0@;
                assert(edges[e].from@ == source);
            }
            if r[0].1 != SCALE {
                assert(supported_at(r, edges, 0));
                let (i, e) = choose|i: int, e: int|
                    #![trigger r[i], edges[e]]
                    0 <= i < r.len() && 0 <= e < edges.len() && edges[e].from@ == r[i].0@ && edges[e].to@
                        == r[0].0@ && r[0].1 >= min_of(r[i].1, edges[e].trust_weight);
                assert(edges[e].from@ == source);
            }
        },
    }
}

/// With edge weights within [0, 1], the weighted-average and minimum-trust
/// models only produce values within [0, 1].
pub proof fn lemma_values_within_unit(
    m: PropagationModel,
    edges: Seq<TrustEdge>,
    source: Seq<char>,
    r: Seq<(String, u64)>,
)
    requires
        model_result(m, edges, source, r),
        !(m is Bayesian),
        weights_at_most_one(edges),
    ensures
        values_at_most_one(r),
{
    match m {
        PropagationModel::WeightedAverage(_) => {
            assert forall|i: int| 0 <= i < r.len() implies r[i].1 <= SCALE by {
                lemma_first_visit_value_bound(edges, source, r, i);
            }
        },
        _ => {},
    }
}

/// The sum and number of the values that `runs` hold for key `k`.
pub open spec fn total_for(runs: Seq<Seq<(String, u64)>>, k: Seq<char>) -> (int, nat)
    decreases runs.len(),
{
    if runs.len() == 0 {
        (0, 0)
    } else {
        let t = total_for(runs.drop_last(), k);
        match value_of(runs.last(), k) {
            Some(v) => (t.0 + v, t.1 + 1),
            None => t,
        }
    }
}

/// `scores` holds each component that some run holds (counted at least once), once, with the mean (rounded
/// down) of the values the runs hold for it.
pub open spec fn averaged(runs: Seq<Seq<(String, u64)>>, scores: Seq<(String, u64)>) -> bool {
    &&& keys_unique(scores)
    &&& forall|k: Seq<char>| has_key(scores, k) <==> total_for(runs, k).1 > 0
    &&& forall|i: int|
        0 <= i < scores.len() ==> {
            let t = total_for(runs, (#[trigger] scores[i]).0@);
            t.1 > 0 && scores[i].1 == t.0 / (t.1 as int)
        }
}

/// The sum of the values of `scores`.
pub open spec fn sum_values(scores: Seq<(String, u64)>) -> int
    decreases scores.len(),
{
    if scores.len() == 0 {
        0
    } else {
        sum_values(scores.drop_last()) + scores.last().1
    }
}

/// The mean of the values (rounded down), or zero when there are none.
pub open spec fn mean_value(scores: Seq<(String, u64)>) -> int {
    if scores.len() == 0 {
        0
    } else {
        sum_values(scores) / (scores.len() as int)
    }
}

/// Sums stay within `count * u64::MAX`; no key counts more often than there are runs;
/// a key never counted sums to zero.
pub proof fn lemma_total_bounds(runs: Seq<Seq<(String, u64)>>, k: Seq<char>)
    ensures
        0 <= total_for(runs, k).0 <= (total_for(runs, k).1 as int) * (u64::MAX as int),
        total_for(runs, k).1 <= runs.len(),
        total_for(runs, k).1 == 0 ==> total_for(runs, k).0 == 0,
    decreases runs.len(),
{
    if runs.len() > 0 {
        lemma_total_bounds(runs.drop_last(), k);
        let t = total_for(runs.drop_last(), k);
        assert((t.1 as int) * (u64::MAX as int) + u64::MAX as int == ((t.1 + 1) as int) * (u64::MAX as int))
            by (nonlinear_arith);
    }
}

/// Appending an entry with a new key: it is found under that key, and nothing
/// else changes.
pub proof fn lemma_value_of_push_fresh(s: Seq<(String, u64)>, p: (String, u64))
    requires
        keys_unique(s.push(p)),
    ensures
        value_of(s.push(p), p.0@) == Some(p.1),
        forall|k: Seq<char>| k != p.0@ ==> value_of(s.push(p), k) == value_of(s, k),
{
    let t = s.push(p);
    assert(t[s.len() as int] == p);
    lemma_value_of_at(t, s.len() as int);
    assert forall|a: int, b: int| 0 <= a < b < s.len() implies s[a].0@ != s[b].0@ by {
        assert(t[a] == s[a] && t[b] == s[b]);
    }
    assert forall|k: Seq<char>| k != p.0@ implies (has_key(s, k) <==> has_key(t, k)) by {
        if has_key(t, k) {
            let j = choose|j: int| 0 <= j < t.len() && t[j].0@ == k;
            assert(t[j] == s[j]);
        }
        if has_key(s, k) {
            let j = choose|j: int| 0 <= j < s.len() && s[j].0@ == k;
            assert(t[j] == s[j]);
        }
    }
    lemma_value_of_frame(s, t, p.0@);
}

/// Running sums and counts per component.
pub open spec fn acc_matches(acc: Seq<(String, (u128, u64))>, runs: Seq<Seq<(String, u64)>>) -> bool {
    &&& keys_unique(acc)
    &&& forall|k: Seq<char>| has_key(acc, k) <==> total_for(runs, k).1 > 0
    &&& forall|i: int|
        0 <= i < acc.len() ==> (#[trigger] acc[i]).1.0 == total_for(runs, acc[i].0@).0
            && acc[i].1.1 == total_for(runs, acc[i].0@).1
}

/// Adds one run's values to the running sums and counts.
fn add_run(acc: &mut Vec<(String, (u128, u64))>, run: &Vec<(String, u64)>, Ghost(runs): Ghost<Seq<Seq<(String, u64)>>>)
    requires
        acc_matches(old(acc)@, runs),
        keys_unique(run@),
        runs.len() < usize::MAX,
    ensures
        acc_matches(final(acc)@, runs.push(run@)),
{
    proof {
        let e = run@.subrange(0, 0);
        assert(runs.push(e).drop_last() == runs);
        assert forall|k: Seq<char>| total_for(runs.push(e), k) == total_for(runs, k) by {
            lemma_value_of_absent(e, k);
        }
    }
    let mut j: usize = 0;
    while j < run.len()
        invariant
            acc_matches(acc@, runs.push(run@.subrange(0, j as int))),
            keys_unique(run@),
            runs.len() < usize::MAX,
            j <= run@.len(),
        decreases run@.len() - j,
    {
        let ghost before = acc@;
        let ghost sub = run@.subrange(0, j as int);
        let ghost sub2 = run@.subrange(0, j + 1);
        let ghost x = run@[j as int];
        proof {
            assert(sub2 == sub.push(x));
            assert(keys_unique(sub2));
            lemma_value_of_push_fresh(sub, x);
            assert(runs.push(sub2).drop_last() == runs);
            assert(runs.push(sub).drop_last() == runs);
            assert(forall|k: Seq<char>| k != x.0@ ==> total_for(runs.push(sub2), k) == total_for(runs.push(sub), k));
            assert(!has_key(sub, x.0@)) by {
                if has_key(sub, x.0@) {
                    let m = choose|m: int| 0 <= m < sub.len() && sub[m].0@ == x.0@;
                    assert(run@[m].0@ == run@[j as int].0@);
                }
            }
            lemma_value_of_absent(sub, x.0@);
            lemma_total_bounds(runs.push(sub), x.0@);
            lemma_total_bounds(runs, x.0@);
            assert(total_for(runs.push(sub), x.0@) == total_for(runs, x.0@));
            assert(total_for(runs.push(sub2), x.0@).0 == total_for(runs, x.0@).0 + x.1);
            assert(total_for(runs.push(sub2), x.0@).1 == total_for(runs, x.0@).1 + 1);
        }
        let key = &run[j].0;
        let v = run[j].1;
        match find_key(acc, key) {
            Some(i) => {
                let (s0, c0) = acc[i].1;
                proof {
                    assert((c0 as int) <= runs.len());
                    assert((s0 as int) <= (c0 as int) * (u64::MAX as int));
                    assert((c0 as int) * (u64::MAX as int) <= (usize::MAX as int) * (u64::MAX as int))
                        by (nonlinear_arith)
                        requires (c0 as int) <= usize::MAX;
                }
                acc.set(i, (key.clone(), (s0 + v as u128, c0 + 1)));
                proof {
                    assert(acc@[i as int].0@ == x.0@);
                    assert forall|k: Seq<char>| has_key(acc@, k) <==> total_for(runs.push(sub2), k).1 > 0 by {
                        if k != x.0@ {
                            if has_key(acc@, k) {
                                let m = choose|m: int| 0 <= m < acc@.len() && acc@[m].0@ == k;
                                assert(before[m] == acc@[m]);
                                assert(has_key(before, k));
                            }
                            if has_key(before, k) {
                                let m = choose|m: int| 0 <= m < before.len() && before[m].0@ == k;
                                assert(before[m] == acc@[m]);
                            }
                        }
                    }
                    assert forall|k: Seq<char>| k != x.0@ implies (has_key(before, k) <==> has_key(acc@, k)) by {
                        if has_key(acc@, k) {
                            let m = choose|m: int| 0 <= m < acc@.len() && acc@[m].0@ == k;
                            assert(before[m] == acc@[m]);
                        }
                        if has_key(before, k) {
                            let m = choose|m: int| 0 <= m < before.len() && before[m].0@ == k;
                            assert(before[m] == acc@[m]);
                        }
                    }
                    assert forall|m: int| 0 <= m < acc@.len() implies (#[trigger] acc@[m]).1.0
                        == total_for(runs.push(sub2), acc@[m].0@).0 && acc@[m].1.1 == total_for(
                        runs.push(sub2),
                        acc@[m].0@,
                    ).1 by {
                        if m != i {
                            assert(before[m] == acc@[m]);
                            assert(before[m].0@ != before[i as int].0@);
                        }
                    }
                }
            },
            None => {
                acc.push((key.clone(), (v as u128, 1)));
                proof {
                    let n = before.len() as int;
                    assert forall|a: int, b: int| 0 <= a < b < acc@.len() implies acc@[a].0@ != acc@[b].0@ by {
                        if b == n {
                            assert(acc@[a] == before[a]);
                            assert(has_key(before, before[a].0@));
                        } else {
                            assert(acc@[a] == before[a] && acc@[b] == before[b]);
                        }
                    }
                    assert forall|k: Seq<char>| has_key(acc@, k) <==> total_for(runs.push(sub2), k).1 > 0 by {
                        if k != x.0@ {
                            if has_key(acc@, k) {
                                let m = choose|m: int| 0 <= m < acc@.len() && acc@[m].0@ == k;
                                assert(m != n);
                                assert(before[m] == acc@[m]);
                            }
                            if has_key(before, k) {
                                let m = choose|m: int| 0 <= m < before.len() && before[m].0@ == k;
                                assert(before[m] == acc@[m]);
                            }
                        } else {
                            assert(acc@[n].0@ == k);
                        }
                    }
                    assert forall|m: int| 0 <= m < acc@.len() implies (#[trigger] acc@[m]).1.0
                        == total_for(runs.push(sub2), acc@[m].0@).0 && acc@[m].1.1 == total_for(
                        runs.push(sub2),
                        acc@[m].0@,
                    ).1 by {
                        if m != n {
                            assert(before[m] == acc@[m]);
                            assert(has_key(before, before[m].0@));
                        }
                    }
                }
            },
        }
        j = j + 1;
    }
    assert(run@.subrange(0, run@.len() as int) == run@);
}

/// The mean of each component's values.
fn finish_averages(acc: &Vec<(String, (u128, u64))>, Ghost(runs): Ghost<Seq<Seq<(String, u64)>>>) -> (r: Vec<(String, u64)>)
    requires
        acc_matches(acc@, runs),
    ensures
        averaged(runs, r@),
{
    let mut r: Vec<(String, u64)> = Vec::new();
    let mut i: usize = 0;
    while i < acc.len()
        invariant
            acc_matches(acc@, runs),
            i <= acc@.len(),
            r@.len() == i,
            forall|m: int| 0 <= m < i ==> (#[trigger] r@[m]).0@ == acc@[m].0@ && r@[m].1 == total_for(runs, acc@[m].0@).0 / (total_for(runs, acc@[m].0@).1 as int),
        decreases acc@.len() - i,
    {
        let (s0, c0) = acc[i].1;
        proof {
            assert(has_key(acc@, acc@[i as int].0@));
            lemma_total_bounds(runs, acc@[i as int].0@);
            assert((s0 as int) / (c0 as int) <= u64::MAX) by (nonlinear_arith)
                requires (s0 as int) <= (c0 as int) * (u64::MAX as int), c0 > 0;
        }
        r.push((acc[i].0.clone(), (s0 / (c0 as u128)) as u64));
        i = i + 1;
    }
    proof {
        assert forall|a: int, b: int| 0 <= a < b < r@.len() implies r@[a].0@ != r@[b].0@ by {
            assert(acc@[a].0@ != acc@[b].0@);
        }
        assert forall|k: Seq<char>| has_key(r@, k) <==> total_for(runs, k).1 > 0 by {
            if has_key(r@, k) {
                let m = choose|m: int| 0 <= m < r@.len() && r@[m].0@ == k;
                assert(acc@[m].0@ == k);
                assert(has_key(acc@, k));
            }
            if total_for(runs, k).1 > 0 {
                assert(has_key(acc@, k));
                let m = choose|m: int| 0 <= m < acc@.len() && acc@[m].0@ == k;
                assert(r@[m].0@ == k);
            }
        }
        assert forall|m: int| 0 <= m < r@.len() implies ({
            let t = total_for(runs, (#[trigger] r@[m]).0@);
            t.1 > 0 && r@[m].1 == t.0 / (t.1 as int)
        }) by {
            assert(has_key(acc@, acc@[m].0@));
        }
    }
    r
}

/// The mean (rounded down) of the values, or zero when there are none.
pub fn overall_mean(scores: &Vec<(String, u64)>) -> (r: u64)
    ensures
        r == mean_value(scores@),
{
    let mut sum: u128 = 0;
    let mut i: usize = 0;
    while i < scores.len()
        invariant
            i <= scores@.len(),
            sum == sum_values(scores@.subrange(0, i as int)),
            sum <= (i as int) * (u64::MAX as int),
        decreases scores@.len() - i,
    {
        assert(scores@.subrange(0, i + 1).drop_last() == scores@.subrange(0, i as int));
        proof {
            assert((i as int) * (u64::MAX as int) + u64::MAX as int == ((i + 1) as int) * (u64::MAX as int))
                by (nonlinear_arith);
            assert(((i + 1) as int) * (u64::MAX as int) <= (usize::MAX as int) * (u64::MAX as int))
                by (nonlinear_arith)
                requires i < usize::MAX;
        }
        sum = sum + scores[i].1 as u128;
        i = i + 1;
    }
    assert(scores@.subrange(0, scores@.len() as int) == scores@);
    if scores.len() == 0 {
        0
    } else {
        proof {
            assert((sum as int) / (i as int) <= u64::MAX) by (nonlinear_arith)
                requires (sum as int) <= (i as int) * (u64::MAX as int), i > 0;
        }
        (sum / (scores.len() as u128)) as u64
    }
}

#[derive(Clone, Copy, Debug, PartialEq, Eq, Structural)]
pub enum CompositionRuleType {
    TrustThreshold,
    DependencyFailure,
    SecurityViolation,
    PerformanceDegradation,
    ComplianceViolation,
}

#[derive(Clone, Copy, Debug, PartialEq, Eq, Structural)]
pub enum CompositionActionType {
    IsolateComponent,
    ReduceTrustWeight,
    TriggerAlert,
    UpdateSecurityPolicy,
    ScaleResources,
    FailoverToBackup,
}

/// Thresholds in millionths.
#[derive(Clone, Copy, Debug)]
pub struct SecurityCondition {
    pub vulnerability_threshold: u64,
    pub patch_status_required: bool,
    pub compliance_threshold: u64,
}

/// Thresholds in millionths. Kept with the rule; not evaluated.
#[derive(Clone, Copy, Debug)]
pub struct PerformanceCondition {
    pub response_time_threshold: u64,
    pub error_rate_threshold: u64,
    pub availability_threshold: u64,
}

/// A predicate over the whole graph.
#[derive(Clone, Copy, Debug)]
pub struct CompositionCondition {
    pub component_type: Option<ComponentType>,
    pub trust_threshold: Option<u64>,
    pub security_condition: Option<SecurityCondition>,
    pub performance_condition: Option<PerformanceCondition>,
}

#[derive(Clone, Debug)]
pub struct CompositionAction {
    pub action_type: CompositionActionType,
    pub target_components: Vec<String>,
    pub parameters: Vec<(String, String)>,
}

/// A graph-wide rule; it fires when any of its conditions holds.
#[derive(Clone, Debug)]
pub struct CompositionRule {
    pub rule_id: String,
    pub rule_type: CompositionRuleType,
    pub conditions: Vec<CompositionCondition>,
    pub actions: Vec<CompositionAction>,
    /// Lower values come first.
    pub priority: u32,
}

/// A condition holds when some node's trust is below its trust threshold, or some
/// node's vulnerability score exceeds its vulnerability threshold.
pub open spec fn condition_triggers(c: CompositionCondition, nodes: Seq<TrustNode>) -> bool {
    ||| (c.trust_threshold matches Some(t) && exists|i: int|
        0 <= i < nodes.len() && #[trigger] nodes[i].trust_score < t)
    ||| (c.security_condition matches Some(sc) && exists|i: int|
        0 <= i < nodes.len() && #[trigger] nodes[i].security_posture.vulnerability_score
            > sc.vulnerability_threshold)
}

/// A rule fires when any one of its conditions holds.
pub open spec fn rule_triggers(r: CompositionRule, nodes: Seq<TrustNode>) -> bool {
    exists|c: int| 0 <= c < r.conditions@.len() && condition_triggers(#[trigger] r.conditions@[c], nodes)
}

/// `(rule, action)` positions of the actions of every firing rule, in rule order.
pub open spec fn triggered_slots(rules: Seq<CompositionRule>, nodes: Seq<TrustNode>) -> Seq<(usize, usize)>
    decreases rules.len(),
{
    if rules.len() == 0 {
        Seq::empty()
    } else {
        let before = triggered_slots(rules.drop_last(), nodes);
        if rule_triggers(rules.last(), nodes) {
            before + Seq::new(
                rules.last().actions@.len(),
                |a: int| ((rules.len() - 1) as usize, a as usize),
            )
        } else {
            before
        }
    }
}

/// Whether any condition of `rule` holds on the graph.
pub fn evaluate_rule_conditions(graph: &TrustGraph, rule: &CompositionRule) -> (r: bool)
    ensures
        r == rule_triggers(*rule, graph.nodes@),
{
    let mut c: usize = 0;
    while c < rule.conditions.len()
        invariant
            c <= rule.conditions@.len(),
            forall|j: int| 0 <= j < c ==> !condition_triggers(#[trigger] rule.conditions@[j], graph.nodes@),
        decreases rule.conditions@.len() - c,
    {
        let cond = rule.conditions[c];
        if let Some(t) = cond.trust_threshold {
            let mut i: usize = 0;
            while i < graph.nodes.len()
                invariant
                    c < rule.conditions@.len(),
                    cond == rule.conditions@[c as int],
                    cond.trust_threshold == Some(t),
                    forall|j: int| 0 <= j < c ==> !condition_triggers(#[trigger] rule.conditions@[j], graph.nodes@),
                    i <= graph.nodes@.len(),
                    forall|j: int| 0 <= j < i ==> graph.nodes@[j].trust_score >= t,
                decreases graph.nodes@.len() - i,
            {
                if graph.nodes[i].trust_score < t {
                    assert(graph.nodes@[i as int].trust_score < t);
                    assert(condition_triggers(rule.conditions@[c as int], graph.nodes@));
                    return true;
                }
                i = i + 1;
            }
        }
        if let Some(sc) = cond.security_condition {
            let mut i: usize = 0;
            while i < graph.nodes.len()
                invariant
                    c < rule.conditions@.len(),
                    cond == rule.conditions@[c as int],
                    cond.security_condition == Some(sc),
                    forall|j: int| 0 <= j < c ==> !condition_triggers(#[trigger] rule.conditions@[j], graph.nodes@),
                    i <= graph.nodes@.len(),
                    forall|j: int|
                        0 <= j < i ==> graph.nodes@[j].security_posture.vulnerability_score
                            <= sc.vulnerability_threshold,
                decreases graph.nodes@.len() - i,
            {
                if graph.nodes[i].security_posture.vulnerability_score > sc.vulnerability_threshold {
                    assert(graph.nodes@[i as int].security_posture.vulnerability_score > sc.vulnerability_threshold);
                    assert(condition_triggers(rule.conditions@[c as int], graph.nodes@));
                    return true;
                }
                i = i + 1;
            }
        }
        c = c + 1;
    }
    false
}

/// The outcome of one system-wide assessment.
pub struct SystemTrustScore {
    pub overall_trust: u64,
    pub component_scores: Vec<(String, u64)>,
    pub critical_paths: Vec<CriticalPath>,
    pub weak_links: Vec<WeakLink>,
    pub timestamp: i64,
}

/// Each model's result from one source.
pub struct PropagationAnalysis {
    pub source_component: String,
    pub propagation_results: Vec<(String, Vec<(String, u64)>)>,
    pub timestamp: i64,
}

/// A copy of a list of string pairs.
fn copy_pairs(v: &Vec<(String, String)>) -> (r: Vec<(String, String)>)
    ensures
        r@ == v@,
{
    let mut r: Vec<(String, String)> = Vec::new();
    let mut i: usize = 0;
    while i < v.len()
        invariant
            i <= v@.len(),
            r@ == v@.subrange(0, i as int),
        decreases v@.len() - i,
    {
        r.push((v[i].0.clone(), v[i].1.clone()));
        assert(r@ =~= v@.subrange(0, i + 1));
        i = i + 1;
    }
    assert(v@.subrange(0, v@.len() as int) =~= v@);
    r
}

/// Run `k` is the run of model `k / R` from root `k % R`, for `R` roots.
pub open spec fn runs_from(
    models: Seq<(String, PropagationModel)>,
    roots: Seq<String>,
    edges: Seq<TrustEdge>,
    runs: Seq<Seq<(String, u64)>>,
) -> bool {
    &&& runs.len() == models.len() * roots.len()
    &&& forall|k: int|
        0 <= k < runs.len() ==> model_result(
            models[k / roots.len() as int].1,
            edges,
            roots[k % roots.len() as int]@,
            #[trigger] runs[k],
        )
}

/// Orchestrates propagation models and structural analysis over one trust graph.
pub struct CompositionEngine {
    pub trust_graph: TrustGraph,
    /// Keyed by registration name.
    pub propagation_models: Vec<(String, PropagationModel)>,
    /// In ascending priority; equal priorities in order of registration.
    pub composition_rules: Vec<CompositionRule>,
}

impl CompositionEngine {
    pub open spec fn wf(&self) -> bool {
        &&& self.trust_graph.wf()
        &&& keys_unique(self.propagation_models@)
        &&& forall|i: int, j: int|
            0 <= i < j < self.composition_rules@.len() ==> self.composition_rules@[i].priority
                <= self.composition_rules@[j].priority
    }

    /// An engine with an empty graph, no models and no rules.
    pub fn new() -> (r: CompositionEngine)
        ensures
            r.wf(),
            r.trust_graph.nodes@.len() == 0,
            r.trust_graph.edges@.len() == 0,
            r.propagation_models@.len() == 0,
            r.composition_rules@.len() == 0,
    {
        CompositionEngine {
            trust_graph: TrustGraph::new(),
            propagation_models: Vec::new(),
            composition_rules: Vec::new(),
        }
    }

    /// Registers a component (replacing one of the same id).
    pub fn add_component(&mut self, node: TrustNode)
        requires
            old(self).wf(),
        ensures
            final(self).wf(),
            final(self).trust_graph.nodes@ == old(self).trust_graph.nodes_with(node),
            final(self).trust_graph.edges@ == old(self).trust_graph.edges@,
            final(self).propagation_models@ == old(self).propagation_models@,
            final(self).composition_rules@ == old(self).composition_rules@,
    {
        self.trust_graph.add_node(node);
    }

    /// Registers a relationship (replacing one of the same `(from, to)`).
    pub fn add_relationship(&mut self, edge: TrustEdge)
        requires
            old(self).wf(),
        ensures
            final(self).wf(),
            final(self).trust_graph.edges@ == old(self).trust_graph.edges_with(edge),
            final(self).trust_graph.nodes@ == old(self).trust_graph.nodes@,
            final(self).propagation_models@ == old(self).propagation_models@,
            final(self).composition_rules@ == old(self).composition_rules@,
    {
        self.trust_graph.add_edge(edge);
    }

    /// Registers a model under `name`, replacing one of the same name.
    pub fn add_propagation_model(&mut self, name: String, model: PropagationModel)
        requires
            old(self).wf(),
        ensures
            final(self).wf(),
            final(self).trust_graph == old(self).trust_graph,
            final(self).composition_rules@ == old(self).composition_rules@,
            value_of(final(self).propagation_models@, name@) == Some(model),
            forall|k: Seq<char>|
                k != name@ ==> value_of(final(self).propagation_models@, k) == value_of(
                    old(self).propagation_models@,
                    k,
                ),
            has_key(old(self).propagation_models@, name@) ==> final(self).propagation_models@.len()
                == old(self).propagation_models@.len(),
            !has_key(old(self).propagation_models@, name@) ==> final(self).propagation_models@.len()
                == old(self).propagation_models@.len() + 1,
    {
        upsert(&mut self.propagation_models, name, model);
    }

    /// Adds a rule after every rule of lower or equal priority.
    pub fn add_composition_rule(&mut self, rule: CompositionRule)
        requires
            old(self).wf(),
        ensures
            final(self).wf(),
            final(self).trust_graph == old(self).trust_graph,
            final(self).propagation_models@ == old(self).propagation_models@,
            exists|pos: int|
                0 <= pos <= old(self).composition_rules@.len() && final(self).composition_rules@
                    == old(self).composition_rules@.insert(pos, rule) && (forall|i: int|
                    0 <= i < pos ==> old(self).composition_rules@[i].priority <= rule.priority)
                    && (forall|i: int|
                    pos <= i < old(self).composition_rules@.len()
                        ==> old(self).composition_rules@[i].priority > rule.priority),
    {
        let ghost before = self.composition_rules@;
        let mut pos: usize = 0;
        while pos < self.composition_rules.len() && self.composition_rules[pos].priority <= rule.priority
            invariant
                self.composition_rules@ == before,
                forall|i: int, j: int| 0 <= i < j < before.len() ==> before[i].priority <= before[j].priority,
                pos <= before.len(),
                forall|i: int| 0 <= i < pos ==> before[i].priority <= rule.priority,
            decreases before.len() - pos,
        {
            pos = pos + 1;
        }
        assert forall|i: int| pos <= i < before.len() implies before[i].priority > rule.priority by {
            assert(before[pos as int].priority > rule.priority);
        }
        self.composition_rules.insert(pos, rule);
    }

    /// Runs every model from every root, averages each component's values, and
    /// reports the overall mean, the cycles found from the roots and the weak links.
    pub fn calculate_system_trust(&self, roots: &Vec<String>) -> (r: SystemTrustScore)
        requires
            self.wf(),
            self.propagation_models@.len() * roots@.len() < usize::MAX,
        ensures
            exists|runs: Seq<Seq<(String, u64)>>|
                runs_from(self.propagation_models@, roots@, self.trust_graph.edges@, runs) && averaged(
                    runs,
                    r.component_scores@,
                ),
            r.overall_trust == mean_value(r.component_scores@),
            cycle_search_result(self.trust_graph.edges@, roots@, r.critical_paths@),
            r.weak_links@.len() == weak_scores(r.component_scores@).len(),
            forall|k: int|
                0 <= k < r.weak_links@.len() ==> weak_link_for(
                    self.trust_graph.edges@,
                    #[trigger] r.weak_links@[k],
                    weak_scores(r.component_scores@)[k].0,
                    weak_scores(r.component_scores@)[k].1,
                ),
    {
        let ghost models = self.propagation_models@;
        let ghost edges = self.trust_graph.edges@;
        let n_models = self.propagation_models.len();
        let n_roots = roots.len();
        let mut acc: Vec<(String, (u128, u64))> = Vec::new();
        let ghost mut runs: Seq<Seq<(String, u64)>> = Seq::empty();
        let mut m: usize = 0;
        while m < n_models
            invariant
                n_models == models.len(),
                n_roots == roots@.len(),
                models == self.propagation_models@,
                edges == self.trust_graph.edges@,
                n_models * n_roots < usize::MAX,
                m <= n_models,
                runs.len() == m * n_roots,
                acc_matches(acc@, runs),
                forall|k: int|
                    0 <= k < runs.len() ==> model_result(
                        models[k / n_roots as int].1,
                        edges,
                        roots@[k % n_roots as int]@,
                        #[trigger] runs[k],
                    ),
            decreases n_models - m,
        {
            let mut q: usize = 0;
            while q < n_roots
                invariant
                    n_models == models.len(),
                    n_roots == roots@.len(),
                    models == self.propagation_models@,
                    edges == self.trust_graph.edges@,
                    n_models * n_roots < usize::MAX,
                    m < n_models,
                    q <= n_roots,
                    runs.len() == m * n_roots + q,
                    acc_matches(acc@, runs),
                    forall|k: int|
                        0 <= k < runs.len() ==> model_result(
                            models[k / n_roots as int].1,
                            edges,
                            roots@[k % n_roots as int]@,
                            #[trigger] runs[k],
                        ),
                decreases n_roots - q,
            {
                proof {
                    assert(m * n_roots + q < n_models * n_roots) by (nonlinear_arith)
                        requires m < n_models, q < n_roots;
                }
                let run = self.propagation_models[m].1.propagate_trust(&self.trust_graph, roots[q].as_str());
                add_run(&mut acc, &run, Ghost(runs));
                proof {
                    let k = runs.len() as int;
                    lemma_fundamental_div_mod_converse(k, n_roots as int, m as int, q as int);
                    runs = runs.push(run@);
                    assert forall|j: int| 0 <= j < runs.len() implies model_result(
                        models[j / n_roots as int].1,
                        edges,
                        roots@[j % n_roots as int]@,
                        #[trigger] runs[j],
                    ) by {
                        if j < k {
                            assert(runs[j] == runs.drop_last()[j]);
                        }
                    }
                }
                q = q + 1;
            }
            proof {
                assert(m * n_roots + n_roots == (m + 1) * n_roots) by (nonlinear_arith);
            }
            m = m + 1;
        }
        let scores = finish_averages(&acc, Ghost(runs));
        let overall = overall_mean(&scores);
        let critical = identify_critical_paths(&self.trust_graph, roots);
        let weak = identify_weak_links(&self.trust_graph, &scores);
        let timestamp = now_millis();
        let r = SystemTrustScore {
            overall_trust: overall,
            component_scores: scores,
            critical_paths: critical,
            weak_links: weak,
            timestamp,
        };
        proof {
            assert(runs_from(models, roots@, edges, runs) && averaged(runs, r.component_scores@));
        }
        r
    }

    /// Every model's result from `source`, in registration order.
    pub fn get_propagation_analysis(&self, source: &String) -> (r: PropagationAnalysis)
        ensures
            r.source_component@ == source@,
            r.propagation_results@.len() == self.propagation_models@.len(),
            forall|i: int|
                0 <= i < r.propagation_results@.len() ==> (#[trigger] r.propagation_results@[i]).0@
                    == self.propagation_models@[i].0@ && model_result(
                    self.propagation_models@[i].1,
                    self.trust_graph.edges@,
                    source@,
                    r.propagation_results@[i].1@,
                ),
    {
        let mut results: Vec<(String, Vec<(String, u64)>)> = Vec::new();
        let mut i: usize = 0;
        while i < self.propagation_models.len()
            invariant
                i <= self.propagation_models@.len(),
                results@.len() == i,
                forall|j: int|
                    0 <= j < i ==> (#[trigger] results@[j]).0@ == self.propagation_models@[j].0@
                        && model_result(
                        self.propagation_models@[j].1,
                        self.trust_graph.edges@,
                        source@,
                        results@[j].1@,
                    ),
            decreases self.propagation_models@.len() - i,
        {
            let run = self.propagation_models[i].1.propagate_trust(&self.trust_graph, source.as_str());
            results.push((self.propagation_models[i].0.clone(), run));
            i = i + 1;
        }
        PropagationAnalysis {
            source_component: source.clone(),
            propagation_results: results,
            timestamp: now_millis(),
        }
    }
    /// The `(rule, action)` positions of the actions of every firing rule, in
    /// priority order; a firing rule does not stop the later ones.
    pub fn triggered_rule_actions(&self) -> (r: Vec<(usize, usize)>)
        ensures
            r@ == triggered_slots(self.composition_rules@, self.trust_graph.nodes@),
            forall|k: int|
                0 <= k < r@.len() ==> (#[trigger] r@[k]).0 < self.composition_rules@.len() && r@[k].1
                    < self.composition_rules@[r@[k].0 as int].actions@.len(),
    {
        let ghost rules = self.composition_rules@;
        let ghost nodes = self.trust_graph.nodes@;
        let mut r: Vec<(usize, usize)> = Vec::new();
        let mut i: usize = 0;
        while i < self.composition_rules.len()
            invariant
                rules == self.composition_rules@,
                nodes == self.trust_graph.nodes@,
                i <= rules.len(),
                r@ == triggered_slots(rules.subrange(0, i as int), nodes),
                forall|k: int|
                    0 <= k < r@.len() ==> (#[trigger] r@[k]).0 < rules.len() && r@[k].1
                        < rules[r@[k].0 as int].actions@.len(),
            decreases rules.len() - i,
        {
            let ghost start = r@;
            assert(rules.subrange(0, i + 1).drop_last() == rules.subrange(0, i as int));
            assert(rules.subrange(0, i + 1).last() == rules[i as int]);
            if evaluate_rule_conditions(&self.trust_graph, &self.composition_rules[i]) {
                let n = self.composition_rules[i].actions.len();
                let mut a: usize = 0;
                while a < n
                    invariant
                        rules == self.composition_rules@,
                        i < rules.len(),
                        n == rules[i as int].actions@.len(),
                        a <= n,
                        r@ == start + Seq::new(a as nat, |x: int| (i, x as usize)),
                        forall|k: int|
                            0 <= k < r@.len() ==> (#[trigger] r@[k]).0 < rules.len() && r@[k].1
                                < rules[r@[k].0 as int].actions@.len(),
                    decreases n - a,
                {
                    r.push((i, a));
                    assert(r@ =~= start + Seq::new((a + 1) as nat, |x: int| (i, x as usize)));
                    a = a + 1;
                }
                assert(r@ =~= start + Seq::new(
                    rules.subrange(0, i + 1).last().actions@.len(),
                    |x: int| ((rules.subrange(0, i + 1).len() - 1) as usize, x as usize),
                ));
            }
            i = i + 1;
        }
        assert(rules.subrange(0, rules.len() as int) == rules);
        r
    }

    /// The actions of every firing rule, in priority order.
    pub fn evaluate_composition_rules(&self) -> (r: Vec<CompositionAction>)
        ensures
            r@.len() == triggered_slots(self.composition_rules@, self.trust_graph.nodes@).len(),
            forall|k: int|
                0 <= k < r@.len() ==> {
                    let slot = triggered_slots(self.composition_rules@, self.trust_graph.nodes@)[k];
                    let a = self.composition_rules@[slot.0 as int].actions@[slot.1 as int];
                    (#[trigger] r@[k]).action_type == a.action_type && r@[k].target_components@
                        == a.target_components@ && r@[k].parameters@ == a.parameters@
                },
    {
        let slots = self.triggered_rule_actions();
        let mut r: Vec<CompositionAction> = Vec::new();
        let mut k: usize = 0;
        while k < slots.len()
            invariant
                slots@ == triggered_slots(self.composition_rules@, self.trust_graph.nodes@),
                forall|j: int|
                    0 <= j < slots@.len() ==> (#[trigger] slots@[j]).0 < self.composition_rules@.len()
                        && slots@[j].1 < self.composition_rules@[slots@[j].0 as int].actions@.len(),
                k <= slots@.len(),
                r@.len() == k,
                forall|j: int|
                    0 <= j < k ==> {
                        let a = self.composition_rules@[slots@[j].0 as int].actions@[slots@[j].1 as int];
                        (#[trigger] r@[j]).action_type == a.action_type && r@[j].target_components@
                            == a.target_components@ && r@[j].parameters@ == a.parameters@
                    },
            decreases slots@.len() - k,
        {
            let (i, a) = slots[k];
            let src = &self.composition_rules[i].actions[a];
            let targets = src.target_components.clone();
            proof {
                assert(targets@ =~= src.target_components@);
            }
            let parameters = copy_pairs(&src.parameters);
            r.push(CompositionAction {
                action_type: src.action_type,
                target_components: targets,
                parameters,
            });
            k = k + 1;
        }
        r
    }

}

} // verus!
