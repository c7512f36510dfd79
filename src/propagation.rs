//! Propagation models: derive trust for every component reachable from a source.
//!
//! A result is a list of `(component id, derived trust)` pairs with unique ids;
//! the source comes first, seeded at full trust.
use vstd::prelude::*;
use vstd::set_lib::lemma_len_subset;
use crate::graph::{TrustEdge, TrustGraph};
use crate::keyed::{find_key, has_key, is_first_key, keys_unique, lookup, value_of};
use crate::score::{SCALE, attenuate, min_score, scaled_product};

verus! {

/// Conditional probability used for an edge missing from a Bayesian table (0.5).
pub const DEFAULT_CONDITIONAL_PROBABILITY: u64 = 500_000;

/// The keys of `r`, in order.
pub open spec fn key_seq(r: Seq<(String, u64)>) -> Seq<Seq<char>> {
    r.map_values(|p: (String, u64)| p.0@)
}

/// The source comes first, at full trust.
pub open spec fn seeded(r: Seq<(String, u64)>, source: Seq<char>) -> bool {
    r.len() >= 1 && r[0].0@ == source && r[0].1 == SCALE
}

/// Every edge leaving a key of `r` leads to a key of `r`.
pub open spec fn closed_under(r: Seq<(String, u64)>, edges: Seq<TrustEdge>) -> bool {
    forall|i: int, e: int|
        0 <= i < r.len() && 0 <= e < edges.len() && #[trigger] edges[e].from@ == #[trigger] r[i].0@
            ==> has_key(r, edges[e].to@)
}

/// No edge leaves `s`.
pub open spec fn no_edge_from(edges: Seq<TrustEdge>, s: Seq<char>) -> bool {
    forall|e: int| 0 <= e < edges.len() ==> edges[e].from@ != s
}

/// Every edge weight is at most 1.0.
pub open spec fn weights_at_most_one(edges: Seq<TrustEdge>) -> bool {
    forall|e: int| 0 <= e < edges.len() ==> edges[e].trust_weight <= SCALE
}

/// Every value of `r` is at most 1.0.
pub open spec fn values_at_most_one(r: Seq<(String, u64)>) -> bool {
    forall|i: int| 0 <= i < r.len() ==> r[i].1 <= SCALE
}

/// The key of the edge `from -> to` in a conditional-probability table.
pub open spec fn edge_key(from: Seq<char>, to: Seq<char>) -> Seq<char> {
    from + seq!['-', '>'] + to
}

/// The value of the first entry of key `k`, or the default probability.
pub open spec fn lookup_probability(t: Seq<(String, u64)>, k: Seq<char>) -> u64 {
    match value_of(t, k) {
        Some(p) => p,
        None => DEFAULT_CONDITIONAL_PROBABILITY,
    }
}

/// The trust that crosses edge `e` from a node of trust `value`: scaled by the
/// weight, and with a table also by the edge's conditional probability.
pub open spec fn first_visit_step(table: Option<Seq<(String, u64)>>, value: u64, e: TrustEdge) -> u64 {
    match table {
        None => scaled_product(value, e.trust_weight),
        Some(t) => scaled_product(
            scaled_product(value, e.trust_weight),
            lookup_probability(t, edge_key(e.from@, e.to@)),
        ),
    }
}

/// Each entry after the first was reached over an edge from an earlier entry,
/// and its value is the step over that edge.
pub open spec fn derived_first_visit(
    r: Seq<(String, u64)>,
    edges: Seq<TrustEdge>,
    table: Option<Seq<(String, u64)>>,
) -> bool {
    forall|i: int|
        #![trigger r[i]]
        0 < i < r.len() ==> exists|j: int, e: int|
            #![trigger r[j], edges[e]]
            0 <= j < i && 0 <= e < edges.len() && edges[e].from@ == r[j].0@ && edges[e].to@
                == r[i].0@ && r[i].1 == first_visit_step(table, r[j].1, edges[e])
}

/// Edge `e` from entry `j` reaches entry `i`, and neither an earlier entry nor an
/// earlier edge from entry `j` reaches it: entry `j` is where a breadth-first
/// traversal first met entry `i`.
pub open spec fn first_parent(r: Seq<(String, u64)>, edges: Seq<TrustEdge>, i: int, j: int, e: int) -> bool {
    &&& 0 <= j < i < r.len()
    &&& 0 <= e < edges.len()
    &&& edges[e].from@ == r[j].0@
    &&& edges[e].to@ == r[i].0@
    &&& forall|j2: int, e2: int|
        #![trigger r[j2], edges[e2]]
        0 <= j2 < j && 0 <= e2 < edges.len() ==> !(edges[e2].from@ == r[j2].0@ && edges[e2].to@ == r[i].0@)
    &&& forall|e2: int| 0 <= e2 < e ==> !(#[trigger] edges[e2].from@ == r[j].0@ && edges[e2].to@ == r[i].0@)
}

/// Entry `i` has a first parent, and its value is the step over that edge.
pub open spec fn parented(r: Seq<(String, u64)>, edges: Seq<TrustEdge>, table: Option<Seq<(String, u64)>>, i: int) -> bool {
    exists|j: int, e: int|
        #[trigger] first_parent(r, edges, i, j, e) && r[i].1 == first_visit_step(table, r[j].1, edges[e])
}

/// Every entry after the first takes its value over its first-parent edge, and
/// entries are listed in the order of their first parents (then of the edges).
pub open spec fn breadth_first(r: Seq<(String, u64)>, edges: Seq<TrustEdge>, table: Option<Seq<(String, u64)>>) -> bool {
    &&& forall|i: int| 0 < i < r.len() ==> #[trigger] parented(r, edges, table, i)
    &&& forall|i1: int, j1: int, e1: int, i2: int, j2: int, e2: int|
        #![trigger first_parent(r, edges, i1, j1, e1), first_parent(r, edges, i2, j2, e2)]
        i1 < i2 && first_parent(r, edges, i1, j1, e1) && first_parent(r, edges, i2, j2, e2) ==> j1 < j2 || (j1
            == j2 && e1 < e2)
}

/// What a first-visit traversal from `source` returns: the source first at full
/// trust, unique keys, closed under the edges, each later entry derived from an
/// earlier one.
pub open spec fn first_visit_result(
    edges: Seq<TrustEdge>,
    source: Seq<char>,
    table: Option<Seq<(String, u64)>>,
    r: Seq<(String, u64)>,
) -> bool {
    &&& seeded(r, source)
    &&& keys_unique(r)
    &&& closed_under(r, edges)
    &&& derived_first_visit(r, edges, table)
    &&& breadth_first(r, edges, table)
}

pub open spec fn table_view(table: Option<&Vec<(String, u64)>>) -> Option<Seq<(String, u64)>> {
    match table {
        Some(t) => Some(t@),
        None => None,
    }
}

/// Every value of the table is at most 1.0.
pub open spec fn table_at_most_one(table: Option<Seq<(String, u64)>>) -> bool {
    match table {
        Some(t) => values_at_most_one(t),
        None => true,
    }
}

/// A sequence without duplicates whose elements all occur in `t` is no longer than `t`.
pub proof fn lemma_unique_within<A>(keys: Seq<A>, t: Seq<A>)
    requires
        keys.no_duplicates(),
        forall|i: int| 0 <= i < keys.len() ==> t.contains(keys[i]),
    ensures
        keys.len() <= t.len(),
{
    keys.unique_seq_to_set();
    t.lemma_cardinality_of_set();
    assert(keys.to_set().subset_of(t.to_set()));
    lemma_len_subset(keys.to_set(), t.to_set());
}

/// The candidate keys of a traversal from `source`: the source and every edge target.
pub open spec fn reachable_candidates(edges: Seq<TrustEdge>, source: Seq<char>) -> Seq<Seq<char>> {
    seq![source] + edges.map_values(|e: TrustEdge| e.to@)
}

/// A list with unique keys, each the source or an edge target, has at most one
/// entry more than there are edges.
pub proof fn lemma_first_visit_bound(r: Seq<(String, u64)>, edges: Seq<TrustEdge>, source: Seq<char>)
    requires
        keys_unique(r),
        forall|i: int|
            0 <= i < r.len() ==> r[i].0@ == source || exists|e: int|
                0 <= e < edges.len() && edges[e].to@ == r[i].0@,
    ensures
        r.len() <= edges.len() + 1,
{
    let keys = key_seq(r);
    let t = reachable_candidates(edges, source);
    assert forall|i: int| 0 <= i < keys.len() implies t.contains(keys[i]) by {
        if r[i].0@ == source {
            assert(t[0] == keys[i]);
        } else {
            let e = choose|e: int| 0 <= e < edges.len() && edges[e].to@ == r[i].0@;
            assert(t[e + 1] == keys[i]);
        }
    }
    lemma_unique_within(keys, t);
}

/// `scaled_product(a, w)` does not exceed `a` when `w` is at most 1.0.
pub proof fn lemma_scaled_product_le(a: u64, w: u64)
    requires
        w <= SCALE,
    ensures
        scaled_product(a, w) <= a,
{
    assert((a as int) * (w as int) <= (a as int) * (SCALE as int)) by (nonlinear_arith)
        requires w <= SCALE;
    assert((a as int) * (w as int) / (SCALE as int) <= a as int) by (nonlinear_arith)
        requires (a as int) * (w as int) <= (a as int) * (SCALE as int), SCALE > 0;
}

/// A first-visit result from a source that no edge leaves holds the source alone.
pub proof fn lemma_first_visit_isolated(
    edges: Seq<TrustEdge>,
    source: Seq<char>,
    table: Option<Seq<(String, u64)>>,
    r: Seq<(String, u64)>,
)
    requires
        first_visit_result(edges, source, table, r),
        no_edge_from(edges, source),
    ensures
        r.len() == 1,
{
    if r.len() > 1 {
        assert(r[1] == r[1]);
        let (j, e) = choose|j: int, e: int|
            0 <= j < 1 && 0 <= e < edges.len() && edges[e].from@ == r[j].0@ && edges[e].to@
                == r[1].0@ && r[1].1 == first_visit_step(table, r[j].1, edges[e]);
        assert(edges[e].from@ == source);
    }
}

/// The conditional probability stored for `k`, or the default.
fn probability_for(t: &Vec<(String, u64)>, k: &String) -> (p: u64)
    ensures
        p == lookup_probability(t@, k@),
{
    match lookup(t, k) {
        Some(p) => p,
        None => DEFAULT_CONDITIONAL_PROBABILITY,
    }
}

/// The table key of the edge `from -> to`.
fn make_edge_key(from: &String, to: &String) -> (k: String)
    ensures
        k@ == edge_key(from@, to@),
{
    let mut k = from.clone();
    k.append("->");
    k.append(to.as_str());
    proof {
        reveal_strlit("->");
    }
    k
}

/// An entry has one first parent at most.
proof fn lemma_first_parent_unique(r: Seq<(String, u64)>, edges: Seq<TrustEdge>, i: int, j: int, e: int, j2: int, e2: int)
    requires
        first_parent(r, edges, i, j, e),
        first_parent(r, edges, i, j2, e2),
    ensures
        j == j2 && e == e2,
{
    if j < j2 {
        assert(!(edges[e].from@ == r[j].0@ && edges[e].to@ == r[i].0@));
    } else if j2 < j {
        assert(!(edges[e2].from@ == r[j2].0@ && edges[e2].to@ == r[i].0@));
    } else if e < e2 {
        assert(!(edges[e].from@ == r[j].0@ && edges[e].to@ == r[i].0@));
    } else if e2 < e {
        assert(!(edges[e2].from@ == r[j].0@ && edges[e2].to@ == r[i].0@));
    }
}

/// Every first parent found so far comes before position `(head, e)`.
pub open spec fn parents_before(r: Seq<(String, u64)>, edges: Seq<TrustEdge>, head: int, e: int) -> bool {
    forall|i: int, j: int, ee: int| #[trigger] first_parent(r, edges, i, j, ee) ==> j < head || (j == head && ee < e)
}

/// Appending an entry met first over edge `e` from entry `head` keeps the
/// breadth-first facts.
proof fn lemma_breadth_first_push(
    q: Seq<(String, u64)>,
    q2: Seq<(String, u64)>,
    edges: Seq<TrustEdge>,
    table: Option<Seq<(String, u64)>>,
    head: int,
    e: int,
)
    requires
        breadth_first(q, edges, table),
        parents_before(q, edges, head, e),
        0 <= head < q.len(),
        0 <= e < edges.len(),
        edges[e].from@ == q[head].0@,
        !has_key(q, edges[e].to@),
        forall|i: int, ee: int|
            0 <= i < head && 0 <= ee < edges.len() && #[trigger] edges[ee].from@ == #[trigger] q[i].0@
                ==> has_key(q, edges[ee].to@),
        forall|ee: int| 0 <= ee < e && edges[ee].from@ == q[head].0@ ==> has_key(q, #[trigger] edges[ee].to@),
        q2.len() == q.len() + 1,
        forall|x: int| 0 <= x < q.len() ==> q2[x] == q[x],
        q2[q.len() as int].0@ == edges[e].to@,
        q2[q.len() as int].1 == first_visit_step(table, q[head].1, edges[e]),
    ensures
        breadth_first(q2, edges, table),
        parents_before(q2, edges, head, e + 1),
{
    let n = q.len() as int;
    assert forall|i: int, j: int, ee: int| i < n implies first_parent(q2, edges, i, j, ee) == first_parent(q, edges, i, j, ee) by {
        if 0 <= j < i {
            assert(q2[i] == q[i] && q2[j] == q[j]);
            assert forall|j2: int| 0 <= j2 < j implies #[trigger] q2[j2] == q[j2] by {}
        }
    }
    assert(first_parent(q2, edges, n, head, e)) by {
        assert(q2[head] == q[head]);
        assert forall|j2: int, e2: int| #![trigger q2[j2], edges[e2]] 0 <= j2 < head && 0 <= e2 < edges.len() implies !(edges[e2].from@
            == q2[j2].0@ && edges[e2].to@ == q2[n].0@) by {
            assert(q2[j2] == q[j2]);
            if edges[e2].from@ == q[j2].0@ {
                assert(has_key(q, edges[e2].to@));
            }
        }
        assert forall|e2: int| 0 <= e2 < e implies !(#[trigger] edges[e2].from@ == q2[head].0@ && edges[e2].to@ == q2[n].0@) by {
            if edges[e2].from@ == q[head].0@ {
                assert(has_key(q, edges[e2].to@));
            }
        }
    }
    assert forall|i: int| 0 < i < q2.len() implies #[trigger] parented(q2, edges, table, i) by {
        if i < n {
            assert(parented(q, edges, table, i));
            let (j, ee) = choose|j: int, ee: int|
                #[trigger] first_parent(q, edges, i, j, ee) && q[i].1 == first_visit_step(table, q[j].1, edges[ee]);
            assert(first_parent(q2, edges, i, j, ee));
            assert(q2[i] == q[i] && q2[j] == q[j]);
        } else {
            assert(q2[head] == q[head]);
        }
    }
    assert forall|i1: int, j1: int, e1: int, i2: int, j2: int, e2: int|
        #![trigger first_parent(q2, edges, i1, j1, e1), first_parent(q2, edges, i2, j2, e2)]
        i1 < i2 && first_parent(q2, edges, i1, j1, e1) && first_parent(q2, edges, i2, j2, e2) implies j1 < j2 || (j1
            == j2 && e1 < e2) by {
        assert(first_parent(q, edges, i1, j1, e1));
        if i2 < n {
            assert(first_parent(q, edges, i2, j2, e2));
        } else {
            lemma_first_parent_unique(q2, edges, n, head, e, j2, e2);
        }
    }
    assert forall|i: int, j: int, ee: int| #[trigger] first_parent(q2, edges, i, j, ee) implies j < head || (j == head
        && ee < e + 1) by {
        if i < n {
            assert(first_parent(q, edges, i, j, ee));
        } else {
            lemma_first_parent_unique(q2, edges, n, head, e, j, ee);
        }
    }
}

/// The trust that crosses `e` from a node of trust `value`.
fn step_over(table: Option<&Vec<(String, u64)>>, value: u64, e: &TrustEdge) -> (r: u64)
    ensures
        r == first_visit_step(table_view(table), value, *e),
        weights_at_most_one(seq![*e]) && table_at_most_one(table_view(table)) ==> r <= value,
{
    let v = attenuate(value, e.trust_weight);
    match table {
        None => v,
        Some(t) => {
            let k = make_edge_key(&e.from, &e.to);
            let p = probability_for(t, &k);
            proof {
                if weights_at_most_one(seq![*e]) && table_at_most_one(table_view(table)) {
                    assert(seq![*e][0] == *e);
                    if exists|i: int| is_first_key(t@, k@, i) {
                        let c = choose|i: int| is_first_key(t@, k@, i);
                        assert(t@[c].1 <= SCALE);
                    }
                    lemma_scaled_product_le(v, p);
                }
            }
            attenuate(v, p)
        },
    }
}

/// Breadth-first traversal from `source`: each component keeps the value of the
/// first path that reaches it.
pub(crate) fn propagate_first_visit(g: &TrustGraph, source: &str, table: Option<&Vec<(String, u64)>>) -> (r: Vec<(String, u64)>)
    ensures
        first_visit_result(g.edges@, source@, table_view(table), r@),
        weights_at_most_one(g.edges@) && table_at_most_one(table_view(table)) ==> values_at_most_one(r@),
{
    let ghost edges = g.edges@;
    let ghost tv = table_view(table);
    let mut q: Vec<(String, u64)> = Vec::new();
    q.push((String::from_str(source), SCALE));
    let mut head: usize = 0;
    while head < q.len()
        invariant
            edges == g.edges@,
            tv == table_view(table),
            seeded(q@, source@),
            head <= q@.len(),
            q@.len() <= edges.len() + 1,
            keys_unique(q@),
            derived_first_visit(q@, edges, tv),
            breadth_first(q@, edges, tv),
            parents_before(q@, edges, head as int, 0),
            forall|i: int, e: int|
                0 <= i < head && 0 <= e < edges.len() && #[trigger] edges[e].from@ == #[trigger] q@[i].0@
                    ==> has_key(q@, edges[e].to@),
            weights_at_most_one(edges) && table_at_most_one(tv) ==> values_at_most_one(q@),
        decreases edges.len() + 1 - head,
    {
        let cur = q[head].0.clone();
        let cur_val = q[head].1;
        let mut e: usize = 0;
        while e < g.edges.len()
            invariant
                edges == g.edges@,
                tv == table_view(table),
                seeded(q@, source@),
                head < q@.len(),
                cur@ == q@[head as int].0@,
                cur_val == q@[head as int].1,
                e <= edges.len(),
                q@.len() <= edges.len() + 1,
                keys_unique(q@),
                derived_first_visit(q@, edges, tv),
                breadth_first(q@, edges, tv),
                parents_before(q@, edges, head as int, e as int),
                forall|i: int, ee: int|
                    0 <= i < head && 0 <= ee < edges.len() && #[trigger] edges[ee].from@ == #[trigger] q@[i].0@
                        ==> has_key(q@, edges[ee].to@),
                forall|ee: int| 0 <= ee < e && edges[ee].from@ == cur@ ==> has_key(q@, #[trigger] edges[ee].to@),
                weights_at_most_one(edges) && table_at_most_one(tv) ==> values_at_most_one(q@),
            decreases edges.len() - e,
        {
            if g.edges[e].from == cur {
                match find_key(&q, &g.edges[e].to) {
                    Some(_) => {},
                    None => {
                        let v = step_over(table, cur_val, &g.edges[e]);
                        let ghost before = q@;
                        q.push((g.edges[e].to.clone(), v));
                        proof {
                            lemma_breadth_first_push(before, q@, edges, tv, head as int, e as int);
                            let n = before.len() as int;
                            assert(q@[n].0@ == edges[e as int].to@);
                            assert forall|x: Seq<char>| has_key(before, x) implies has_key(q@, x) by {
                                let i = choose|i: int| 0 <= i < before.len() && before[i].0@ == x;
                                assert(q@[i] == before[i]);
                            }
                            assert(has_key(q@, edges[e as int].to@));
                            assert forall|i: int| #![trigger q@[i]] 0 < i < q@.len() implies exists|j: int, ee: int|
                                #![trigger q@[j], edges[ee]]
                                0 <= j < i && 0 <= ee < edges.len() && edges[ee].from@ == q@[j].0@
                                    && edges[ee].to@ == q@[i].0@ && q@[i].1 == first_visit_step(tv, q@[j].1, edges[ee]) by {
                                if i < n {
                                    assert(before[i] == q@[i]);
                                    let (j, ee) = choose|j: int, ee: int|
                                        0 <= j < i && 0 <= ee < edges.len() && edges[ee].from@ == before[j].0@
                                            && edges[ee].to@ == before[i].0@ && before[i].1
                                            == first_visit_step(tv, before[j].1, edges[ee]);
                                    assert(q@[j] == before[j]);
                                } else {
                                    assert(q@[head as int] == before[head as int]);
                                    assert(edges[e as int].from@ == q@[head as int].0@);
                                }
                            }
                            if weights_at_most_one(edges) && table_at_most_one(tv) {
                                assert(seq![edges[e as int]][0] == edges[e as int]);
                                assert(weights_at_most_one(seq![edges[e as int]]));
                            }
                            assert forall|i: int|
                                0 <= i < q@.len() implies q@[i].0@ == source@ || exists|ee: int|
                                    0 <= ee < edges.len() && edges[ee].to@ == q@[i].0@ by {
                                if i > 0 {
                                    assert(q@[i] == q@[i]);
                                }
                            }
                            lemma_first_visit_bound(q@, edges, source@);
                        }
                    },
                }
            }
            e = e + 1;
        }
        head = head + 1;
    }
    q
}

/// Breadth-first propagation that multiplies trust by each edge weight; the first
/// path to reach a component fixes its value.
pub struct WeightedAverageModel {
    pub name: String,
}

impl WeightedAverageModel {
    pub fn propagate_trust(&self, graph: &TrustGraph, source: &str) -> (r: Vec<(String, u64)>)
        ensures
            first_visit_result(graph.edges@, source@, None, r@),
            no_edge_from(graph.edges@, source@) ==> r@.len() == 1,
            weights_at_most_one(graph.edges@) ==> values_at_most_one(r@),
    {
        let r = propagate_first_visit(graph, source, None);
        proof {
            if no_edge_from(graph.edges@, source@) {
                lemma_first_visit_isolated(graph.edges@, source@, None, r@);
            }
        }
        r
    }

    pub fn get_model_name(&self) -> (r: String)
        ensures
            r@ == self.name@,
    {
        self.name.clone()
    }
}

/// Breadth-first propagation that multiplies trust by each edge weight and by the
/// edge's conditional probability, looked up under `"from->to"` (0.5 when absent).
pub struct BayesianPropagationModel {
    pub name: String,
    pub conditional_probabilities: Vec<(String, u64)>,
}

impl BayesianPropagationModel {
    pub fn propagate_trust(&self, graph: &TrustGraph, source: &str) -> (r: Vec<(String, u64)>)
        ensures
            first_visit_result(graph.edges@, source@, Some(self.conditional_probabilities@), r@),
            no_edge_from(graph.edges@, source@) ==> r@.len() == 1,
            weights_at_most_one(graph.edges@) && values_at_most_one(self.conditional_probabilities@)
                ==> values_at_most_one(r@),
    {
        let r = propagate_first_visit(graph, source, Some(&self.conditional_probabilities));
        proof {
            if no_edge_from(graph.edges@, source@) {
                lemma_first_visit_isolated(
                    graph.edges@,
                    source@,
                    Some(self.conditional_probabilities@),
                    r@,
                );
            }
        }
        r
    }

    pub fn get_model_name(&self) -> (r: String)
        ensures
            r@ == self.name@,
    {
        self.name.clone()
    }
}

/// The values a minimum-trust traversal can produce: full trust and each edge weight.
pub open spec fn candidate_values(edges: Seq<TrustEdge>) -> Seq<u64> {
    seq![SCALE] + edges.map_values(|e: TrustEdge| e.trust_weight)
}

/// The smaller of two values.
pub open spec fn min_of(a: u64, b: u64) -> u64 {
    if a <= b { a } else { b }
}

/// Every edge leaving entry `i` leads to an entry whose value is at most the
/// smaller of entry `i`'s value and the edge weight.
pub open spec fn settled_at(r: Seq<(String, u64)>, edges: Seq<TrustEdge>, i: int) -> bool {
    forall|e: int|
        0 <= e < edges.len() && #[trigger] edges[e].from@ == r[i].0@ ==> exists|k: int|
            0 <= k < r.len() && r[k].0@ == edges[e].to@ && r[k].1 <= min_of(r[i].1, edges[e].trust_weight)
}

/// Entry `k` was first reached over an edge from an earlier entry.
pub open spec fn discovered_from_earlier(r: Seq<(String, u64)>, edges: Seq<TrustEdge>, k: int) -> bool {
    exists|j: int, e: int|
        #![trigger r[j], edges[e]]
        0 <= j < k && 0 <= e < edges.len() && edges[e].from@ == r[j].0@ && edges[e].to@ == r[k].0@
}

/// Entry `k`'s value is at least what some edge into it carries from an entry.
pub open spec fn supported_at(r: Seq<(String, u64)>, edges: Seq<TrustEdge>, k: int) -> bool {
    exists|i: int, e: int|
        #![trigger r[i], edges[e]]
        0 <= i < r.len() && 0 <= e < edges.len() && edges[e].from@ == r[i].0@ && edges[e].to@
            == r[k].0@ && r[k].1 >= min_of(r[i].1, edges[e].trust_weight)
}

/// `w` lists edge positions forming a walk from `source` to `target`.
pub open spec fn is_walk(edges: Seq<TrustEdge>, source: Seq<char>, target: Seq<char>, w: Seq<int>) -> bool {
    &&& forall|t: int| 0 <= t < w.len() ==> 0 <= #[trigger] w[t] < edges.len()
    &&& w.len() == 0 ==> target == source
    &&& w.len() > 0 ==> edges[w[0]].from@ == source && edges[w.last()].to@ == target
    &&& forall|t: int| 0 <= t < w.len() - 1 ==> #[trigger] edges[w[t]].to@ == edges[w[t + 1]].from@
}

/// The smallest of full trust and the weights along `w`.
pub open spec fn bottleneck(edges: Seq<TrustEdge>, w: Seq<int>) -> u64
    decreases w.len(),
{
    if w.len() == 0 {
        SCALE
    } else {
        min_of(bottleneck(edges, w.drop_last()), edges[w.last()].trust_weight)
    }
}

/// Entry `k`'s value is the bottleneck of some walk from `source` to it.
pub open spec fn walk_supported(r: Seq<(String, u64)>, edges: Seq<TrustEdge>, source: Seq<char>, k: int) -> bool {
    exists|w: Seq<int>| is_walk(edges, source, r[k].0@, w) && bottleneck(edges, w) == r[k].1
}

/// Each entry's value is the bottleneck of its witness walk from `source`.
pub open spec fn walks_ok(r: Seq<(String, u64)>, edges: Seq<TrustEdge>, source: Seq<char>, walks: Seq<Seq<int>>) -> bool {
    &&& walks.len() == r.len()
    &&& forall|k: int|
        0 <= k < r.len() ==> is_walk(edges, source, r[k].0@, #[trigger] walks[k]) && bottleneck(edges, walks[k])
            == r[k].1
}

/// Extending a walk by one edge from its end.
proof fn lemma_walk_push(edges: Seq<TrustEdge>, source: Seq<char>, at: Seq<char>, w: Seq<int>, e: int)
    requires
        is_walk(edges, source, at, w),
        0 <= e < edges.len(),
        edges[e].from@ == at,
    ensures
        is_walk(edges, source, edges[e].to@, w.push(e)),
        bottleneck(edges, w.push(e)) == min_of(bottleneck(edges, w), edges[e].trust_weight),
{
    let w2 = w.push(e);
    assert(w2.drop_last() =~= w);
    assert forall|t: int| 0 <= t < w2.len() implies 0 <= #[trigger] w2[t] < edges.len() by {
        if t < w.len() {
            assert(w2[t] == w[t]);
        }
    }
    assert forall|t: int| 0 <= t < w2.len() - 1 implies #[trigger] edges[w2[t]].to@ == edges[w2[t + 1]].from@ by {
        assert(w2[t] == w[t]);
        if t < w.len() - 1 {
            assert(w2[t + 1] == w[t + 1]);
        }
    }
    if w.len() > 0 {
        assert(w2[0] == w[0]);
    }
}

/// What a minimum-trust traversal from `source` returns: unique keys, the source
/// first, closed under the edges, each later entry discovered from an earlier one,
/// and a fixed point of "take the minimum of the node's value and the edge weight":
/// no edge lowers any value further, each value (but the source's full trust)
/// is what some edge carries, and each value is the smallest weight (or 1.0)
/// along some walk from the source.
pub open spec fn minimum_trust_result(edges: Seq<TrustEdge>, source: Seq<char>, r: Seq<(String, u64)>) -> bool {
    &&& r.len() >= 1
    &&& r[0].0@ == source
    &&& keys_unique(r)
    &&& forall|k: int| 0 < k < r.len() ==> #[trigger] discovered_from_earlier(r, edges, k)
    &&& forall|i: int| 0 <= i < r.len() ==> #[trigger] settled_at(r, edges, i)
    &&& forall|k: int|
        0 <= k < r.len() ==> (k == 0 && r[k].1 == SCALE) || #[trigger] supported_at(r, edges, k)
    &&& forall|k: int| 0 <= k < r.len() ==> #[trigger] candidate_values(edges).contains(r[k].1)
    &&& values_at_most_one(r)
    &&& forall|k: int| 0 <= k < r.len() ==> #[trigger] walk_supported(r, edges, source, k)
}

/// The position of `v` in `vals`.
pub open spec fn val_index(vals: Seq<u64>, v: u64) -> int {
    choose|i: int| 0 <= i < vals.len() && vals[i] == v
}

/// Two pairs with a position below the same bound and a value index below
/// `w` get different codes unless they are equal.
proof fn lemma_code_injective(a: int, b: int, c: int, d: int, w: int)
    requires
        w > 0,
        0 <= a,
        0 <= c,
        0 <= b < w,
        0 <= d < w,
        a * w + b == c * w + d,
    ensures
        a == c,
        b == d,
{
    if a < c {
        assert(a * w + b < c * w + d) by (nonlinear_arith)
            requires a < c, 0 <= b < w, 0 <= d, w > 0;
    } else if a > c {
        assert(a * w + b > c * w + d) by (nonlinear_arith)
            requires a > c, 0 <= d < w, 0 <= b, w > 0;
    }
}

/// Distinct `(position, value)` pairs, with positions below `n` and values among
/// `vals`, number at most `n * vals.len()`.
proof fn lemma_pairs_bound(pairs: Seq<(usize, u64)>, n: int, vals: Seq<u64>)
    requires
        n >= 0,
        pairs.no_duplicates(),
        forall|k: int| 0 <= k < pairs.len() ==> (#[trigger] pairs[k]).0 < n && vals.contains(pairs[k].1),
    ensures
        pairs.len() <= n * vals.len(),
{
    let w = vals.len() as int;
    assert(n * w >= 0) by (nonlinear_arith)
        requires n >= 0, w >= 0;
    if pairs.len() > 0 {
        let codes = pairs.map_values(|p: (usize, u64)| (p.0 as int) * w + val_index(vals, p.1));
        let range = Seq::new((n * w) as nat, |i: int| i);
        assert forall|k: int| 0 <= k < pairs.len() implies 0 <= #[trigger] val_index(vals, pairs[k].1) < w
            && vals[val_index(vals, pairs[k].1)] == pairs[k].1 by {
            assert(vals.contains(pairs[k].1));
        }
        assert(vals.contains(pairs[0].1));
        assert(w > 0);
        assert forall|a: int, b: int| 0 <= a < codes.len() && 0 <= b < codes.len() && a != b implies codes[a] != codes[b] by {
            let ia = val_index(vals, pairs[a].1);
            let ib = val_index(vals, pairs[b].1);
            if codes[a] == codes[b] {
                lemma_code_injective(pairs[a].0 as int, ia, pairs[b].0 as int, ib, w);
                assert(pairs[a] == pairs[b]);
            }
        }
        assert forall|k: int| 0 <= k < codes.len() implies range.contains(codes[k]) by {
            let i = val_index(vals, pairs[k].1);
            let a = pairs[k].0 as int;
            assert(a * w + i < n * w) by (nonlinear_arith)
                requires 0 <= a < n, 0 <= i < w;
            assert(0 <= a * w + i) by (nonlinear_arith)
                requires 0 <= a, 0 <= i, w > 0;
            assert(range[codes[k]] == codes[k]);
        }
        lemma_unique_within(codes, range);
    }
}

/// Some queued entry at or after `head` is for position `i`.
pub open spec fn is_pending(pending: Seq<(usize, u64)>, head: int, i: int) -> bool {
    exists|p: int| head <= p < pending.len() && (#[trigger] pending[p]).0 == i
}

/// The invariant of the minimum-trust scores, apart from settling.
pub open spec fn min_scores_ok(r: Seq<(String, u64)>, edges: Seq<TrustEdge>, source: Seq<char>) -> bool {
    &&& r.len() >= 1
    &&& r[0].0@ == source
    &&& keys_unique(r)
    &&& forall|k: int| 0 < k < r.len() ==> #[trigger] discovered_from_earlier(r, edges, k)
    &&& forall|k: int|
        0 <= k < r.len() ==> (k == 0 && r[k].1 == SCALE) || #[trigger] supported_at(r, edges, k)
    &&& forall|k: int| 0 <= k < r.len() ==> #[trigger] candidate_values(edges).contains(r[k].1)
    &&& values_at_most_one(r)
    &&& r.len() <= edges.len() + 1
}

/// Queued pairs are distinct, name positions of `r`, carry candidate values, and
/// are never below the current value of their position.
pub open spec fn min_pending_ok(r: Seq<(String, u64)>, pending: Seq<(usize, u64)>, edges: Seq<TrustEdge>) -> bool {
    &&& pending.no_duplicates()
    &&& forall|p: int|
        0 <= p < pending.len() ==> (#[trigger] pending[p]).0 < r.len() && r[pending[p].0 as int].1
            <= pending[p].1 && candidate_values(edges).contains(pending[p].1)
}

/// After lowering position `j` of `r` to `v` over edge `e` from position `i`
/// (whose value is at most `cur`, with `v` the smaller of `cur` and the weight),
/// the scores invariant still holds, settled positions other than `j` stay
/// settled, and the queue invariant holds with `(j, v)` queued.
proof fn lemma_min_lower(
    r: Seq<(String, u64)>,
    r2: Seq<(String, u64)>,
    pending: Seq<(usize, u64)>,
    edges: Seq<TrustEdge>,
    source: Seq<char>,
    j: int,
    v: u64,
    i: int,
    e: int,
    cur: u64,
)
    requires
        min_scores_ok(r, edges, source),
        min_pending_ok(r, pending, edges),
        0 <= j < r.len(),
        0 <= i < r.len(),
        0 <= e < edges.len(),
        edges[e].from@ == r[i].0@,
        edges[e].to@ == r[j].0@,
        r[i].1 <= cur,
        cur <= SCALE,
        candidate_values(edges).contains(cur),
        v == min_of(cur, edges[e].trust_weight),
        v < r[j].1,
        r.len() <= usize::MAX,
        r2 == r.update(j, (r2[j].0, v)),
        r2[j].0@ == r[j].0@,
    ensures
        min_scores_ok(r2, edges, source),
        min_pending_ok(r2, pending.push((j as usize, v)), edges),
        forall|x: int| 0 <= x < r.len() && x != j && settled_at(r, edges, x) ==> settled_at(r2, edges, x),
        forall|x: int| 0 <= x < r.len() ==> r2[x].1 <= r[x].1,
{
    let vals = candidate_values(edges);
    assert(vals[e + 1] == edges[e].trust_weight);
    assert(vals.contains(v));
    assert forall|a: int, b: int| 0 <= a < b < r2.len() implies r2[a].0@ != r2[b].0@ by {
        assert(r2[a].0@ == r[a].0@ && r2[b].0@ == r[b].0@);
    }
    assert forall|k: int| 0 < k < r2.len() implies #[trigger] discovered_from_earlier(r2, edges, k) by {
        assert(discovered_from_earlier(r, edges, k));
        let (a, b) = choose|a: int, b: int|
            0 <= a < k && 0 <= b < edges.len() && edges[b].from@ == r[a].0@ && edges[b].to@ == r[k].0@;
        assert(r2[a].0@ == r[a].0@ && r2[k].0@ == r[k].0@);
    }
    assert forall|k: int| 0 <= k < r2.len() implies (k == 0 && r2[k].1 == SCALE) || #[trigger] supported_at(r2, edges, k) by {
        if k == j {
            assert(r2[i].0@ == r[i].0@);
            assert(r2[i].1 <= cur);
            assert(r2[k].1 >= min_of(r2[i].1, edges[e].trust_weight));
        } else if !(k == 0 && r[k].1 == SCALE) {
            assert(supported_at(r, edges, k));
            let (a, b) = choose|a: int, b: int|
                0 <= a < r.len() && 0 <= b < edges.len() && edges[b].from@ == r[a].0@ && edges[b].to@
                    == r[k].0@ && r[k].1 >= min_of(r[a].1, edges[b].trust_weight);
            assert(r2[a].0@ == r[a].0@ && r2[k] == r[k]);
            assert(r2[a].1 <= r[a].1);
        } else {
            assert(r2[k] == r[k]);
        }
    }
    assert forall|k: int| 0 <= k < r2.len() implies #[trigger] vals.contains(r2[k].1) by {
        if k != j {
            assert(r2[k] == r[k]);
            assert(vals.contains(r[k].1));
        }
    }
    let queued_after = pending.push((j as usize, v));
    assert(queued_after[pending.len() as int] == (j as usize, v));
    assert((j as usize) as int == j);
    assert forall|a: int, b: int| 0 <= a < queued_after.len() && 0 <= b < queued_after.len() && a != b implies queued_after[a] != queued_after[b] by {
        if a < pending.len() && b < pending.len() {
            assert(queued_after[a] == pending[a] && queued_after[b] == pending[b]);
        } else if a < pending.len() {
            assert(queued_after[a] == pending[a]);
            if pending[a].0 == j {
                assert(r[j].1 <= pending[a].1);
            }
        } else {
            assert(queued_after[b] == pending[b]);
            if pending[b].0 == j {
                assert(r[j].1 <= pending[b].1);
            }
        }
    }
    assert forall|p: int| 0 <= p < queued_after.len() implies (#[trigger] queued_after[p]).0 < r2.len() && r2[queued_after[p].0 as int].1
        <= queued_after[p].1 && vals.contains(queued_after[p].1) by {
        if p < pending.len() {
            assert(queued_after[p] == pending[p]);
        }
    }
    assert forall|x: int| 0 <= x < r.len() && x != j && settled_at(r, edges, x) implies settled_at(r2, edges, x) by {
        assert forall|b: int| 0 <= b < edges.len() && #[trigger] edges[b].from@ == r2[x].0@ implies exists|k: int|
            0 <= k < r2.len() && r2[k].0@ == edges[b].to@ && r2[k].1 <= min_of(r2[x].1, edges[b].trust_weight) by {
            assert(r2[x] == r[x]);
            let k = choose|k: int|
                0 <= k < r.len() && r[k].0@ == edges[b].to@ && r[k].1 <= min_of(r[x].1, edges[b].trust_weight);
            assert(r2[k].0@ == r[k].0@);
        }
    }
}

/// After appending a new position for the target of edge `e` from position `i`,
/// with value `v`, the scores invariant still holds, settled positions stay
/// settled, and the queue invariant holds with the new position queued.
proof fn lemma_min_append(
    r: Seq<(String, u64)>,
    r2: Seq<(String, u64)>,
    pending: Seq<(usize, u64)>,
    edges: Seq<TrustEdge>,
    source: Seq<char>,
    v: u64,
    i: int,
    e: int,
    cur: u64,
)
    requires
        min_scores_ok(r, edges, source),
        min_pending_ok(r, pending, edges),
        0 <= i < r.len(),
        0 <= e < edges.len(),
        edges[e].from@ == r[i].0@,
        !has_key(r, edges[e].to@),
        r[i].1 <= cur,
        cur <= SCALE,
        candidate_values(edges).contains(cur),
        v == min_of(cur, edges[e].trust_weight),
        r.len() <= usize::MAX,
        r2 == r.push((r2[r.len() as int].0, v)),
        r2[r.len() as int].0@ == edges[e].to@,
    ensures
        min_scores_ok(r2, edges, source),
        min_pending_ok(r2, pending.push((r.len() as usize, v)), edges),
        forall|x: int| 0 <= x < r.len() && settled_at(r, edges, x) ==> settled_at(r2, edges, x),
        forall|x: int| 0 <= x < r.len() ==> r2[x] == r[x],
{
    let vals = candidate_values(edges);
    let n = r.len() as int;
    assert(vals[e + 1] == edges[e].trust_weight);
    assert(vals.contains(v));
    assert forall|x: int| 0 <= x < n implies r2[x] == r[x] by {}
    assert forall|a: int, b: int| 0 <= a < b < r2.len() implies r2[a].0@ != r2[b].0@ by {
        if b == n {
            assert(r2[a] == r[a]);
        } else {
            assert(r2[a] == r[a] && r2[b] == r[b]);
        }
    }
    assert forall|k: int| 0 < k < r2.len() implies #[trigger] discovered_from_earlier(r2, edges, k) by {
        if k == n {
            assert(r2[i] == r[i]);
        } else {
            assert(discovered_from_earlier(r, edges, k));
            let (a, b) = choose|a: int, b: int|
                0 <= a < k && 0 <= b < edges.len() && edges[b].from@ == r[a].0@ && edges[b].to@ == r[k].0@;
            assert(r2[a] == r[a] && r2[k] == r[k]);
        }
    }
    assert forall|k: int| 0 <= k < r2.len() implies (k == 0 && r2[k].1 == SCALE) || #[trigger] supported_at(r2, edges, k) by {
        if k == n {
            assert(r2[i] == r[i]);
        } else if !(k == 0 && r[k].1 == SCALE) {
            assert(supported_at(r, edges, k));
            let (a, b) = choose|a: int, b: int|
                0 <= a < r.len() && 0 <= b < edges.len() && edges[b].from@ == r[a].0@ && edges[b].to@
                    == r[k].0@ && r[k].1 >= min_of(r[a].1, edges[b].trust_weight);
            assert(r2[a] == r[a] && r2[k] == r[k]);
        } else {
            assert(r2[k] == r[k]);
        }
    }
    assert forall|k: int| 0 <= k < r2.len() implies #[trigger] vals.contains(r2[k].1) by {
        if k != n {
            assert(r2[k] == r[k]);
            assert(vals.contains(r[k].1));
        }
    }
    assert forall|k: int| 0 <= k < r2.len() implies r2[k].0@ == source || exists|b: int|
        0 <= b < edges.len() && edges[b].to@ == r2[k].0@ by {
        if k > 0 {
            assert(discovered_from_earlier(r2, edges, k));
        }
    }
    lemma_first_visit_bound(r2, edges, source);
    let queued_after = pending.push((n as usize, v));
    assert(queued_after[pending.len() as int] == (n as usize, v));
    assert((n as usize) as int == n);
    assert forall|a: int, b: int| 0 <= a < queued_after.len() && 0 <= b < queued_after.len() && a != b implies queued_after[a] != queued_after[b] by {
        if a < pending.len() && b < pending.len() {
            assert(queued_after[a] == pending[a] && queued_after[b] == pending[b]);
        } else if a < pending.len() {
            assert(queued_after[a] == pending[a]);
        } else {
            assert(queued_after[b] == pending[b]);
        }
    }
    assert forall|p: int| 0 <= p < queued_after.len() implies (#[trigger] queued_after[p]).0 < r2.len() && r2[queued_after[p].0 as int].1
        <= queued_after[p].1 && vals.contains(queued_after[p].1) by {
        if p < pending.len() {
            assert(queued_after[p] == pending[p]);
            assert(r2[pending[p].0 as int] == r[pending[p].0 as int]);
        }
    }
    assert forall|x: int| 0 <= x < r.len() && settled_at(r, edges, x) implies settled_at(r2, edges, x) by {
        assert forall|b: int| 0 <= b < edges.len() && #[trigger] edges[b].from@ == r2[x].0@ implies exists|k: int|
            0 <= k < r2.len() && r2[k].0@ == edges[b].to@ && r2[k].1 <= min_of(r2[x].1, edges[b].trust_weight) by {
            assert(r2[x] == r[x]);
            let k = choose|k: int|
                0 <= k < r.len() && r[k].0@ == edges[b].to@ && r[k].1 <= min_of(r[x].1, edges[b].trust_weight);
            assert(r2[k] == r[k]);
        }
    }
}

/// Worklist traversal: a component is queued again whenever a lower value reaches it.
fn propagate_minimum(g: &TrustGraph, source: &str) -> (r: Vec<(String, u64)>)
    ensures
        minimum_trust_result(g.edges@, source@, r@),
{
    let ghost edges = g.edges@;
    let ghost vals = candidate_values(edges);
    let ghost bound: int = ((edges.len() + 1) * vals.len()) as int;
    let mut scores: Vec<(String, u64)> = Vec::new();
    scores.push((String::from_str(source), SCALE));
    let mut pending: Vec<(usize, u64)> = Vec::new();
    pending.push((0, SCALE));
    let mut head: usize = 0;
    let ghost mut walks: Seq<Seq<int>> = seq![Seq::<int>::empty()];
    proof {
        assert(walks_ok(scores@, edges, source@, walks));
        assert(vals[0] == SCALE);
        assert(vals.contains(SCALE));
        assert(edges.len() + 1 >= 1);
        assert(bound >= 1) by (nonlinear_arith)
            requires bound == (edges.len() + 1) * vals.len(), vals.len() >= 1;
        assert(pending@.no_duplicates());
        assert(pending@[0].0 == 0);
        assert(is_pending(pending@, 0, 0));
    }
    while head < pending.len()
        invariant
            edges == g.edges@,
            vals == candidate_values(edges),
            bound == (edges.len() + 1) * vals.len(),
            min_scores_ok(scores@, edges, source@),
            min_pending_ok(scores@, pending@, edges),
            walks_ok(scores@, edges, source@, walks),
            head <= pending@.len(),
            pending@.len() <= bound,
            forall|i: int|
                0 <= i < scores@.len() ==> #[trigger] is_pending(pending@, head as int, i) || settled_at(
                    scores@,
                    edges,
                    i,
                ),
        decreases bound - head,
    {
        let idx = pending[head].0;
        let ghost old_head = head as int;
        head = head + 1;
        let cur = scores[idx].0.clone();
        let cur_val = scores[idx].1;
        let ghost cur_walk = walks[idx as int];
        proof {
            assert forall|i: int| 0 <= i < scores@.len() && i != idx implies #[trigger] is_pending(pending@, head as int, i)
                || settled_at(scores@, edges, i) by {
                if is_pending(pending@, old_head, i) {
                    let p = choose|p: int| old_head <= p < pending@.len() && pending@[p].0 == i;
                    assert(p != old_head);
                }
            }
        }
        let mut e: usize = 0;
        while e < g.edges.len()
            invariant
                edges == g.edges@,
                vals == candidate_values(edges),
                bound == (edges.len() + 1) * vals.len(),
                min_scores_ok(scores@, edges, source@),
                min_pending_ok(scores@, pending@, edges),
                walks_ok(scores@, edges, source@, walks),
                is_walk(edges, source@, cur@, cur_walk),
                bottleneck(edges, cur_walk) == cur_val,
                head <= pending@.len(),
                pending@.len() <= bound,
                idx < scores@.len(),
                cur@ == scores@[idx as int].0@,
                scores@[idx as int].1 <= cur_val,
                cur_val <= SCALE,
                vals.contains(cur_val),
                e <= edges.len(),
                forall|i: int|
                    0 <= i < scores@.len() && i != idx ==> #[trigger] is_pending(pending@, head as int, i)
                        || settled_at(scores@, edges, i),
                is_pending(pending@, head as int, idx as int) || (scores@[idx as int].1 == cur_val
                    && forall|ee: int|
                    0 <= ee < e && #[trigger] edges[ee].from@ == cur@ ==> exists|k: int|
                        0 <= k < scores@.len() && scores@[k].0@ == edges[ee].to@ && scores@[k].1
                            <= min_of(cur_val, edges[ee].trust_weight)),
            decreases edges.len() - e,
        {
            if g.edges[e].from == cur {
                let cand = min_score(cur_val, g.edges[e].trust_weight);
                let ghost r0 = scores@;
                let ghost queued_before = pending@;
                let cur_len = scores.len();
                match find_key(&scores, &g.edges[e].to) {
                    None => {
                        let n = scores.len();
                        scores.push((g.edges[e].to.clone(), cand));
                        pending.push((n, cand));
                        proof {
                            lemma_walk_push(edges, source@, cur@, cur_walk, e as int);
                            let w_old = walks;
                            walks = walks.push(cur_walk.push(e as int));
                            assert forall|k: int| 0 <= k < scores@.len() implies is_walk(edges, source@, scores@[k].0@, #[trigger] walks[k])
                                && bottleneck(edges, walks[k]) == scores@[k].1 by {
                                if k < n {
                                    assert(walks[k] == w_old[k]);
                                    assert(scores@[k] == r0[k]);
                                }
                            }
                            lemma_min_append(r0, scores@, queued_before, edges, source@, cand, idx as int, e as int, cur_val);
                            lemma_pairs_bound(pending@, (edges.len() + 1) as int, vals);
                            assert(scores@.len() <= edges.len() + 1);
                            assert(pending@.len() <= (edges.len() + 1) * vals.len()) by (nonlinear_arith)
                                requires pending@.len() <= ((edges.len() + 1) as int) * vals.len();
                            assert(pending@[queued_before.len() as int].0 == n);
                            assert(is_pending(pending@, head as int, n as int));
                            assert forall|i: int| 0 <= i < scores@.len() && i != idx implies #[trigger] is_pending(pending@, head as int, i)
                                || settled_at(scores@, edges, i) by {
                                if i < n && is_pending(queued_before, head as int, i) {
                                    let q = choose|q: int| head <= q < queued_before.len() && queued_before[q].0 == i;
                                    assert(pending@[q] == queued_before[q]);
                                }
                            }
                            if is_pending(queued_before, head as int, idx as int) {
                                let q = choose|q: int| head <= q < queued_before.len() && queued_before[q].0 == idx;
                                assert(pending@[q] == queued_before[q]);
                            } else {
                                assert forall|ee: int| 0 <= ee < e + 1 && #[trigger] edges[ee].from@ == cur@ implies exists|k: int|
                                    0 <= k < scores@.len() && scores@[k].0@ == edges[ee].to@ && scores@[k].1
                                        <= min_of(cur_val, edges[ee].trust_weight) by {
                                    if ee < e {
                                        let k = choose|k: int|
                                            0 <= k < r0.len() && r0[k].0@ == edges[ee].to@ && r0[k].1
                                                <= min_of(cur_val, edges[ee].trust_weight);
                                        assert(scores@[k] == r0[k]);
                                    } else {
                                        assert(scores@[n as int].0@ == edges[ee].to@);
                                    }
                                }
                            }
                        }
                    },
                    Some(j) => {
                        if cand < scores[j].1 {
                            let key = scores[j].0.clone();
                            scores.set(j, (key, cand));
                            pending.push((j, cand));
                            proof {
                                lemma_walk_push(edges, source@, cur@, cur_walk, e as int);
                                let w_old = walks;
                                walks = walks.update(j as int, cur_walk.push(e as int));
                                assert forall|k: int| 0 <= k < scores@.len() implies is_walk(edges, source@, scores@[k].0@, #[trigger] walks[k])
                                    && bottleneck(edges, walks[k]) == scores@[k].1 by {
                                    if k != j {
                                        assert(walks[k] == w_old[k]);
                                        assert(scores@[k] == r0[k]);
                                    }
                                }
                                assert(r0.len() == cur_len);
                                lemma_min_lower(r0, scores@, queued_before, edges, source@, j as int, cand, idx as int, e as int, cur_val);
                                lemma_pairs_bound(pending@, (edges.len() + 1) as int, vals);
                                assert(pending@.len() <= (edges.len() + 1) * vals.len()) by (nonlinear_arith)
                                    requires pending@.len() <= ((edges.len() + 1) as int) * vals.len();
                                assert(pending@[queued_before.len() as int].0 == j);
                                assert(is_pending(pending@, head as int, j as int));
                                assert forall|i: int| 0 <= i < scores@.len() && i != idx implies #[trigger] is_pending(pending@, head as int, i)
                                    || settled_at(scores@, edges, i) by {
                                    if i != j && is_pending(queued_before, head as int, i) {
                                        let q = choose|q: int| head <= q < queued_before.len() && queued_before[q].0 == i;
                                        assert(pending@[q] == queued_before[q]);
                                    }
                                }
                                if is_pending(queued_before, head as int, idx as int) {
                                    let q = choose|q: int| head <= q < queued_before.len() && queued_before[q].0 == idx;
                                    assert(pending@[q] == queued_before[q]);
                                } else if idx != j {
                                    assert forall|ee: int| 0 <= ee < e + 1 && #[trigger] edges[ee].from@ == cur@ implies exists|k: int|
                                        0 <= k < scores@.len() && scores@[k].0@ == edges[ee].to@ && scores@[k].1
                                            <= min_of(cur_val, edges[ee].trust_weight) by {
                                        if ee < e {
                                            let k = choose|k: int|
                                                0 <= k < r0.len() && r0[k].0@ == edges[ee].to@ && r0[k].1
                                                    <= min_of(cur_val, edges[ee].trust_weight);
                                            assert(scores@[k].0@ == r0[k].0@);
                                        } else {
                                            assert(scores@[j as int].0@ == edges[ee].to@);
                                        }
                                    }
                                }
                            }
                        } else {
                            proof {
                                if !is_pending(pending@, head as int, idx as int) {
                                    assert(scores@[j as int].0@ == edges[e as int].to@);
                                }
                            }
                        }
                    },
                }
            }
            e = e + 1;
        }
        proof {
            if !is_pending(pending@, head as int, idx as int) {
                assert(settled_at(scores@, edges, idx as int));
            }
        }
    }
    proof {
        assert forall|i: int| 0 <= i < scores@.len() implies #[trigger] settled_at(scores@, edges, i) by {
            if is_pending(pending@, head as int, i) {
                let q = choose|q: int| head <= q < pending@.len() && pending@[q].0 == i;
            }
        }
    }
    proof {
        assert forall|k: int| 0 <= k < scores@.len() implies #[trigger] walk_supported(scores@, edges, source@, k) by {
            assert(is_walk(edges, source@, scores@[k].0@, walks[k]));
        }
    }
    scores
}

/// Propagation that keeps, for each component, the minimum of the trust carried
/// to it: a component is revisited whenever a lower value reaches it.
pub struct MinimumTrustModel {
    pub name: String,
}

impl MinimumTrustModel {
    pub fn propagate_trust(&self, graph: &TrustGraph, source: &str) -> (r: Vec<(String, u64)>)
        ensures
            minimum_trust_result(graph.edges@, source@, r@),
            no_edge_from(graph.edges@, source@) ==> r@.len() == 1,
            values_at_most_one(r@),
    {
        let r = propagate_minimum(graph, source);
        proof {
            if no_edge_from(graph.edges@, source@) && r@.len() > 1 {
                assert(discovered_from_earlier(r@, graph.edges@, 1));
                let (j, e) = choose|j: int, e: int|
                    #![trigger r@[j], graph.edges@[e]]
                    0 <= j < 1 && 0 <= e < graph.edges@.len() && graph.edges@[e].from@ == r@[j].0@
                        && graph.edges@[e].to@ == r@[1].0@;
                assert(graph.edges@[e].from@ == source@);
            }
        }
        r
    }

    pub fn get_model_name(&self) -> (r: String)
        ensures
            r@ == self.name@,
    {
        self.name.clone()
    }
}

} // verus!
