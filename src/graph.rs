//! The trust graph: components (nodes) and weighted relationships (edges).
use vstd::prelude::*;

verus! {

/// The kind of a component in the system.
#[derive(Clone, Copy, Debug, PartialEq, Eq, Structural)]
pub enum ComponentType {
    Microservice,
    Database,
    API,
    LoadBalancer,
    MessageQueue,
    Cache,
    ExternalService,
    LegacySystem,
    EdgeDevice,
    Container,
}

/// The kind of a relationship between two components.
#[derive(Clone, Copy, Debug, PartialEq, Eq, Structural)]
pub enum RelationshipType {
    DataFlow,
    Dependency,
    Communication,
    Control,
    Monitoring,
    Backup,
    LoadBalancing,
}

/// Security sub-scores of a component, each in millionths.
#[derive(Clone, Copy, Debug, PartialEq, Eq, Structural)]
pub struct SecurityPosture {
    pub vulnerability_score: u64,
    pub patch_status: u64,
    pub compliance_score: u64,
    pub encryption_status: u64,
    pub access_control_score: u64,
}

/// A component of the system.
#[derive(Clone, Debug)]
pub struct TrustNode {
    pub id: String,
    /// Trust in millionths; conventionally at most one million, not clamped.
    pub trust_score: u64,
    pub component_type: ComponentType,
    pub security_posture: SecurityPosture,
    /// Milliseconds since the Unix epoch.
    pub last_updated: i64,
    pub metadata: Vec<(String, String)>,
}

/// A directed relationship `from -> to`; its weight attenuates propagated trust.
#[derive(Clone, Debug)]
pub struct TrustEdge {
    pub from: String,
    pub to: String,
    pub relationship_type: RelationshipType,
    /// Attenuation factor in millionths.
    pub trust_weight: u64,
    pub data_flow_volume: u64,
    pub criticality: u64,
}

/// Nodes keyed by id and edges keyed by `(from, to)`.
///
/// Edges may name components that were never registered: such edges are
/// tolerated and simply lead to components of unknown trust.
#[derive(Clone, Debug)]
pub struct TrustGraph {
    pub nodes: Vec<TrustNode>,
    pub edges: Vec<TrustEdge>,
}

/// Whether an edge runs `from -> to`.
pub open spec fn edge_links(e: TrustEdge, from: Seq<char>, to: Seq<char>) -> bool {
    e.from@ == from && e.to@ == to
}

/// The targets of the edges leaving `from`, in edge order.
pub open spec fn successor_seq(edges: Seq<TrustEdge>, from: Seq<char>) -> Seq<Seq<char>>
    decreases edges.len(),
{
    if edges.len() == 0 {
        Seq::empty()
    } else {
        let rest = successor_seq(edges.drop_last(), from);
        if edges.last().from@ == from {
            rest.push(edges.last().to@)
        } else {
            rest
        }
    }
}

/// Whether a node of this id is in `nodes`.
pub open spec fn has_id(nodes: Seq<TrustNode>, id: Seq<char>) -> bool {
    exists|i: int| 0 <= i < nodes.len() && nodes[i].id@ == id
}

/// No two nodes share an id.
pub open spec fn ids_unique(nodes: Seq<TrustNode>) -> bool {
    forall|i: int, j: int| 0 <= i < j < nodes.len() ==> nodes[i].id@ != nodes[j].id@
}

/// `nodes` after registering `node`: it replaces the node of the same id, if any.
pub open spec fn nodes_with(nodes: Seq<TrustNode>, node: TrustNode) -> Seq<TrustNode> {
    if has_id(nodes, node.id@) {
        let i = choose|i: int| 0 <= i < nodes.len() && nodes[i].id@ == node.id@;
        nodes.update(i, node)
    } else {
        nodes.push(node)
    }
}

/// Registering a node keeps ids unique, and the node then stands in the place of
/// any node of its id.
pub proof fn lemma_nodes_with(nodes: Seq<TrustNode>, node: TrustNode)
    requires
        ids_unique(nodes),
    ensures
        ids_unique(nodes_with(nodes, node)),
        nodes_with(nodes, node).contains(node),
        nodes_with(nodes, node).len() == nodes.len() + if has_id(nodes, node.id@) { 0int } else { 1int },
        forall|k: int|
            0 <= k < nodes.len() && nodes[k].id@ != node.id@ ==> nodes_with(nodes, node)[k] == nodes[k],
{
    let r = nodes_with(nodes, node);
    if has_id(nodes, node.id@) {
        let i = choose|i: int| 0 <= i < nodes.len() && nodes[i].id@ == node.id@;
        assert(r[i] == node);
    } else {
        assert(r[nodes.len() as int] == node);
    }
}

/// Registering two nodes of the same id, one after the other, leaves exactly one
/// node of that id: the later one, with its trust score. The number of nodes grows
/// by at most one.
pub proof fn lemma_register_same_id_twice(nodes: Seq<TrustNode>, first: TrustNode, second: TrustNode)
    requires
        ids_unique(nodes),
        first.id@ == second.id@,
    ensures
        ({
            let after = nodes_with(nodes_with(nodes, first), second);
            &&& ids_unique(after)
            &&& after.contains(second)
            &&& forall|k: int|
                0 <= k < after.len() && after[k].id@ == second.id@ ==> after[k] == second
                    && after[k].trust_score == second.trust_score
            &&& after.len() == nodes.len() + if has_id(nodes, first.id@) { 0int } else { 1int }
        }),
{
    lemma_nodes_with(nodes, first);
    let mid = nodes_with(nodes, first);
    lemma_nodes_with(mid, second);
    let after = nodes_with(mid, second);
    assert(has_id(mid, second.id@)) by {
        let k = choose|k: int| 0 <= k < mid.len() && mid[k] == first;
    }
    let i = choose|i: int| 0 <= i < after.len() && after[i] == second;
    assert forall|k: int| 0 <= k < after.len() && after[k].id@ == second.id@ implies after[k] == second by {
        if k != i {
            assert(after[k].id@ != after[i].id@);
        }
    }
}

impl TrustGraph {
    /// Node ids are unique and so are edge keys.
    pub open spec fn wf(&self) -> bool {
        &&& ids_unique(self.nodes@)
        &&& forall|i: int, j: int|
            0 <= i < j < self.edges@.len() ==> !edge_links(
                self.edges@[j],
                self.edges@[i].from@,
                self.edges@[i].to@,
            )
    }

    pub open spec fn has_node(&self, id: Seq<char>) -> bool {
        exists|i: int| 0 <= i < self.nodes@.len() && self.nodes@[i].id@ == id
    }

    pub open spec fn has_edge(&self, from: Seq<char>, to: Seq<char>) -> bool {
        exists|i: int| 0 <= i < self.edges@.len() && edge_links(self.edges@[i], from, to)
    }

    /// The nodes after registering `node`.
    pub open spec fn nodes_with(self, node: TrustNode) -> Seq<TrustNode> {
        nodes_with(self.nodes@, node)
    }

    /// An empty graph.
    pub fn new() -> (r: TrustGraph)
        ensures
            r.wf(),
            r.nodes@.len() == 0,
            r.edges@.len() == 0,
    {
        TrustGraph { nodes: Vec::new(), edges: Vec::new() }
    }

    /// A read-only view of the whole graph, for one traversal.
    pub fn snapshot(&self) -> (r: &TrustGraph)
        ensures
            *r == *self,
    {
        self
    }

    /// The position of the node with this id.
    pub fn find_node(&self, id: &String) -> (r: Option<usize>)
        ensures
            r matches Some(i) ==> i < self.nodes@.len() && self.nodes@[i as int].id@ == id@,
            r is None ==> !self.has_node(id@),
    {
        let mut i: usize = 0;
        while i < self.nodes.len()
            invariant
                i <= self.nodes@.len(),
                forall|k: int| 0 <= k < i ==> self.nodes@[k].id@ != id@,
            decreases self.nodes@.len() - i,
        {
            if self.nodes[i].id == *id {
                return Some(i);
            }
            i = i + 1;
        }
        None
    }

    /// The position of the edge `from -> to`.
    pub fn find_edge(&self, from: &String, to: &String) -> (r: Option<usize>)
        ensures
            r matches Some(i) ==> i < self.edges@.len() && edge_links(
                self.edges@[i as int],
                from@,
                to@,
            ),
            r is None ==> !self.has_edge(from@, to@),
    {
        let mut i: usize = 0;
        while i < self.edges.len()
            invariant
                i <= self.edges@.len(),
                forall|k: int| 0 <= k < i ==> !edge_links(self.edges@[k], from@, to@),
            decreases self.edges@.len() - i,
        {
            if self.edges[i].from == *from && self.edges[i].to == *to {
                return Some(i);
            }
            i = i + 1;
        }
        None
    }

    /// The node with this id.
    pub fn get_node(&self, id: &String) -> (r: Option<&TrustNode>)
        ensures
            r matches Some(n) ==> n.id@ == id@ && self.nodes@.contains(*n),
            r is None ==> !self.has_node(id@),
    {
        match self.find_node(id) {
            Some(i) => Some(&self.nodes[i]),
            None => None,
        }
    }

    /// Registers a component; a node with the same id is replaced.
    pub fn add_node(&mut self, node: TrustNode)
        requires
            old(self).wf(),
        ensures
            final(self).wf(),
            final(self).nodes@ == old(self).nodes_with(node),
            final(self).edges@ == old(self).edges@,
    {
        proof {
            lemma_nodes_with(self.nodes@, node);
        }
        match self.find_node(&node.id) {
            Some(i) => {
                self.nodes.set(i, node);
            },
            None => {
                self.nodes.push(node);
            },
        }
    }

    /// The edges after registering `edge`: it replaces the edge of the same key, if any.
    pub open spec fn edges_with(self, edge: TrustEdge) -> Seq<TrustEdge> {
        if self.has_edge(edge.from@, edge.to@) {
            let i = choose|i: int|
                0 <= i < self.edges@.len() && edge_links(self.edges@[i], edge.from@, edge.to@);
            self.edges@.update(i, edge)
        } else {
            self.edges@.push(edge)
        }
    }

    /// Registers a relationship; an edge with the same `(from, to)` is replaced.
    pub fn add_edge(&mut self, edge: TrustEdge)
        requires
            old(self).wf(),
        ensures
            final(self).wf(),
            final(self).edges@ == old(self).edges_with(edge),
            final(self).nodes@ == old(self).nodes@,
    {
        match self.find_edge(&edge.from, &edge.to) {
            Some(i) => {
                self.edges.set(i, edge);
            },
            None => {
                self.edges.push(edge);
            },
        }
    }

    /// The targets of the edges leaving `from`, in edge order.
    pub fn dependencies(&self, from: &String) -> (r: Vec<String>)
        ensures
            r@.map_values(|t: String| t@) == successor_seq(self.edges@, from@),
    {
        let mut r: Vec<String> = Vec::new();
        let mut i: usize = 0;
        while i < self.edges.len()
            invariant
                i <= self.edges@.len(),
                r@.map_values(|t: String| t@) == successor_seq(self.edges@.subrange(0, i as int), from@),
            decreases self.edges@.len() - i,
        {
            assert(self.edges@.subrange(0, i + 1).drop_last() == self.edges@.subrange(0, i as int));
            if self.edges[i].from == *from {
                let t = self.edges[i].to.clone();
                r.push(t);
                assert(r@.map_values(|t: String| t@) =~= successor_seq(
                    self.edges@.subrange(0, i + 1),
                    from@,
                ));
            }
            i = i + 1;
        }
        assert(self.edges@.subrange(0, self.edges@.len() as int) == self.edges@);
        r
    }

    /// Removes a component and every edge that names it.
    pub fn remove_node(&mut self, id: &String)
        requires
            old(self).wf(),
        ensures
            final(self).wf(),
            forall|n: TrustNode|
                final(self).nodes@.contains(n) <==> (old(self).nodes@.contains(n) && n.id@ != id@),
            forall|e: TrustEdge|
                final(self).edges@.contains(e) <==> (old(self).edges@.contains(e) && e.from@ != id@
                    && e.to@ != id@),
    {
        match self.find_node(id) {
            Some(i) => {
                let ghost before = self.nodes@;
                self.nodes.remove(i);
                assert forall|n: TrustNode|
                    self.nodes@.contains(n) <==> (before.contains(n) && n.id@ != id@) by {
                    if before.contains(n) && n.id@ != id@ {
                        let k = choose|k: int| 0 <= k < before.len() && before[k] == n;
                        if k < i {
                            assert(self.nodes@[k] == n);
                        } else {
                            assert(self.nodes@[k - 1] == n);
                        }
                    }
                    if self.nodes@.contains(n) {
                        let k = choose|k: int| 0 <= k < self.nodes@.len() && self.nodes@[k] == n;
                        if k < i {
                            assert(before[k] == n);
                        } else {
                            assert(before[k + 1] == n);
                        }
                    }
                }
            },
            None => {},
        }
        let ghost kept_nodes = self.nodes@;
        let ghost orig = self.edges@;
        let mut i: usize = 0;
        while i < self.edges.len()
            invariant
                i <= self.edges@.len(),
                self.nodes@ == kept_nodes,
                forall|a: int, b: int|
                    0 <= a < b < self.edges@.len() ==> !edge_links(
                        self.edges@[b],
                        self.edges@[a].from@,
                        self.edges@[a].to@,
                    ),
                forall|k: int|
                    0 <= k < i ==> self.edges@[k].from@ != id@ && self.edges@[k].to@ != id@,
                forall|e: TrustEdge| self.edges@.contains(e) ==> orig.contains(e),
                forall|e: TrustEdge|
                    orig.contains(e) && e.from@ != id@ && e.to@ != id@ ==> self.edges@.contains(e),
            decreases self.edges@.len() - i,
        {
            if self.edges[i].from == *id || self.edges[i].to == *id {
                let ghost before = self.edges@;
                self.edges.remove(i);
                assert forall|e: TrustEdge| self.edges@.contains(e) implies orig.contains(e) by {
                    let k = choose|k: int| 0 <= k < self.edges@.len() && self.edges@[k] == e;
                    if k < i {
                        assert(before[k] == e);
                    } else {
                        assert(before[k + 1] == e);
                    }
                }
                assert forall|e: TrustEdge|
                    orig.contains(e) && e.from@ != id@ && e.to@ != id@ implies self.edges@.contains(e) by {
                    let k = choose|k: int| 0 <= k < before.len() && before[k] == e;
                    assert(k != i);
                    if k < i {
                        assert(self.edges@[k] == e);
                    } else {
                        assert(self.edges@[k - 1] == e);
                    }
                }
            } else {
                i = i + 1;
            }
        }
    }
}

} // verus!
