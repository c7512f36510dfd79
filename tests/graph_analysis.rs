use trust_pipeline::analysis::{
    assess_impact, get_mitigation_suggestions, identify_critical_paths, identify_weak_links,
};
use trust_pipeline::graph::{
    ComponentType, RelationshipType, SecurityPosture, TrustEdge, TrustGraph, TrustNode,
};

fn node(id: &str, trust: u64) -> TrustNode {
    TrustNode {
        id: id.to_string(),
        trust_score: trust,
        component_type: ComponentType::Database,
        security_posture: SecurityPosture {
            vulnerability_score: 0,
            patch_status: 0,
            compliance_score: 0,
            encryption_status: 0,
            access_control_score: 0,
        },
        last_updated: 0,
        metadata: vec![("zone".to_string(), "a".to_string())],
    }
}

fn edge(from: &str, to: &str, weight: u64) -> TrustEdge {
    TrustEdge {
        from: from.to_string(),
        to: to.to_string(),
        relationship_type: RelationshipType::Dependency,
        trust_weight: weight,
        data_flow_volume: 0,
        criticality: 0,
    }
}

#[test]
fn registering_same_id_twice_keeps_latest() {
    let mut g = TrustGraph::new();
    g.add_node(node("A", 900_000));
    g.add_node(node("B", 500_000));
    g.add_node(node("A", 100_000));
    assert_eq!(g.nodes.len(), 2);
    let a: Vec<&TrustNode> = g.nodes.iter().filter(|n| n.id == "A").collect();
    assert_eq!(a.len(), 1);
    assert_eq!(a[0].trust_score, 100_000);
    assert_eq!(g.get_node(&"A".to_string()).map(|n| n.trust_score), Some(100_000));
    assert!(g.get_node(&"Z".to_string()).is_none());
}

#[test]
fn edge_with_same_key_is_replaced() {
    let mut g = TrustGraph::new();
    g.add_edge(edge("A", "B", 100_000));
    g.add_edge(edge("A", "C", 200_000));
    g.add_edge(edge("A", "B", 300_000));
    assert_eq!(g.edges.len(), 2);
    assert_eq!(g.edges[0].trust_weight, 300_000);
    assert_eq!(g.dependencies(&"A".to_string()), vec!["B".to_string(), "C".to_string()]);
    assert!(g.dependencies(&"B".to_string()).is_empty());
}

#[test]
fn removing_a_node_drops_its_edges() {
    let mut g = TrustGraph::new();
    g.add_node(node("A", 1));
    g.add_node(node("B", 2));
    g.add_node(node("C", 3));
    g.add_edge(edge("A", "B", 1));
    g.add_edge(edge("B", "C", 1));
    g.add_edge(edge("C", "A", 1));
    g.add_edge(edge("A", "C", 1));
    g.remove_node(&"B".to_string());
    assert_eq!(g.nodes.len(), 2);
    assert!(g.nodes.iter().all(|n| n.id != "B"));
    assert_eq!(g.edges.len(), 2);
    assert!(g.edges.iter().all(|e| e.from != "B" && e.to != "B"));
    assert_eq!(g.find_edge(&"C".to_string(), &"A".to_string()).is_some(), true);
}

#[test]
fn three_cycle_is_reported_in_traversal_order() {
    let mut g = TrustGraph::new();
    g.add_edge(edge("A", "B", 1));
    g.add_edge(edge("B", "C", 1));
    g.add_edge(edge("C", "A", 1));
    let paths = identify_critical_paths(&g, &vec!["A".to_string()]);
    assert_eq!(paths.len(), 1);
    assert_eq!(paths[0].path, vec!["A".to_string(), "B".to_string(), "C".to_string()]);
    assert_eq!(paths[0].criticality, 1_000_000);
    assert_eq!(paths[0].description, "Circular dependency detected");
}

#[test]
fn acyclic_graph_has_no_critical_path() {
    let mut g = TrustGraph::new();
    g.add_edge(edge("A", "B", 1));
    g.add_edge(edge("A", "C", 1));
    g.add_edge(edge("B", "C", 1));
    let paths = identify_critical_paths(&g, &vec!["A".to_string(), "B".to_string()]);
    assert!(paths.is_empty());
}

#[test]
fn self_loop_is_a_cycle_of_one() {
    let mut g = TrustGraph::new();
    g.add_edge(edge("A", "A", 1));
    let paths = identify_critical_paths(&g, &vec!["A".to_string()]);
    assert_eq!(paths.len(), 1);
    assert_eq!(paths[0].path, vec!["A".to_string()]);
}

#[test]
fn weak_link_boundary_is_exclusive() {
    let g = TrustGraph::new();
    let scores = vec![
        ("low".to_string(), 250_000),
        ("above".to_string(), 310_000),
        ("edge".to_string(), 300_000),
        ("tiny".to_string(), 50_000),
    ];
    let weak = identify_weak_links(&g, &scores);
    assert_eq!(weak.len(), 2);
    assert_eq!(weak[0].component_id, "low");
    assert_eq!(weak[0].trust_score, 250_000);
    assert_eq!(weak[1].component_id, "tiny");
    assert_eq!(
        weak[1].mitigation_suggestions,
        vec!["Immediate isolation required".to_string(), "Emergency security review".to_string()]
    );
}

#[test]
fn mitigation_bands() {
    let id = "x".to_string();
    assert_eq!(get_mitigation_suggestions(&id, 99_999).len(), 2);
    assert_eq!(get_mitigation_suggestions(&id, 100_000)[0], "Enhanced monitoring required");
    assert_eq!(get_mitigation_suggestions(&id, 299_999)[1], "Security patch deployment");
    assert_eq!(
        get_mitigation_suggestions(&id, 300_000),
        vec!["Regular security assessment".to_string(), "Performance optimization".to_string()]
    );
    assert!(get_mitigation_suggestions(&id, 500_000).is_empty());
}

#[test]
fn impact_is_forward_closure() {
    let mut g = TrustGraph::new();
    g.add_edge(edge("W", "X", 1));
    g.add_edge(edge("X", "Y", 1));
    g.add_edge(edge("Y", "W", 1));
    g.add_edge(edge("V", "W", 1));
    let impact = assess_impact(&g, &"W".to_string());
    assert_eq!(impact.affected_components, vec!["W".to_string(), "X".to_string(), "Y".to_string()]);
    assert_eq!(impact.severity, 500_000);
    assert_eq!(impact.business_impact, "High");
}

#[test]
fn impact_over_ten_components_is_severe() {
    let mut g = TrustGraph::new();
    for i in 0..11 {
        g.add_edge(edge("hub", &format!("n{}", i), 1));
    }
    let impact = assess_impact(&g, &"hub".to_string());
    assert_eq!(impact.affected_components.len(), 12);
    assert_eq!(impact.severity, 1_000_000);
    let mut small = TrustGraph::new();
    for i in 0..9 {
        small.add_edge(edge("hub", &format!("n{}", i), 1));
    }
    assert_eq!(assess_impact(&small, &"hub".to_string()).severity, 500_000);
}

#[test]
fn snapshot_sees_the_whole_graph() {
    let mut g = TrustGraph::new();
    g.add_node(node("A", 1));
    g.add_edge(edge("A", "B", 2));
    let view = g.snapshot();
    assert_eq!(view.nodes.len(), 1);
    assert_eq!(view.edges[0].to, "B");
}
