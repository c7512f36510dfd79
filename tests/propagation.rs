use trust_pipeline::composition::{CompositionEngine, PropagationModel};
use trust_pipeline::graph::{
    ComponentType, RelationshipType, SecurityPosture, TrustEdge, TrustGraph, TrustNode,
};
use trust_pipeline::propagation::{
    BayesianPropagationModel, MinimumTrustModel, WeightedAverageModel,
};
use trust_pipeline::score::SCALE;

fn node(id: &str, trust: u64) -> TrustNode {
    TrustNode {
        id: id.to_string(),
        trust_score: trust,
        component_type: ComponentType::Microservice,
        security_posture: SecurityPosture {
            vulnerability_score: 100_000,
            patch_status: 900_000,
            compliance_score: 800_000,
            encryption_status: 900_000,
            access_control_score: 800_000,
        },
        last_updated: 0,
        metadata: Vec::new(),
    }
}

fn edge(from: &str, to: &str, weight: u64) -> TrustEdge {
    TrustEdge {
        from: from.to_string(),
        to: to.to_string(),
        relationship_type: RelationshipType::DataFlow,
        trust_weight: weight,
        data_flow_volume: 1_000_000_000,
        criticality: 800_000,
    }
}

fn value(r: &[(String, u64)], id: &str) -> Option<u64> {
    r.iter().find(|(k, _)| k == id).map(|(_, v)| *v)
}

fn chain() -> TrustGraph {
    let mut g = TrustGraph::new();
    g.add_node(node("A", 900_000));
    g.add_node(node("B", 800_000));
    g.add_node(node("C", 700_000));
    g.add_edge(edge("A", "B", 500_000));
    g.add_edge(edge("B", "C", 400_000));
    g
}

#[test]
fn test_composition_engine() {
    let mut engine = CompositionEngine::new();
    engine.add_component(node("service1", 800_000));
    let _edge = edge("service1", "database1", 900_000);
    let weighted_model = WeightedAverageModel { name: "weighted_average".to_string() };
    engine.add_propagation_model("weighted".to_string(), PropagationModel::WeightedAverage(weighted_model));
    let system_trust = engine.calculate_system_trust(&vec!["service1".to_string()]);
    assert!(system_trust.overall_trust <= SCALE);
}

#[test]
fn isolated_source_alone_under_every_model() {
    let mut g = chain();
    g.add_edge(edge("B", "D", 300_000));
    let models = vec![
        PropagationModel::WeightedAverage(WeightedAverageModel { name: "w".to_string() }),
        PropagationModel::MinimumTrust(MinimumTrustModel { name: "m".to_string() }),
        PropagationModel::Bayesian(BayesianPropagationModel {
            name: "b".to_string(),
            conditional_probabilities: Vec::new(),
        }),
    ];
    for m in &models {
        let r = m.propagate_trust(&g, "C");
        assert_eq!(r, vec![("C".to_string(), SCALE)]);
        let r = m.propagate_trust(&g, "unknown");
        assert_eq!(r, vec![("unknown".to_string(), SCALE)]);
    }
}

#[test]
fn weighted_and_minimum_values_stay_within_unit() {
    let mut g = chain();
    g.add_edge(edge("C", "A", 1_000_000));
    g.add_edge(edge("A", "C", 0));
    g.add_edge(edge("B", "D", 999_999));
    let w = WeightedAverageModel { name: "w".to_string() }.propagate_trust(&g, "A");
    let m = MinimumTrustModel { name: "m".to_string() }.propagate_trust(&g, "A");
    assert_eq!(w.len(), 4);
    assert_eq!(m.len(), 4);
    for (_, v) in w.iter().chain(m.iter()) {
        assert!(*v <= SCALE);
    }
}

#[test]
fn chain_weighted_average_scenario() {
    let g = chain();
    let r = WeightedAverageModel { name: "w".to_string() }.propagate_trust(&g, "A");
    assert_eq!(value(&r, "A"), Some(1_000_000));
    assert_eq!(value(&r, "B"), Some(500_000));
    assert_eq!(value(&r, "C"), Some(200_000));
    assert_eq!(r.len(), 3);
}

#[test]
fn chain_scenario_flags_weak_link() {
    let mut engine = CompositionEngine::new();
    engine.add_component(node("A", 900_000));
    engine.add_component(node("B", 800_000));
    engine.add_component(node("C", 700_000));
    engine.add_relationship(edge("A", "B", 500_000));
    engine.add_relationship(edge("B", "C", 400_000));
    engine.add_propagation_model(
        "weighted".to_string(),
        PropagationModel::WeightedAverage(WeightedAverageModel { name: "weighted_average".to_string() }),
    );
    let s = engine.calculate_system_trust(&vec!["A".to_string()]);
    assert_eq!(value(&s.component_scores, "A"), Some(1_000_000));
    assert_eq!(value(&s.component_scores, "B"), Some(500_000));
    assert_eq!(value(&s.component_scores, "C"), Some(200_000));
    assert_eq!(s.overall_trust, 566_666);
    assert_eq!(s.weak_links.len(), 1);
    assert_eq!(s.weak_links[0].component_id, "C");
    assert_eq!(s.weak_links[0].trust_score, 200_000);
    assert_eq!(s.weak_links[0].impact_assessment.affected_components, vec!["C".to_string()]);
    assert_eq!(s.weak_links[0].impact_assessment.severity, 500_000);
    assert_eq!(
        s.weak_links[0].mitigation_suggestions,
        vec!["Enhanced monitoring required".to_string(), "Security patch deployment".to_string()]
    );
    assert!(s.critical_paths.is_empty());
}

#[test]
fn first_visit_keeps_first_path() {
    let mut g = TrustGraph::new();
    g.add_edge(edge("S", "X", 100_000));
    g.add_edge(edge("S", "Y", 1_000_000));
    g.add_edge(edge("Y", "X", 1_000_000));
    let r = WeightedAverageModel { name: "w".to_string() }.propagate_trust(&g, "S");
    assert_eq!(r, vec![
        ("S".to_string(), 1_000_000),
        ("X".to_string(), 100_000),
        ("Y".to_string(), 1_000_000),
    ]);
}

#[test]
fn minimum_model_lowers_on_a_later_path() {
    let mut g = TrustGraph::new();
    g.add_edge(edge("S", "X", 900_000));
    g.add_edge(edge("S", "Y", 300_000));
    g.add_edge(edge("Y", "X", 800_000));
    g.add_edge(edge("X", "Z", 700_000));
    let r = MinimumTrustModel { name: "m".to_string() }.propagate_trust(&g, "S");
    assert_eq!(value(&r, "S"), Some(1_000_000));
    assert_eq!(value(&r, "Y"), Some(300_000));
    assert_eq!(value(&r, "X"), Some(300_000));
    assert_eq!(value(&r, "Z"), Some(300_000));
    assert_eq!(r.len(), 4);
}

#[test]
fn minimum_model_terminates_on_cycles() {
    let mut g = TrustGraph::new();
    g.add_edge(edge("A", "B", 600_000));
    g.add_edge(edge("B", "A", 200_000));
    let r = MinimumTrustModel { name: "m".to_string() }.propagate_trust(&g, "A");
    assert_eq!(value(&r, "A"), Some(200_000));
    assert_eq!(value(&r, "B"), Some(200_000));
}

#[test]
fn bayesian_uses_table_and_default() {
    let mut g = TrustGraph::new();
    g.add_edge(edge("A", "B", 800_000));
    g.add_edge(edge("B", "C", 500_000));
    let model = BayesianPropagationModel {
        name: "b".to_string(),
        conditional_probabilities: vec![("A->B".to_string(), 900_000)],
    };
    let r = model.propagate_trust(&g, "A");
    assert_eq!(value(&r, "B"), Some(720_000));
    assert_eq!(value(&r, "C"), Some(180_000));
    assert_eq!(model.get_model_name(), "b");
}

#[test]
fn weights_above_one_amplify_without_overflow() {
    let mut g = TrustGraph::new();
    g.add_edge(edge("A", "B", u64::MAX));
    g.add_edge(edge("B", "C", u64::MAX));
    let r = WeightedAverageModel { name: "w".to_string() }.propagate_trust(&g, "A");
    assert_eq!(value(&r, "C"), Some(u64::MAX));
}

#[test]
fn averaging_over_models_and_roots() {
    let mut engine = CompositionEngine::new();
    engine.add_relationship(edge("A", "B", 400_000));
    engine.add_relationship(edge("B", "C", 500_000));
    engine.add_propagation_model(
        "weighted".to_string(),
        PropagationModel::WeightedAverage(WeightedAverageModel { name: "w".to_string() }),
    );
    engine.add_propagation_model(
        "minimum".to_string(),
        PropagationModel::MinimumTrust(MinimumTrustModel { name: "m".to_string() }),
    );
    let s = engine.calculate_system_trust(&vec!["A".to_string(), "B".to_string()]);
    // A: 1.0 twice; B: 0.4, 1.0, 0.4, 1.0; C: 0.2, 0.5, 0.4, 0.5
    assert_eq!(value(&s.component_scores, "A"), Some(1_000_000));
    assert_eq!(value(&s.component_scores, "B"), Some(700_000));
    assert_eq!(value(&s.component_scores, "C"), Some(400_000));
    assert_eq!(s.overall_trust, 700_000);
    assert!(s.weak_links.is_empty());
}

#[test]
fn empty_engine_reports_zero() {
    let engine = CompositionEngine::new();
    let s = engine.calculate_system_trust(&vec!["A".to_string()]);
    assert!(s.component_scores.is_empty());
    assert_eq!(s.overall_trust, 0);
    assert!(s.timestamp > 1_600_000_000_000);
}

#[test]
fn propagation_analysis_lists_each_model() {
    let mut engine = CompositionEngine::new();
    engine.add_relationship(edge("A", "B", 500_000));
    engine.add_propagation_model(
        "weighted".to_string(),
        PropagationModel::WeightedAverage(WeightedAverageModel { name: "w".to_string() }),
    );
    engine.add_propagation_model(
        "minimum".to_string(),
        PropagationModel::MinimumTrust(MinimumTrustModel { name: "m".to_string() }),
    );
    engine.add_propagation_model(
        "weighted".to_string(),
        PropagationModel::WeightedAverage(WeightedAverageModel { name: "w2".to_string() }),
    );
    let a = engine.get_propagation_analysis(&"A".to_string());
    assert_eq!(a.source_component, "A");
    assert_eq!(a.propagation_results.len(), 2);
    assert_eq!(a.propagation_results[0].0, "weighted");
    assert_eq!(engine.propagation_models[0].1.get_model_name(), "w2");
    assert_eq!(value(&a.propagation_results[1].1, "B"), Some(500_000));
}
