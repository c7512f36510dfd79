use trust_pipeline::composition::{
    CompositionAction, CompositionActionType, CompositionCondition, CompositionEngine,
    CompositionRule, CompositionRuleType, SecurityCondition,
};
use trust_pipeline::graph::{ComponentType, SecurityPosture, TrustNode};
use trust_pipeline::incident::{
    ActionExecutor, ActionStatus, ActionType, ComparisonOperator, ConditionType,
    ConfigurationExecutor, IncidentResponseEngine, IncidentSeverity, IncidentStatus,
    IsolationExecutor, RecoveryPlan, ResponseAction, ResponseCondition, ResponsePolicy,
    ScalingExecutor, TrustContext, WorkflowExecutor, compare_values, evaluate_policy_conditions,
};

fn action(id: &str, t: ActionType, targets: &[&str]) -> ResponseAction {
    ResponseAction {
        action_id: id.to_string(),
        action_type: t,
        target_components: targets.iter().map(|s| s.to_string()).collect(),
        parameters: Vec::new(),
        timeout_secs: 30,
        retry_count: 3,
        dependencies: Vec::new(),
    }
}

fn condition(t: ConditionType, op: ComparisonOperator, threshold: u64) -> ResponseCondition {
    ResponseCondition {
        condition_type: t,
        metric_name: "trust_score".to_string(),
        operator: op,
        threshold,
        duration_secs: None,
    }
}

fn policy(id: &str, priority: u32, conditions: Vec<ResponseCondition>, actions: Vec<ResponseAction>) -> ResponsePolicy {
    ResponsePolicy {
        policy_id: id.to_string(),
        name: id.to_string(),
        conditions,
        actions,
        priority,
        enabled: true,
        escalation_chain: Vec::new(),
    }
}

fn context(component: &str, trust: u64) -> TrustContext {
    TrustContext {
        component_id: component.to_string(),
        trust_score: trust,
        security_events: Vec::new(),
        performance_metrics: Vec::new(),
        behavioral_anomalies: Vec::new(),
        failed_dependencies: Vec::new(),
        communication_failures: Vec::new(),
        timestamp: 0,
    }
}

fn isolation() -> ActionExecutor {
    ActionExecutor::Isolation(IsolationExecutor {
        name: "isolation".to_string(),
        kubernetes_client: Some("http://localhost:8080".to_string()),
    })
}

fn scaling() -> ActionExecutor {
    ActionExecutor::Scaling(ScalingExecutor { name: "scaling".to_string(), cloud_provider: "aws".to_string() })
}

#[test]
fn test_incident_response_engine() {
    let mut engine = IncidentResponseEngine::new();
    engine.add_action_executor("isolation".to_string(), isolation());
    engine.add_action_executor("scaling".to_string(), scaling());
    let p = ResponsePolicy {
        policy_id: "trust-score-critical".to_string(),
        name: "Critical Trust Score Response".to_string(),
        conditions: vec![condition(ConditionType::TrustScore, ComparisonOperator::LessThan, 200_000)],
        actions: vec![action("isolate-component", ActionType::IsolateComponent, &["test-component"])],
        priority: 1,
        enabled: true,
        escalation_chain: Vec::new(),
    };
    engine.add_response_policy(p);
    let ctx = context("test-component", 100_000);
    let actions = engine.process_trust_update(&"test-component".to_string(), 100_000, &ctx);
    assert!(actions.is_ok());
}

#[test]
fn critical_trust_opens_one_incident_with_isolation_record() {
    let mut engine = IncidentResponseEngine::new();
    engine.add_action_executor("isolation".to_string(), isolation());
    engine.add_response_policy(policy(
        "p",
        1,
        vec![condition(ConditionType::TrustScore, ComparisonOperator::LessThan, 200_000)],
        vec![action("isolate", ActionType::IsolateComponent, &["X"])],
    ));
    let lines = engine.process_trust_update(&"X".to_string(), 100_000, &context("X", 100_000)).unwrap();
    assert_eq!(lines, vec!["Action isolate executed successfully: Successfully isolated components: [X]".to_string()]);
    let incidents = engine.get_active_incidents();
    assert_eq!(incidents.len(), 1);
    assert_eq!(engine.active_incidents[0].0, "X");
    assert_eq!(incidents[0].status, IncidentStatus::Open);
    assert_eq!(incidents[0].incident_id.len(), 36);
    let inc = &engine.active_incidents[0].1;
    assert_eq!(inc.affected_components, vec!["X".to_string()]);
    assert_eq!(inc.actions_taken.len(), 1);
    assert_eq!(inc.actions_taken[0].action_type, ActionType::IsolateComponent);
    assert_eq!(inc.actions_taken[0].status, ActionStatus::Completed);
    assert_eq!(inc.actions_taken[0].action_id, "isolate");
    assert!(inc.actions_taken[0].executed_at > 1_600_000_000_000);

    // A healthy score dispatches nothing and leaves the incident as it was.
    let lines = engine.process_trust_update(&"X".to_string(), 500_000, &context("X", 500_000)).unwrap();
    assert!(lines.is_empty());
    assert_eq!(engine.active_incidents[0].1.actions_taken.len(), 1);

    // A second critical update appends to the same open incident.
    engine.process_trust_update(&"X".to_string(), 0, &context("X", 0)).unwrap();
    assert_eq!(engine.active_incidents.len(), 1);
    assert_eq!(engine.active_incidents[0].1.actions_taken.len(), 2);
}

#[test]
fn all_conditions_must_hold() {
    let mut engine = IncidentResponseEngine::new();
    engine.add_action_executor("isolation".to_string(), isolation());
    engine.add_action_executor("scaling".to_string(), scaling());
    engine.add_response_policy(policy(
        "both",
        1,
        vec![
            condition(ConditionType::TrustScore, ComparisonOperator::LessThan, 500_000),
            condition(ConditionType::DependencyFailure, ComparisonOperator::GreaterThan, 1_000_000),
        ],
        vec![
            action("iso", ActionType::IsolateComponent, &["svc"]),
            action("scale", ActionType::ScaleResources, &["svc"]),
        ],
    ));
    let mut ctx = context("svc", 100_000);
    ctx.failed_dependencies = vec!["db".to_string()];
    let lines = engine.process_trust_update(&"svc".to_string(), 100_000, &ctx).unwrap();
    assert!(lines.is_empty());
    assert!(engine.active_incidents.is_empty());

    ctx.failed_dependencies.push("cache".to_string());
    let lines = engine.process_trust_update(&"svc".to_string(), 100_000, &ctx).unwrap();
    assert_eq!(lines.len(), 2);
    assert!(lines[0].starts_with("Action iso executed successfully"));
    assert_eq!(lines[1], "Action scale executed successfully: Scaled resources by factor: 2.0");
    assert_eq!(engine.active_incidents.len(), 1);
    assert_eq!(engine.active_incidents[0].1.actions_taken.len(), 2);
}

#[test]
fn failing_executor_does_not_stop_siblings() {
    let mut engine = IncidentResponseEngine::new();
    // The executor registered for isolation cannot isolate.
    engine.add_action_executor("isolation".to_string(), scaling());
    engine.add_action_executor("scaling".to_string(), scaling());
    engine.add_response_policy(policy(
        "p",
        1,
        vec![condition(ConditionType::TrustScore, ComparisonOperator::LessThanOrEqual, 300_000)],
        vec![
            action("iso", ActionType::IsolateComponent, &[]),
            action("scale", ActionType::ScaleResources, &[]),
        ],
    ));
    let lines = engine.process_trust_update(&"svc".to_string(), 300_000, &context("svc", 300_000)).unwrap();
    assert_eq!(lines, vec![
        "Action iso failed: Invalid action type for scaling executor".to_string(),
        "Action scale executed successfully: Scaled resources by factor: 2.0".to_string(),
    ]);
    let inc = &engine.active_incidents[0].1;
    assert_eq!(engine.active_incidents[0].0, "svc");
    assert_eq!(inc.actions_taken.len(), 2);
    assert_eq!(inc.actions_taken[0].status, ActionStatus::Failed);
    assert_eq!(inc.actions_taken[0].result, "Invalid action type for scaling executor");
    assert_eq!(inc.actions_taken[1].status, ActionStatus::Completed);
}

#[test]
fn missing_executor_is_recorded_as_failed() {
    let mut engine = IncidentResponseEngine::new();
    engine.add_response_policy(policy(
        "p",
        1,
        Vec::new(),
        vec![action("notify", ActionType::SendNotification, &["a", "b"])],
    ));
    let lines = engine.process_trust_update(&"svc".to_string(), 900_000, &context("svc", 900_000)).unwrap();
    assert_eq!(lines, vec!["No executor found for action type: SendNotification".to_string()]);
    assert_eq!(engine.active_incidents.len(), 2);
    assert_eq!(engine.active_incidents[0].0, "a");
    assert_eq!(engine.active_incidents[1].0, "b");
    assert_eq!(engine.active_incidents[1].1.actions_taken[0].status, ActionStatus::Failed);
}

#[test]
fn unmapped_type_falls_back_to_first_executor() {
    let mut engine = IncidentResponseEngine::new();
    engine.add_action_executor(
        "workflow".to_string(),
        ActionExecutor::Workflow(WorkflowExecutor {
            name: "workflow".to_string(),
            workflow_engine_url: "http://wf".to_string(),
        }),
    );
    engine.add_response_policy(policy("p", 1, Vec::new(), vec![action("r", ActionType::RestartService, &[])]));
    let lines = engine.process_trust_update(&"svc".to_string(), 0, &context("svc", 0)).unwrap();
    assert_eq!(lines, vec!["Action r failed: Invalid action type for workflow executor".to_string()]);
}

#[test]
fn policies_run_in_priority_order_and_disabled_ones_skip() {
    let mut engine = IncidentResponseEngine::new();
    engine.add_action_executor("scaling".to_string(), scaling());
    engine.add_response_policy(policy("late", 5, Vec::new(), vec![action("late", ActionType::ScaleResources, &[])]));
    engine.add_response_policy(policy("early", 1, Vec::new(), vec![action("early", ActionType::ScaleResources, &[])]));
    engine.add_response_policy(policy("mid", 5, Vec::new(), vec![action("mid", ActionType::ScaleResources, &[])]));
    let mut off = policy("off", 0, Vec::new(), vec![action("off", ActionType::ScaleResources, &[])]);
    off.enabled = false;
    engine.add_response_policy(off);
    let ids: Vec<String> = engine.response_policies.iter().map(|p| p.policy_id.clone()).collect();
    assert_eq!(ids, vec!["off", "early", "late", "mid"]);
    let lines = engine.process_trust_update(&"svc".to_string(), 0, &context("svc", 0)).unwrap();
    assert_eq!(lines.len(), 3);
    assert!(lines[0].starts_with("Action early "));
    assert!(lines[1].starts_with("Action late "));
    assert!(lines[2].starts_with("Action mid "));
}

#[test]
fn context_conditions() {
    let mut engine = IncidentResponseEngine::new();
    let mut c = condition(ConditionType::PerformanceMetric, ComparisonOperator::GreaterThan, 800_000);
    c.metric_name = "latency".to_string();
    engine.add_response_policy(policy("perf", 1, vec![c], vec![action("a", ActionType::EnableMonitoring, &[])]));
    let mut ctx = context("svc", 0);
    let lines = engine.process_trust_update(&"svc".to_string(), 0, &ctx).unwrap();
    assert!(lines.is_empty());
    ctx.performance_metrics = vec![("latency".to_string(), 900_000)];
    let lines = engine.process_trust_update(&"svc".to_string(), 0, &ctx).unwrap();
    assert_eq!(lines.len(), 1);
}

#[test]
fn comparisons_use_a_tolerance_for_equality() {
    assert!(compare_values(500_000, ComparisonOperator::EqualTo, 500_999));
    assert!(!compare_values(500_000, ComparisonOperator::EqualTo, 501_000));
    assert!(compare_values(501_000, ComparisonOperator::NotEqualTo, 500_000));
    assert!(compare_values(2, ComparisonOperator::GreaterThanOrEqual, 2));
    assert!(!compare_values(2, ComparisonOperator::LessThan, 2));
    assert!(compare_values(1, ComparisonOperator::LessThanOrEqual, 2));
}

#[test]
fn executors_report_their_work() {
    let mut a = action("cfg", ActionType::UpdateConfiguration, &[]);
    a.parameters = vec![("config_key".to_string(), "tls".to_string())];
    let ex = ActionExecutor::Configuration(ConfigurationExecutor {
        name: "configuration".to_string(),
        config_manager_url: "http://cfg".to_string(),
    });
    let r = ex.execute(&a, 7).unwrap();
    assert!(r.success);
    assert_eq!(r.message, "Updated configuration: tls = enhanced");
    assert_eq!(r.timestamp, 7);
    assert_eq!(ex.execute(&action("x", ActionType::ScaleResources, &[]), 7).unwrap_err(), "Invalid action type for configuration executor");
    let iso = isolation().execute(&action("i", ActionType::IsolateComponent, &["a", "b"]), 1).unwrap();
    assert_eq!(iso.message, "Successfully isolated components: [a, b]");
    assert_eq!(iso.metrics[0], ("components_isolated".to_string(), 2_000_000));
    assert_eq!(isolation().get_executor_name(), "isolation");
    assert!(isolation().is_healthy());
}

#[test]
fn incidents_are_created_and_resolved() {
    let mut engine = IncidentResponseEngine::new();
    let id = engine.create_incident(&"db".to_string(), IncidentSeverity::Critical, &"disk".to_string());
    assert_eq!(id.len(), 36);
    let id2 = engine.create_incident(&"db".to_string(), IncidentSeverity::Low, &"again".to_string());
    assert_ne!(id, id2);
    assert_eq!(engine.active_incidents.len(), 1);
    assert_eq!(engine.active_incidents[0].1.incident_id, id2);
    assert_eq!(engine.active_incidents[0].1.title, "Trust Score Incident - db");
    assert_eq!(engine.resolve_incident(&id), Err(format!("Incident {} not found", id)));
    assert_eq!(engine.resolve_incident(&id2), Ok(()));
    assert_eq!(engine.active_incidents[0].1.status, IncidentStatus::Resolved);
    assert!(engine.active_incidents[0].1.resolved_at.is_some());
}

#[test]
fn resolved_incident_is_replaced_by_a_new_one() {
    let mut engine = IncidentResponseEngine::new();
    let id = engine.create_incident(&"X".to_string(), IncidentSeverity::High, &"d".to_string());
    engine.resolve_incident(&id).unwrap();
    engine.add_action_executor("isolation".to_string(), isolation());
    engine.add_response_policy(policy("p", 1, Vec::new(), vec![action("iso", ActionType::IsolateComponent, &["X"])]));
    engine.process_trust_update(&"X".to_string(), 0, &context("X", 0)).unwrap();
    let inc = &engine.active_incidents[0].1;
    assert_eq!(inc.status, IncidentStatus::Open);
    assert_ne!(inc.incident_id, id);
    assert_eq!(inc.actions_taken.len(), 1);
}

#[test]
fn recovery_needs_a_known_plan() {
    let mut engine = IncidentResponseEngine::new();
    assert_eq!(
        engine.start_recovery(&"db".to_string(), &"plan-1".to_string()),
        Err("Recovery plan plan-1 not found".to_string())
    );
    engine.recovery_coordinator.recovery_plans.push(RecoveryPlan {
        plan_id: "plan-1".to_string(),
        name: "restore".to_string(),
        target_components: vec!["db".to_string()],
        recovery_steps: Vec::new(),
        success_criteria: Vec::new(),
        timeout_secs: 60,
    });
    assert_eq!(engine.start_recovery(&"db".to_string(), &"plan-1".to_string()).unwrap().len(), 36);
}

fn plain_node(id: &str, trust: u64, vulnerability: u64) -> TrustNode {
    TrustNode {
        id: id.to_string(),
        trust_score: trust,
        component_type: ComponentType::Cache,
        security_posture: SecurityPosture {
            vulnerability_score: vulnerability,
            patch_status: 0,
            compliance_score: 0,
            encryption_status: 0,
            access_control_score: 0,
        },
        last_updated: 0,
        metadata: Vec::new(),
    }
}

fn rule(id: &str, priority: u32, condition: CompositionCondition, t: CompositionActionType) -> CompositionRule {
    CompositionRule {
        rule_id: id.to_string(),
        rule_type: CompositionRuleType::TrustThreshold,
        conditions: vec![condition],
        actions: vec![CompositionAction {
            action_type: t,
            target_components: vec![id.to_string()],
            parameters: Vec::new(),
        }],
        priority,
    }
}

#[test]
fn composition_rules_collect_every_match() {
    let mut engine = CompositionEngine::new();
    engine.add_component(plain_node("a", 650_000, 100_000));
    engine.add_component(plain_node("b", 900_000, 800_000));
    let trust_low = CompositionCondition {
        component_type: None,
        trust_threshold: Some(700_000),
        security_condition: None,
        performance_condition: None,
    };
    let vulnerable = CompositionCondition {
        component_type: None,
        trust_threshold: None,
        security_condition: Some(SecurityCondition {
            vulnerability_threshold: 900_000,
            patch_status_required: false,
            compliance_threshold: 0,
        }),
        performance_condition: None,
    };
    let very_low = CompositionCondition {
        component_type: None,
        trust_threshold: Some(600_000),
        security_condition: None,
        performance_condition: None,
    };
    engine.add_composition_rule(rule("second", 2, trust_low, CompositionActionType::TriggerAlert));
    engine.add_composition_rule(rule("never", 0, vulnerable, CompositionActionType::IsolateComponent));
    engine.add_composition_rule(rule("first", 1, trust_low, CompositionActionType::ReduceTrustWeight));
    engine.add_composition_rule(rule("low", 3, very_low, CompositionActionType::FailoverToBackup));
    let actions = engine.evaluate_composition_rules();
    assert_eq!(actions.len(), 2);
    assert_eq!(actions[0].action_type, CompositionActionType::ReduceTrustWeight);
    assert_eq!(actions[0].target_components, vec!["first".to_string()]);
    assert_eq!(actions[1].action_type, CompositionActionType::TriggerAlert);
}

#[test]
fn scaling_and_workflow_metrics() {
    let mut a = action("s", ActionType::ScaleResources, &[]);
    a.parameters = vec![("scale_factor".to_string(), "3.5".to_string())];
    let r = scaling().execute(&a, 0).unwrap();
    assert_eq!(r.message, "Scaled resources by factor: 3.5");
    assert_eq!(r.metrics, vec![("scale_factor".to_string(), 3_500_000), ("scaling_time".to_string(), 30_000_000)]);
    let r = scaling().execute(&action("s", ActionType::ScaleResources, &[]), 0).unwrap();
    assert_eq!(r.metrics[0], ("scale_factor".to_string(), 2_000_000));
    let wf = ActionExecutor::Workflow(WorkflowExecutor { name: "workflow".to_string(), workflow_engine_url: "u".to_string() });
    let r = wf.execute(&action("w", ActionType::TriggerWorkflow, &[]), 0).unwrap();
    assert_eq!(r.message, "Triggered workflow: security_response");
    assert_eq!(r.metrics, vec![("workflow_triggered".to_string(), 1_000_000), ("workflow_id".to_string(), 0)]);
}

#[test]
fn conditions_are_judged_apart_from_enabled() {
    let mut p = policy("p", 1, Vec::new(), vec![action("a", ActionType::ScaleResources, &[])]);
    p.enabled = false;
    assert!(evaluate_policy_conditions(&p, 0, &context("svc", 0)));
    p.conditions = vec![condition(ConditionType::TrustScore, ComparisonOperator::LessThan, 100)];
    assert!(!evaluate_policy_conditions(&p, 500, &context("svc", 500)));
    let mut engine = IncidentResponseEngine::new();
    p.conditions = Vec::new();
    engine.add_response_policy(p);
    assert!(engine.process_trust_update(&"svc".to_string(), 0, &context("svc", 0)).unwrap().is_empty());
}
