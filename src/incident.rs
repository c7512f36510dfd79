//! Response policies, action executors and incident bookkeeping.
use vstd::prelude::*;
use crate::clock::{new_identifier, now_millis};
use crate::keyed::{
    find_key, has_key, keys_unique, lemma_value_of_absent, lemma_value_of_at, lemma_value_of_frame,
    lookup, upsert, value_of,
};
use vstd::utf8::encode_utf8;
use crate::score::SCALE;
use crate::text::{fitting, fixed_point_value, parse_fixed_point};

verus! {

/// Two metric values closer than this count as equal (0.001).
pub const EQUALITY_TOLERANCE: u64 = 1_000;

#[derive(Clone, Copy, Debug, PartialEq, Eq, Structural)]
pub enum ConditionType {
    TrustScore,
    SecurityEvent,
    PerformanceMetric,
    BehavioralAnomaly,
    DependencyFailure,
    CommunicationFailure,
}

#[derive(Clone, Copy, Debug, PartialEq, Eq, Structural)]
pub enum ComparisonOperator {
    GreaterThan,
    LessThan,
    EqualTo,
    NotEqualTo,
    GreaterThanOrEqual,
    LessThanOrEqual,
}

#[derive(Clone, Copy, Debug, PartialEq, Eq, Structural)]
pub enum ActionType {
    IsolateComponent,
    ScaleResources,
    UpdateConfiguration,
    TriggerWorkflow,
    SendNotification,
    UpdateSecurityPolicy,
    FailoverToBackup,
    RestartService,
    UpdateFirewallRules,
    QuarantineData,
    EnableMonitoring,
    DisableAccess,
}

#[derive(Clone, Copy, Debug, PartialEq, Eq, Structural)]
pub enum IncidentSeverity {
    Low,
    Medium,
    High,
    Critical,
    Emergency,
}

#[derive(Clone, Copy, Debug, PartialEq, Eq, Structural)]
pub enum IncidentStatus {
    Open,
    Investigating,
    Mitigating,
    Resolved,
    Closed,
    Escalated,
}

#[derive(Clone, Copy, Debug, PartialEq, Eq, Structural)]
pub enum ActionStatus {
    Pending,
    InProgress,
    Completed,
    Failed,
    Cancelled,
}

#[derive(Clone, Copy, Debug, PartialEq, Eq, Structural)]
pub enum ChannelType {
    Email,
    Slack,
    Webhook,
    PagerDuty,
    SMS,
    Custom,
}

#[derive(Clone, Copy, Debug, PartialEq, Eq, Structural)]
pub enum RecoveryStatus {
    InProgress,
    Completed,
    Failed,
    Cancelled,
}

#[derive(Clone, Copy, Debug, PartialEq, Eq, Structural)]
pub enum HealthCheckType {
    HTTP,
    TCP,
    Custom,
    Database,
    MessageQueue,
}

/// `(metric, operator, threshold[, duration])`. The duration is kept but not
/// enforced: no time window is applied.
#[derive(Clone, Debug)]
pub struct ResponseCondition {
    pub condition_type: ConditionType,
    pub metric_name: String,
    pub operator: ComparisonOperator,
    /// In millionths; for the count conditions its whole part is the bound.
    pub threshold: u64,
    pub duration_secs: Option<u64>,
}

/// One remediation action. Timeout and retry count are kept but not enforced.
#[derive(Clone, Debug)]
pub struct ResponseAction {
    pub action_id: String,
    pub action_type: ActionType,
    pub target_components: Vec<String>,
    pub parameters: Vec<(String, String)>,
    pub timeout_secs: u64,
    pub retry_count: u32,
    pub dependencies: Vec<String>,
}

#[derive(Clone, Debug)]
pub struct EscalationStep {
    pub step_id: String,
    pub delay_secs: u64,
    pub actions: Vec<ResponseAction>,
    pub notification_channels: Vec<String>,
    pub approval_required: bool,
}

/// A prioritised rule: when every condition holds, all its actions are dispatched.
#[derive(Clone, Debug)]
pub struct ResponsePolicy {
    pub policy_id: String,
    pub name: String,
    pub conditions: Vec<ResponseCondition>,
    pub actions: Vec<ResponseAction>,
    /// Lower values are evaluated first.
    pub priority: u32,
    pub enabled: bool,
    pub escalation_chain: Vec<EscalationStep>,
}

#[derive(Clone, Debug)]
pub struct SecurityEvent {
    pub event_type: String,
    pub severity: u64,
    pub source: String,
    pub description: String,
    pub timestamp: i64,
}

#[derive(Clone, Debug)]
pub struct BehavioralAnomaly {
    pub anomaly_type: String,
    pub severity: u64,
    pub description: String,
    pub timestamp: i64,
}

/// What is known of a component when its trust changes.
#[derive(Clone, Debug)]
pub struct TrustContext {
    pub component_id: String,
    pub trust_score: u64,
    pub security_events: Vec<SecurityEvent>,
    pub performance_metrics: Vec<(String, u64)>,
    pub behavioral_anomalies: Vec<BehavioralAnomaly>,
    pub failed_dependencies: Vec<String>,
    pub communication_failures: Vec<String>,
    pub timestamp: i64,
}

/// `value op threshold`; equality allows a difference below the tolerance.
pub open spec fn compare_spec(value: u64, op: ComparisonOperator, threshold: u64) -> bool {
    let diff = if value >= threshold { value - threshold } else { threshold - value };
    match op {
        ComparisonOperator::GreaterThan => value > threshold,
        ComparisonOperator::LessThan => value < threshold,
        ComparisonOperator::EqualTo => diff < EQUALITY_TOLERANCE,
        ComparisonOperator::NotEqualTo => diff >= EQUALITY_TOLERANCE,
        ComparisonOperator::GreaterThanOrEqual => value >= threshold,
        ComparisonOperator::LessThanOrEqual => value <= threshold,
    }
}

/// Whether a count exceeds the whole part of a fixed-point threshold.
pub open spec fn count_exceeds(count: nat, threshold: u64) -> bool {
    count > threshold / SCALE
}

/// Whether one condition holds for this trust score and context.
pub open spec fn condition_holds(c: ResponseCondition, trust_score: u64, ctx: TrustContext) -> bool {
    match c.condition_type {
        ConditionType::TrustScore => compare_spec(trust_score, c.operator, c.threshold),
        ConditionType::SecurityEvent => exists|i: int|
            0 <= i < ctx.security_events@.len() && #[trigger] ctx.security_events@[i].severity
                > c.threshold,
        ConditionType::PerformanceMetric => match value_of(ctx.performance_metrics@, c.metric_name@) {
            Some(v) => compare_spec(v, c.operator, c.threshold),
            None => false,
        },
        ConditionType::BehavioralAnomaly => count_exceeds(ctx.behavioral_anomalies@.len(), c.threshold),
        ConditionType::DependencyFailure => count_exceeds(ctx.failed_dependencies@.len(), c.threshold),
        ConditionType::CommunicationFailure => count_exceeds(
            ctx.communication_failures@.len(),
            c.threshold,
        ),
    }
}

/// Every condition of the policy holds (the AND of its conditions; true when it has none).
pub open spec fn all_conditions_hold(p: ResponsePolicy, trust_score: u64, ctx: TrustContext) -> bool {
    forall|i: int|
        0 <= i < p.conditions@.len() ==> condition_holds(#[trigger] p.conditions@[i], trust_score, ctx)
}

/// A policy fires when it is enabled and all of its conditions hold.
pub open spec fn policy_fires(p: ResponsePolicy, trust_score: u64, ctx: TrustContext) -> bool {
    &&& p.enabled
    &&& all_conditions_hold(p, trust_score, ctx)
}

/// `(policy, action)` positions for every action of policy `i`, in order.
pub open spec fn action_slots(i: int, n: nat) -> Seq<(usize, usize)> {
    Seq::new(n, |a: int| (i as usize, a as usize))
}

/// The actions that an evaluation dispatches, as `(policy, action)` positions:
/// policies in order, each firing policy contributing all of its actions.
pub open spec fn planned_actions(policies: Seq<ResponsePolicy>, trust_score: u64, ctx: TrustContext) -> Seq<(usize, usize)>
    decreases policies.len(),
{
    if policies.len() == 0 {
        Seq::empty()
    } else {
        let before = planned_actions(policies.drop_last(), trust_score, ctx);
        if policy_fires(policies.last(), trust_score, ctx) {
            before + action_slots(policies.len() - 1, policies.last().actions@.len())
        } else {
            before
        }
    }
}

/// Evaluates `value op threshold`.
pub fn compare_values(value: u64, op: ComparisonOperator, threshold: u64) -> (r: bool)
    ensures
        r == compare_spec(value, op, threshold),
{
    let diff = if value >= threshold { value - threshold } else { threshold - value };
    match op {
        ComparisonOperator::GreaterThan => value > threshold,
        ComparisonOperator::LessThan => value < threshold,
        ComparisonOperator::EqualTo => diff < EQUALITY_TOLERANCE,
        ComparisonOperator::NotEqualTo => diff >= EQUALITY_TOLERANCE,
        ComparisonOperator::GreaterThanOrEqual => value >= threshold,
        ComparisonOperator::LessThanOrEqual => value <= threshold,
    }
}

/// Evaluates one condition against the trust score and context.
pub fn evaluate_condition(c: &ResponseCondition, trust_score: u64, ctx: &TrustContext) -> (r: bool)
    ensures
        r == condition_holds(*c, trust_score, *ctx),
{
    match c.condition_type {
        ConditionType::TrustScore => compare_values(trust_score, c.operator, c.threshold),
        ConditionType::SecurityEvent => {
            let mut i: usize = 0;
            while i < ctx.security_events.len()
                invariant
                    c.condition_type == ConditionType::SecurityEvent,
                    i <= ctx.security_events@.len(),
                    forall|j: int| 0 <= j < i ==> ctx.security_events@[j].severity <= c.threshold,
                decreases ctx.security_events@.len() - i,
            {
                if ctx.security_events[i].severity > c.threshold {
                    assert(ctx.security_events@[i as int].severity > c.threshold);
                    return true;
                }
                i = i + 1;
            }
            false
        },
        ConditionType::PerformanceMetric => match lookup(&ctx.performance_metrics, &c.metric_name) {
            Some(v) => compare_values(v, c.operator, c.threshold),
            None => false,
        },
        ConditionType::BehavioralAnomaly => (ctx.behavioral_anomalies.len() as u64) > c.threshold / SCALE,
        ConditionType::DependencyFailure => (ctx.failed_dependencies.len() as u64) > c.threshold / SCALE,
        ConditionType::CommunicationFailure => (ctx.communication_failures.len() as u64) > c.threshold
            / SCALE,
    }
}

/// Whether every condition of the policy holds; whether the policy is enabled
/// is not looked at here.
pub fn evaluate_policy_conditions(policy: &ResponsePolicy, trust_score: u64, ctx: &TrustContext) -> (r: bool)
    ensures
        r == all_conditions_hold(*policy, trust_score, *ctx),
{
    let mut i: usize = 0;
    while i < policy.conditions.len()
        invariant
            i <= policy.conditions@.len(),
            forall|j: int|
                0 <= j < i ==> condition_holds(#[trigger] policy.conditions@[j], trust_score, *ctx),
        decreases policy.conditions@.len() - i,
    {
        if !evaluate_condition(&policy.conditions[i], trust_score, ctx) {
            return false;
        }
        i = i + 1;
    }
    true
}

/// Isolates components.
pub struct IsolationExecutor {
    pub name: String,
    pub kubernetes_client: Option<String>,
}

/// Scales resources.
pub struct ScalingExecutor {
    pub name: String,
    pub cloud_provider: String,
}

/// Updates configuration.
pub struct ConfigurationExecutor {
    pub name: String,
    pub config_manager_url: String,
}

/// Triggers a workflow.
pub struct WorkflowExecutor {
    pub name: String,
    pub workflow_engine_url: String,
}

/// A registered handler for one kind of remediation action.
pub enum ActionExecutor {
    Isolation(IsolationExecutor),
    Scaling(ScalingExecutor),
    Configuration(ConfigurationExecutor),
    Workflow(WorkflowExecutor),
}

/// What an executor reports after running an action.
#[derive(Clone, Debug)]
pub struct ActionResult {
    pub success: bool,
    pub message: String,
    /// Named measurements, in millionths.
    pub metrics: Vec<(String, u64)>,
    /// Milliseconds since the Unix epoch.
    pub timestamp: i64,
}

/// The action type that an executor handles.
pub open spec fn handled_type(ex: ActionExecutor) -> ActionType {
    match ex {
        ActionExecutor::Isolation(_) => ActionType::IsolateComponent,
        ActionExecutor::Scaling(_) => ActionType::ScaleResources,
        ActionExecutor::Configuration(_) => ActionType::UpdateConfiguration,
        ActionExecutor::Workflow(_) => ActionType::TriggerWorkflow,
    }
}

/// `[a, b, c]`: the items separated by `", "`, without the brackets.
pub open spec fn joined(items: Seq<String>) -> Seq<char>
    decreases items.len(),
{
    if items.len() == 0 {
        Seq::empty()
    } else if items.len() == 1 {
        items[0]@
    } else {
        joined(items.drop_last()) + ", "@ + items.last()@
    }
}

/// The parameter's value, or `default` when the action does not set it.
pub open spec fn parameter_or(params: Seq<(String, String)>, key: Seq<char>, default: Seq<char>) -> Seq<char> {
    match value_of(params, key) {
        Some(v) => v@,
        None => default,
    }
}

/// The message of a successful run of `ex` on `a`.
pub open spec fn success_message(ex: ActionExecutor, a: ResponseAction) -> Seq<char> {
    match ex {
        ActionExecutor::Isolation(_) => "Successfully isolated components: ["@ + joined(
            a.target_components@,
        ) + "]"@,
        ActionExecutor::Scaling(_) => "Scaled resources by factor: "@ + parameter_or(
            a.parameters@,
            "scale_factor"@,
            "2.0"@,
        ),
        ActionExecutor::Configuration(_) => "Updated configuration: "@ + parameter_or(
            a.parameters@,
            "config_key"@,
            "security_policy"@,
        ) + " = "@ + parameter_or(a.parameters@, "config_value"@, "enhanced"@),
        ActionExecutor::Workflow(_) => "Triggered workflow: "@ + parameter_or(
            a.parameters@,
            "workflow_id"@,
            "security_response"@,
        ),
    }
}

/// A parameter read as a fixed-point decimal, or `default` when it is no decimal.
pub open spec fn number_or(text: Seq<char>, default: u64) -> u64 {
    match fitting(fixed_point_value(encode_utf8(text))) {
        Some(v) => v,
        None => default,
    }
}

/// The names and values (in millionths) that a successful run of `ex` on `a` reports.
pub open spec fn success_metrics(ex: ActionExecutor, a: ResponseAction) -> Seq<(Seq<char>, u64)> {
    match ex {
        ActionExecutor::Isolation(_) => {
            let n = a.target_components@.len();
            if n <= u64::MAX / SCALE {
                seq![("components_isolated"@, (n * SCALE) as u64), ("isolation_time"@, 2_500_000u64)]
            } else {
                seq![("isolation_time"@, 2_500_000u64)]
            }
        },
        ActionExecutor::Scaling(_) => seq![
            ("scale_factor"@, number_or(parameter_or(a.parameters@, "scale_factor"@, "2.0"@), 2_000_000)),
            ("scaling_time"@, 30_000_000u64),
        ],
        ActionExecutor::Configuration(_) => seq![("config_updated"@, SCALE), ("update_time"@, 5_000_000u64)],
        ActionExecutor::Workflow(_) => seq![
            ("workflow_triggered"@, SCALE),
            ("workflow_id"@, number_or(parameter_or(a.parameters@, "workflow_id"@, "security_response"@), 0)),
        ],
    }
}

/// The names and values of a list of metrics.
pub open spec fn metric_views(m: Seq<(String, u64)>) -> Seq<(Seq<char>, u64)> {
    m.map_values(|p: (String, u64)| (p.0@, p.1))
}

/// A text read as a fixed-point decimal, or `default`.
fn number_from(text: &String, default: u64) -> (r: u64)
    ensures
        r == number_or(text@, default),
{
    match parse_fixed_point(text.as_str()) {
        Some(v) => v,
        None => default,
    }
}

/// The error of `ex` on an action of a type it does not handle.
pub open spec fn rejection_message(ex: ActionExecutor) -> Seq<char> {
    match ex {
        ActionExecutor::Isolation(_) => "Invalid action type for isolation executor"@,
        ActionExecutor::Scaling(_) => "Invalid action type for scaling executor"@,
        ActionExecutor::Configuration(_) => "Invalid action type for configuration executor"@,
        ActionExecutor::Workflow(_) => "Invalid action type for workflow executor"@,
    }
}

/// The items separated by `", "`.
fn join_items(items: &Vec<String>) -> (r: String)
    ensures
        r@ == joined(items@),
{
    let mut r = String::new();
    let mut i: usize = 0;
    while i < items.len()
        invariant
            i <= items@.len(),
            r@ == joined(items@.subrange(0, i as int)),
        decreases items@.len() - i,
    {
        assert(items@.subrange(0, i + 1).drop_last() == items@.subrange(0, i as int));
        if i > 0 {
            r.append(", ");
        }
        r.append(items[i].as_str());
        proof {
            if i == 0 {
                assert(joined(items@.subrange(0, 0)) == Seq::<char>::empty());
                assert(r@ =~= items@[0]@);
            }
        }
        i = i + 1;
    }
    assert(items@.subrange(0, items@.len() as int) == items@);
    r
}

/// The parameter's value, or `default`.
fn parameter_value(params: &Vec<(String, String)>, key: &str, default: &str) -> (r: String)
    ensures
        r@ == parameter_or(params@, key@, default@),
{
    let k = String::from_str(key);
    match find_key(params, &k) {
        Some(i) => {
            proof {
                let c = choose|c: int| crate::keyed::is_first_key(params@, k@, c);
                if c > i {
                    assert(params@[i as int].0@ == k@);
                }
                assert(c == i);
            }
            params[i].1.clone()
        },
        None => {
            proof {
                if exists|c: int| crate::keyed::is_first_key(params@, k@, c) {
                    let c = choose|c: int| crate::keyed::is_first_key(params@, k@, c);
                    assert(params@[c].0@ == k@);
                }
            }
            String::from_str(default)
        },
    }
}

impl ActionExecutor {
    /// Runs `action`. It succeeds exactly when the action's type is the one this
    /// executor handles.
    pub fn execute(&self, action: &ResponseAction, now: i64) -> (r: Result<ActionResult, String>)
        ensures
            r is Ok <==> action.action_type == handled_type(*self),
            r matches Ok(res) ==> res.success && res.message@ == success_message(*self, *action)
                && metric_views(res.metrics@) == success_metrics(*self, *action) && res.timestamp == now,
            r matches Err(e) ==> e@ == rejection_message(*self),
    {
        match self {
            ActionExecutor::Isolation(_) => {
                if action.action_type != ActionType::IsolateComponent {
                    return Err(String::from_str("Invalid action type for isolation executor"));
                }
                let mut message = String::from_str("Successfully isolated components: [");
                let list = join_items(&action.target_components);
                message.append(list.as_str());
                message.append("]");
                let n = action.target_components.len() as u64;
                let mut metrics: Vec<(String, u64)> = Vec::new();
                if n <= u64::MAX / SCALE {
                    metrics.push((String::from_str("components_isolated"), n * SCALE));
                }
                metrics.push((String::from_str("isolation_time"), 2_500_000));
                assert(metric_views(metrics@) =~= success_metrics(*self, *action));
                Ok(ActionResult { success: true, message, metrics, timestamp: now })
            },
            ActionExecutor::Scaling(_) => {
                if action.action_type != ActionType::ScaleResources {
                    return Err(String::from_str("Invalid action type for scaling executor"));
                }
                let mut message = String::from_str("Scaled resources by factor: ");
                let factor = parameter_value(&action.parameters, "scale_factor", "2.0");
                message.append(factor.as_str());
                let value = number_from(&factor, 2_000_000);
                let mut metrics: Vec<(String, u64)> = Vec::new();
                metrics.push((String::from_str("scale_factor"), value));
                metrics.push((String::from_str("scaling_time"), 30_000_000));
                assert(metric_views(metrics@) =~= success_metrics(*self, *action));
                Ok(ActionResult { success: true, message, metrics, timestamp: now })
            },
            ActionExecutor::Configuration(_) => {
                if action.action_type != ActionType::UpdateConfiguration {
                    return Err(String::from_str("Invalid action type for configuration executor"));
                }
                let mut message = String::from_str("Updated configuration: ");
                let key = parameter_value(&action.parameters, "config_key", "security_policy");
                let value = parameter_value(&action.parameters, "config_value", "enhanced");
                message.append(key.as_str());
                message.append(" = ");
                message.append(value.as_str());
                let mut metrics: Vec<(String, u64)> = Vec::new();
                metrics.push((String::from_str("config_updated"), SCALE));
                metrics.push((String::from_str("update_time"), 5_000_000));
                assert(metric_views(metrics@) =~= success_metrics(*self, *action));
                Ok(ActionResult { success: true, message, metrics, timestamp: now })
            },
            ActionExecutor::Workflow(_) => {
                if action.action_type != ActionType::TriggerWorkflow {
                    return Err(String::from_str("Invalid action type for workflow executor"));
                }
                let mut message = String::from_str("Triggered workflow: ");
                let id = parameter_value(&action.parameters, "workflow_id", "security_response");
                message.append(id.as_str());
                let value = number_from(&id, 0);
                let mut metrics: Vec<(String, u64)> = Vec::new();
                metrics.push((String::from_str("workflow_triggered"), SCALE));
                metrics.push((String::from_str("workflow_id"), value));
                assert(metric_views(metrics@) =~= success_metrics(*self, *action));
                Ok(ActionResult { success: true, message, metrics, timestamp: now })
            },
        }
    }

    /// The executor's configured name.
    pub fn get_executor_name(&self) -> (r: String)
        ensures
            r@ == match *self {
                ActionExecutor::Isolation(e) => e.name@,
                ActionExecutor::Scaling(e) => e.name@,
                ActionExecutor::Configuration(e) => e.name@,
                ActionExecutor::Workflow(e) => e.name@,
            },
    {
        match self {
            ActionExecutor::Isolation(e) => e.name.clone(),
            ActionExecutor::Scaling(e) => e.name.clone(),
            ActionExecutor::Configuration(e) => e.name.clone(),
            ActionExecutor::Workflow(e) => e.name.clone(),
        }
    }

    /// Built-in executors have no health probe and always report healthy.
    pub fn is_healthy(&self) -> (r: bool)
        ensures
            r,
    {
        true
    }
}

/// One remediation action taken for an incident.
#[derive(Clone, Debug)]
pub struct ActionRecord {
    pub action_id: String,
    pub action_type: ActionType,
    pub executed_at: i64,
    pub status: ActionStatus,
    pub result: String,
    pub duration_secs: u64,
}

#[derive(Clone, Debug)]
pub struct EscalationRecord {
    pub escalated_at: i64,
    pub escalated_to: String,
    pub reason: String,
    pub actions_taken: Vec<String>,
}

#[derive(Clone, Copy, Debug)]
pub struct IncidentMetrics {
    pub detection_time_secs: u64,
    pub response_time_secs: u64,
    pub resolution_time_secs: u64,
    pub business_impact: u64,
    pub affected_users: u64,
    pub data_compromised: bool,
}

/// The accumulating record of remediation for one component.
#[derive(Clone, Debug)]
pub struct Incident {
    pub incident_id: String,
    pub title: String,
    pub description: String,
    pub severity: IncidentSeverity,
    pub status: IncidentStatus,
    pub affected_components: Vec<String>,
    pub root_cause: Option<String>,
    pub created_at: i64,
    pub updated_at: i64,
    pub resolved_at: Option<i64>,
    pub actions_taken: Vec<ActionRecord>,
    pub escalation_history: Vec<EscalationRecord>,
    pub metrics: IncidentMetrics,
}

/// Resolved and closed incidents are no longer open.
pub open spec fn is_open_status(s: IncidentStatus) -> bool {
    !(s == IncidentStatus::Resolved || s == IncidentStatus::Closed)
}

/// The actions already recorded in the open incident of `key`, if there is one.
pub open spec fn open_actions(store: Seq<(String, Incident)>, key: Seq<char>) -> Seq<ActionRecord> {
    match value_of(store, key) {
        Some(inc) => if is_open_status(inc.status) {
            inc.actions_taken@
        } else {
            Seq::empty()
        },
        None => Seq::empty(),
    }
}

/// `rec` records action `action_id` of type `t`, run at `now`, with this status and result.
pub open spec fn record_matches(
    rec: ActionRecord,
    action_id: Seq<char>,
    t: ActionType,
    status: ActionStatus,
    result: Seq<char>,
    now: i64,
) -> bool {
    &&& rec.action_id@ == action_id
    &&& rec.action_type == t
    &&& rec.status == status
    &&& rec.result@ == result
    &&& rec.executed_at == now
}

/// `after` is `before` with one record appended to the open incident of `key`;
/// when `key` had no open incident, a new open incident for it holds the record
/// alone. No other key's incident changes.
pub open spec fn records_action(
    before: Seq<(String, Incident)>,
    after: Seq<(String, Incident)>,
    key: Seq<char>,
    action_id: Seq<char>,
    t: ActionType,
    status: ActionStatus,
    result: Seq<char>,
    now: i64,
) -> bool {
    &&& keys_unique(after)
    &&& forall|k: Seq<char>| k != key ==> value_of(after, k) == value_of(before, k)
    &&& match value_of(after, key) {
        Some(inc) => {
            let base = open_actions(before, key);
            &&& is_open_status(inc.status)
            &&& inc.actions_taken@.len() == base.len() + 1
            &&& inc.actions_taken@.subrange(0, base.len() as int) == base
            &&& record_matches(inc.actions_taken@.last(), action_id, t, status, result, now)
            &&& inc.updated_at == now
            &&& (!(value_of(before, key) matches Some(old) && is_open_status(old.status)) ==> {
                &&& inc.status == IncidentStatus::Open
                &&& inc.affected_components@.len() == 1
                &&& inc.affected_components@[0]@ == key
                &&& inc.resolved_at is None
            })
        },
        None => false,
    }
}

/// A new open incident for `component`, with no actions yet.
pub fn new_incident(
    component: &String,
    severity: IncidentSeverity,
    description: &String,
    incident_id: String,
    now: i64,
) -> (r: Incident)
    ensures
        r.incident_id@ == incident_id@,
        r.title@ == "Trust Score Incident - "@ + component@,
        r.description@ == description@,
        r.severity == severity,
        r.status == IncidentStatus::Open,
        r.affected_components@.len() == 1,
        r.affected_components@[0]@ == component@,
        r.created_at == now,
        r.updated_at == now,
        r.resolved_at is None,
        r.actions_taken@.len() == 0,
        r.escalation_history@.len() == 0,
{
    let mut title = String::from_str("Trust Score Incident - ");
    title.append(component.as_str());
    let mut affected: Vec<String> = Vec::new();
    affected.push(component.clone());
    Incident {
        incident_id,
        title,
        description: description.clone(),
        severity,
        status: IncidentStatus::Open,
        affected_components: affected,
        root_cause: None,
        created_at: now,
        updated_at: now,
        resolved_at: None,
        actions_taken: Vec::new(),
        escalation_history: Vec::new(),
        metrics: IncidentMetrics {
            detection_time_secs: 0,
            response_time_secs: 0,
            resolution_time_secs: 0,
            business_impact: 0,
            affected_users: 0,
            data_compromised: false,
        },
    }
}

/// Appends a record of an action to the open incident of `key`, opening one
/// (with a fresh identifier) when there is none.
pub fn record_action_execution(
    store: &mut Vec<(String, Incident)>,
    key: &String,
    action_id: &String,
    t: ActionType,
    status: ActionStatus,
    result: &String,
    now: i64,
)
    requires
        keys_unique(old(store)@),
    ensures
        records_action(old(store)@, final(store)@, key@, action_id@, t, status, result@, now),
{
    let rec = ActionRecord {
        action_id: action_id.clone(),
        action_type: t,
        executed_at: now,
        status,
        result: result.clone(),
        duration_secs: 5,
    };
    let ghost before = store@;
    match find_key(store, key) {
        Some(i) => {
            proof {
                lemma_value_of_at(before, i as int);
            }
            if store[i].1.status != IncidentStatus::Resolved && store[i].1.status
                != IncidentStatus::Closed {
                let (k, mut inc) = store.remove(i);
                inc.actions_taken.push(rec);
                inc.updated_at = now;
                store.insert(i, (k, inc));
            } else {
                let description = String::from_str("Opened by an automated response action");
                let mut inc = new_incident(key, IncidentSeverity::High, &description, new_identifier(), now);
                inc.actions_taken.push(rec);
                store.set(i, (key.clone(), inc));
            }
            proof {
                assert(store@ =~= before.update(i as int, store@[i as int]));
                assert(store@[i as int].0@ == key@);
                assert forall|k: Seq<char>| k != key@ implies (has_key(before, k) <==> has_key(store@, k)) by {
                    if has_key(store@, k) {
                        let j = choose|j: int| 0 <= j < store@.len() && store@[j].0@ == k;
                        assert(before[j] == store@[j]);
                    }
                    if has_key(before, k) {
                        let j = choose|j: int| 0 <= j < before.len() && before[j].0@ == k;
                        assert(before[j] == store@[j]);
                    }
                }
                lemma_value_of_at(store@, i as int);
                lemma_value_of_frame(before, store@, key@);
                assert(store@[i as int].1.actions_taken@.subrange(0, open_actions(before, key@).len() as int)
                    =~= open_actions(before, key@));
            }
        },
        None => {
            let description = String::from_str("Opened by an automated response action");
            let mut inc = new_incident(key, IncidentSeverity::High, &description, new_identifier(), now);
            inc.actions_taken.push(rec);
            store.push((key.clone(), inc));
            proof {
                let n = before.len() as int;
                lemma_value_of_absent(before, key@);
                assert forall|k: Seq<char>| k != key@ implies (has_key(before, k) <==> has_key(store@, k)) by {
                    if has_key(store@, k) {
                        let j = choose|j: int| 0 <= j < store@.len() && store@[j].0@ == k;
                        assert(j != n);
                        assert(before[j] == store@[j]);
                    }
                    if has_key(before, k) {
                        let j = choose|j: int| 0 <= j < before.len() && before[j].0@ == k;
                        assert(before[j] == store@[j]);
                    }
                }
                lemma_value_of_at(store@, n);
                lemma_value_of_frame(before, store@, key@);
                assert(store@[n].1.actions_taken@.subrange(0, 0) =~= Seq::<ActionRecord>::empty());
            }
        },
    }
}

/// The name of an action type, as it appears in messages.
pub open spec fn action_type_name(t: ActionType) -> Seq<char> {
    match t {
        ActionType::IsolateComponent => "IsolateComponent"@,
        ActionType::ScaleResources => "ScaleResources"@,
        ActionType::UpdateConfiguration => "UpdateConfiguration"@,
        ActionType::TriggerWorkflow => "TriggerWorkflow"@,
        ActionType::SendNotification => "SendNotification"@,
        ActionType::UpdateSecurityPolicy => "UpdateSecurityPolicy"@,
        ActionType::FailoverToBackup => "FailoverToBackup"@,
        ActionType::RestartService => "RestartService"@,
        ActionType::UpdateFirewallRules => "UpdateFirewallRules"@,
        ActionType::QuarantineData => "QuarantineData"@,
        ActionType::EnableMonitoring => "EnableMonitoring"@,
        ActionType::DisableAccess => "DisableAccess"@,
    }
}

/// The name of an action type.
pub fn action_type_label(t: ActionType) -> (r: String)
    ensures
        r@ == action_type_name(t),
{
    match t {
        ActionType::IsolateComponent => String::from_str("IsolateComponent"),
        ActionType::ScaleResources => String::from_str("ScaleResources"),
        ActionType::UpdateConfiguration => String::from_str("UpdateConfiguration"),
        ActionType::TriggerWorkflow => String::from_str("TriggerWorkflow"),
        ActionType::SendNotification => String::from_str("SendNotification"),
        ActionType::UpdateSecurityPolicy => String::from_str("UpdateSecurityPolicy"),
        ActionType::FailoverToBackup => String::from_str("FailoverToBackup"),
        ActionType::RestartService => String::from_str("RestartService"),
        ActionType::UpdateFirewallRules => String::from_str("UpdateFirewallRules"),
        ActionType::QuarantineData => String::from_str("QuarantineData"),
        ActionType::EnableMonitoring => String::from_str("EnableMonitoring"),
        ActionType::DisableAccess => String::from_str("DisableAccess"),
    }
}

/// The registry name of the executor for an action type; the other types have none.
pub open spec fn executor_name(t: ActionType) -> Option<Seq<char>> {
    match t {
        ActionType::IsolateComponent => Some("isolation"@),
        ActionType::ScaleResources => Some("scaling"@),
        ActionType::UpdateConfiguration => Some("configuration"@),
        ActionType::TriggerWorkflow => Some("workflow"@),
        _ => None,
    }
}

/// The executor an action of type `t` goes to: the one registered under the
/// type's name; for a type without a name, the first registered executor.
pub open spec fn executor_for(executors: Seq<(String, ActionExecutor)>, t: ActionType) -> Option<ActionExecutor> {
    match executor_name(t) {
        Some(n) => value_of(executors, n),
        None => if executors.len() > 0 {
            Some(executors[0].1)
        } else {
            None
        },
    }
}

/// Completed when the chosen executor ran the action, Failed otherwise.
pub open spec fn dispatch_status(executors: Seq<(String, ActionExecutor)>, a: ResponseAction) -> ActionStatus {
    match executor_for(executors, a.action_type) {
        Some(ex) => if a.action_type == handled_type(ex) {
            ActionStatus::Completed
        } else {
            ActionStatus::Failed
        },
        None => ActionStatus::Failed,
    }
}

/// What the record of a dispatched action says happened.
pub open spec fn dispatch_result(executors: Seq<(String, ActionExecutor)>, a: ResponseAction) -> Seq<char> {
    match executor_for(executors, a.action_type) {
        Some(ex) => if a.action_type == handled_type(ex) {
            success_message(ex, a)
        } else {
            rejection_message(ex)
        },
        None => "No executor found for action type: "@ + action_type_name(a.action_type),
    }
}

/// The line reported for a dispatched action.
pub open spec fn dispatch_message(executors: Seq<(String, ActionExecutor)>, a: ResponseAction) -> Seq<char> {
    match executor_for(executors, a.action_type) {
        Some(ex) => if a.action_type == handled_type(ex) {
            "Action "@ + a.action_id@ + " executed successfully: "@ + success_message(ex, a)
        } else {
            "Action "@ + a.action_id@ + " failed: "@ + rejection_message(ex)
        },
        None => "No executor found for action type: "@ + action_type_name(a.action_type),
    }
}

/// Picks the executor for an action type.
fn get_executor_for_action(executors: &Vec<(String, ActionExecutor)>, t: ActionType) -> (r: Option<usize>)
    ensures
        r matches Some(i) ==> i < executors@.len() && executor_for(executors@, t) == Some(
            executors@[i as int].1,
        ),
        r is None ==> executor_for(executors@, t) is None,
{
    let name = match t {
        ActionType::IsolateComponent => String::from_str("isolation"),
        ActionType::ScaleResources => String::from_str("scaling"),
        ActionType::UpdateConfiguration => String::from_str("configuration"),
        ActionType::TriggerWorkflow => String::from_str("workflow"),
        _ => {
            if executors.len() > 0 {
                return Some(0);
            } else {
                return None;
            }
        },
    };
    match find_key(executors, &name) {
        Some(i) => {
            proof {
                let c = choose|c: int| crate::keyed::is_first_key(executors@, name@, c);
                if c > i {
                    assert(executors@[i as int].0@ == name@);
                }
                assert(c == i);
            }
            Some(i)
        },
        None => {
            proof {
                lemma_value_of_absent(executors@, name@);
            }
            None
        },
    }
}

/// Sends an action to its executor: the record's status and result, and the
/// reported line.
pub fn dispatch(executors: &Vec<(String, ActionExecutor)>, a: &ResponseAction, now: i64) -> (r: (
    ActionStatus,
    String,
    String,
))
    ensures
        r.0 == dispatch_status(executors@, *a),
        r.1@ == dispatch_result(executors@, *a),
        r.2@ == dispatch_message(executors@, *a),
{
    match get_executor_for_action(executors, a.action_type) {
        Some(i) => {
            match executors[i].1.execute(a, now) {
                Ok(res) => {
                    let mut line = String::from_str("Action ");
                    line.append(a.action_id.as_str());
                    line.append(" executed successfully: ");
                    line.append(res.message.as_str());
                    (ActionStatus::Completed, res.message, line)
                },
                Err(e) => {
                    let mut line = String::from_str("Action ");
                    line.append(a.action_id.as_str());
                    line.append(" failed: ");
                    line.append(e.as_str());
                    (ActionStatus::Failed, e, line)
                },
            }
        },
        None => {
            let mut line = String::from_str("No executor found for action type: ");
            let n = action_type_label(a.action_type);
            line.append(n.as_str());
            let result = line.clone();
            (ActionStatus::Failed, result, line)
        },
    }
}

#[derive(Clone, Debug)]
pub struct NotificationChannel {
    pub channel_id: String,
    pub channel_type: ChannelType,
    pub endpoint: String,
    pub enabled: bool,
}

#[derive(Clone, Debug)]
pub struct EscalationCondition {
    pub metric_name: String,
    pub operator: ComparisonOperator,
    pub threshold: u64,
    pub duration_secs: u64,
}

#[derive(Clone, Debug)]
pub struct EscalationPolicy {
    pub policy_id: String,
    pub name: String,
    pub conditions: Vec<EscalationCondition>,
    pub escalation_chain: Vec<EscalationStep>,
    pub enabled: bool,
}

#[derive(Clone, Debug)]
pub struct EscalationManager {
    pub escalation_policies: Vec<EscalationPolicy>,
    pub escalation_history: Vec<EscalationRecord>,
    pub notification_channels: Vec<NotificationChannel>,
}

#[derive(Clone, Debug)]
pub struct RecoveryStep {
    pub step_id: String,
    pub step_name: String,
    pub action_type: ActionType,
    pub parameters: Vec<(String, String)>,
    pub timeout_secs: u64,
    pub retry_count: u32,
    pub dependencies: Vec<String>,
}

#[derive(Clone, Debug)]
pub struct SuccessCriterion {
    pub criterion_id: String,
    pub metric_name: String,
    pub operator: ComparisonOperator,
    pub threshold: u64,
    pub description: String,
}

#[derive(Clone, Debug)]
pub struct RecoveryPlan {
    pub plan_id: String,
    pub name: String,
    pub target_components: Vec<String>,
    pub recovery_steps: Vec<RecoveryStep>,
    pub success_criteria: Vec<SuccessCriterion>,
    pub timeout_secs: u64,
}

#[derive(Clone, Debug)]
pub struct RecoveryRecord {
    pub recovery_id: String,
    pub plan_id: String,
    pub started_at: i64,
    pub completed_at: Option<i64>,
    pub status: RecoveryStatus,
    pub steps_completed: Vec<String>,
    pub success_criteria_met: Vec<String>,
}

#[derive(Clone, Debug)]
pub struct HealthCheck {
    pub check_id: String,
    pub component_id: String,
    pub check_type: HealthCheckType,
    pub endpoint: String,
    pub timeout_secs: u64,
    pub retry_count: u32,
    pub enabled: bool,
}

#[derive(Clone, Debug)]
pub struct RecoveryCoordinator {
    pub recovery_plans: Vec<RecoveryPlan>,
    pub recovery_history: Vec<RecoveryRecord>,
    pub health_checks: Vec<HealthCheck>,
}

/// Two escalation records hold the same data.
pub open spec fn same_escalation(a: EscalationRecord, b: EscalationRecord) -> bool {
    &&& a.escalated_at == b.escalated_at
    &&& a.escalated_to@ == b.escalated_to@
    &&& a.reason@ == b.reason@
    &&& a.actions_taken@ == b.actions_taken@
}

/// Two incidents hold the same data.
pub open spec fn same_incident(a: Incident, b: Incident) -> bool {
    &&& a.incident_id@ == b.incident_id@
    &&& a.title@ == b.title@
    &&& a.description@ == b.description@
    &&& a.severity == b.severity
    &&& a.status == b.status
    &&& a.affected_components@ == b.affected_components@
    &&& a.root_cause == b.root_cause
    &&& a.created_at == b.created_at
    &&& a.updated_at == b.updated_at
    &&& a.resolved_at == b.resolved_at
    &&& a.actions_taken@ == b.actions_taken@
    &&& a.escalation_history@.len() == b.escalation_history@.len()
    &&& forall|k: int|
        0 <= k < a.escalation_history@.len() ==> same_escalation(
            #[trigger] a.escalation_history@[k],
            b.escalation_history@[k],
        )
    &&& a.metrics == b.metrics
}

/// A copy of a list of strings.
fn copy_strings(v: &Vec<String>) -> (r: Vec<String>)
    ensures
        r@ == v@,
{
    let r = v.clone();
    assert(r@ =~= v@);
    r
}

/// A copy of an incident.
fn copy_incident(inc: &Incident) -> (r: Incident)
    ensures
        same_incident(r, *inc),
{
    let mut actions: Vec<ActionRecord> = Vec::new();
    let mut i: usize = 0;
    while i < inc.actions_taken.len()
        invariant
            i <= inc.actions_taken@.len(),
            actions@ == inc.actions_taken@.subrange(0, i as int),
        decreases inc.actions_taken@.len() - i,
    {
        let a = &inc.actions_taken[i];
        actions.push(ActionRecord {
            action_id: a.action_id.clone(),
            action_type: a.action_type,
            executed_at: a.executed_at,
            status: a.status,
            result: a.result.clone(),
            duration_secs: a.duration_secs,
        });
        assert(actions@ =~= inc.actions_taken@.subrange(0, i + 1));
        i = i + 1;
    }
    assert(inc.actions_taken@.subrange(0, inc.actions_taken@.len() as int) =~= inc.actions_taken@);
    let mut history: Vec<EscalationRecord> = Vec::new();
    let mut j: usize = 0;
    while j < inc.escalation_history.len()
        invariant
            j <= inc.escalation_history@.len(),
            history@.len() == j,
            forall|k: int|
                0 <= k < j ==> same_escalation(#[trigger] history@[k], inc.escalation_history@[k]),
        decreases inc.escalation_history@.len() - j,
    {
        let e = &inc.escalation_history[j];
        history.push(EscalationRecord {
            escalated_at: e.escalated_at,
            escalated_to: e.escalated_to.clone(),
            reason: e.reason.clone(),
            actions_taken: copy_strings(&e.actions_taken),
        });
        j = j + 1;
    }
    let root_cause = match &inc.root_cause {
        Some(c) => Some(c.clone()),
        None => None,
    };
    Incident {
        incident_id: inc.incident_id.clone(),
        title: inc.title.clone(),
        description: inc.description.clone(),
        severity: inc.severity,
        status: inc.status,
        affected_components: copy_strings(&inc.affected_components),
        root_cause,
        created_at: inc.created_at,
        updated_at: inc.updated_at,
        resolved_at: inc.resolved_at,
        actions_taken: actions,
        escalation_history: history,
        metrics: inc.metrics,
    }
}

/// Evaluates policies against trust updates, dispatches their actions and keeps
/// one incident per component.
pub struct IncidentResponseEngine {
    /// Kept in ascending priority; equal priorities in order of registration.
    pub response_policies: Vec<ResponsePolicy>,
    /// Keyed by component id.
    pub active_incidents: Vec<(String, Incident)>,
    /// Keyed by executor name.
    pub action_executors: Vec<(String, ActionExecutor)>,
    pub escalation_manager: EscalationManager,
    pub recovery_coordinator: RecoveryCoordinator,
}

/// Policies in ascending priority.
pub open spec fn priority_sorted(ps: Seq<ResponsePolicy>) -> bool {
    forall|i: int, j: int| 0 <= i < j < ps.len() ==> ps[i].priority <= ps[j].priority
}

/// Every `(policy, action)` position names an action.
pub open spec fn valid_slots(ps: Seq<ResponsePolicy>, plan: Seq<(usize, usize)>) -> bool {
    forall|k: int|
        0 <= k < plan.len() ==> (#[trigger] plan[k]).0 < ps.len() && plan[k].1 < ps[plan[k].0 as int].actions@.len()
}

/// The action at a `(policy, action)` position.
pub open spec fn action_at(ps: Seq<ResponsePolicy>, slot: (usize, usize)) -> ResponseAction {
    ps[slot.0 as int].actions@[slot.1 as int]
}

/// The components whose incidents record an action: its targets, or the updated
/// component when it names none.
pub open spec fn action_keys(a: ResponseAction, component: Seq<char>) -> Seq<Seq<char>> {
    if a.target_components@.len() == 0 {
        seq![component]
    } else {
        a.target_components@.map_values(|t: String| t@)
    }
}

/// One `(incident key, action)` pair per record that the planned actions write, in order.
pub open spec fn planned_records(
    ps: Seq<ResponsePolicy>,
    plan: Seq<(usize, usize)>,
    component: Seq<char>,
) -> Seq<(Seq<char>, ResponseAction)>
    decreases plan.len(),
{
    if plan.len() == 0 {
        Seq::empty()
    } else {
        let a = action_at(ps, plan.last());
        planned_records(ps, plan.drop_last(), component) + action_keys(a, component).map_values(
            |k: Seq<char>| (k, a),
        )
    }
}

/// `states` walks the incident store through one record per entry.
pub open spec fn record_chain(
    states: Seq<Seq<(String, Incident)>>,
    entries: Seq<(Seq<char>, ResponseAction)>,
    executors: Seq<(String, ActionExecutor)>,
    now: i64,
) -> bool {
    &&& states.len() == entries.len() + 1
    &&& forall|m: int|
        #![trigger entries[m]]
        0 <= m < entries.len() ==> records_action(
            states[m],
            states[m + 1],
            entries[m].0,
            entries[m].1.action_id@,
            entries[m].1.action_type,
            dispatch_status(executors, entries[m].1),
            dispatch_result(executors, entries[m].1),
            now,
        )
}

/// A chain of records extends by one more record.
pub proof fn lemma_chain_push(
    states: Seq<Seq<(String, Incident)>>,
    entries: Seq<(Seq<char>, ResponseAction)>,
    executors: Seq<(String, ActionExecutor)>,
    now: i64,
    next: Seq<(String, Incident)>,
    entry: (Seq<char>, ResponseAction),
)
    requires
        record_chain(states, entries, executors, now),
        records_action(
            states.last(),
            next,
            entry.0,
            entry.1.action_id@,
            entry.1.action_type,
            dispatch_status(executors, entry.1),
            dispatch_result(executors, entry.1),
            now,
        ),
    ensures
        record_chain(states.push(next), entries.push(entry), executors, now),
{
    let s2 = states.push(next);
    let e2 = entries.push(entry);
    assert forall|m: int| #![trigger e2[m]] 0 <= m < e2.len() implies records_action(
        s2[m],
        s2[m + 1],
        e2[m].0,
        e2[m].1.action_id@,
        e2[m].1.action_type,
        dispatch_status(executors, e2[m].1),
        dispatch_result(executors, e2[m].1),
        now,
    ) by {
        if m < entries.len() {
            assert(e2[m] == entries[m]);
            assert(s2[m] == states[m]);
            assert(s2[m + 1] == states[m + 1]);
        } else {
            assert(s2[m] == states.last());
        }
    }
}

impl IncidentResponseEngine {
    pub open spec fn wf(&self) -> bool {
        &&& priority_sorted(self.response_policies@)
        &&& keys_unique(self.active_incidents@)
        &&& keys_unique(self.action_executors@)
    }

    /// One evaluation cycle at time `now` turned `self` into `after` and reported `lines`:
    /// every action of every firing policy, in priority order, was dispatched once,
    /// reported once, and recorded in the incident of each of its keys.
    pub open spec fn update_applied(
        self,
        after: IncidentResponseEngine,
        component: Seq<char>,
        trust_score: u64,
        ctx: TrustContext,
        now: i64,
        lines: Seq<String>,
    ) -> bool {
        let ps = self.response_policies@;
        let plan = planned_actions(ps, trust_score, ctx);
        &&& after.response_policies@ == ps
        &&& after.action_executors@ == self.action_executors@
        &&& lines.len() == plan.len()
        &&& forall|k: int|
            0 <= k < plan.len() ==> (#[trigger] lines[k])@ == dispatch_message(
                self.action_executors@,
                action_at(ps, plan[k]),
            )
        &&& exists|states: Seq<Seq<(String, Incident)>>|
            record_chain(states, planned_records(ps, plan, component), self.action_executors@, now)
                && states[0] == self.active_incidents@ && states.last()
                == after.active_incidents@
    }

    /// An engine with no policies, incidents or executors.
    pub fn new() -> (r: IncidentResponseEngine)
        ensures
            r.wf(),
            r.response_policies@.len() == 0,
            r.active_incidents@.len() == 0,
            r.action_executors@.len() == 0,
    {
        IncidentResponseEngine {
            response_policies: Vec::new(),
            active_incidents: Vec::new(),
            action_executors: Vec::new(),
            escalation_manager: EscalationManager {
                escalation_policies: Vec::new(),
                escalation_history: Vec::new(),
                notification_channels: Vec::new(),
            },
            recovery_coordinator: RecoveryCoordinator {
                recovery_plans: Vec::new(),
                recovery_history: Vec::new(),
                health_checks: Vec::new(),
            },
        }
    }

    /// Adds a policy after every policy of lower or equal priority.
    pub fn add_response_policy(&mut self, policy: ResponsePolicy)
        requires
            old(self).wf(),
        ensures
            final(self).wf(),
            final(self).active_incidents@ == old(self).active_incidents@,
            final(self).action_executors@ == old(self).action_executors@,
            exists|pos: int|
                0 <= pos <= old(self).response_policies@.len() && final(self).response_policies@
                    == old(self).response_policies@.insert(pos, policy) && (forall|i: int|
                    0 <= i < pos ==> old(self).response_policies@[i].priority <= policy.priority)
                    && (forall|i: int|
                    pos <= i < old(self).response_policies@.len()
                        ==> old(self).response_policies@[i].priority > policy.priority),
    {
        let ghost before = self.response_policies@;
        let mut pos: usize = 0;
        while pos < self.response_policies.len() && self.response_policies[pos].priority <= policy.priority
            invariant
                self.response_policies@ == before,
                priority_sorted(before),
                pos <= before.len(),
                forall|i: int| 0 <= i < pos ==> before[i].priority <= policy.priority,
            decreases before.len() - pos,
        {
            pos = pos + 1;
        }
        assert forall|i: int| pos <= i < before.len() implies before[i].priority > policy.priority by {
            assert(before[pos as int].priority > policy.priority);
        }
        self.response_policies.insert(pos, policy);
        assert(priority_sorted(self.response_policies@));
    }

    /// Registers an executor under `name`, replacing one of the same name.
    pub fn add_action_executor(&mut self, name: String, executor: ActionExecutor)
        requires
            old(self).wf(),
        ensures
            final(self).wf(),
            final(self).response_policies@ == old(self).response_policies@,
            final(self).active_incidents@ == old(self).active_incidents@,
            value_of(final(self).action_executors@, name@) == Some(executor),
            forall|k: Seq<char>|
                k != name@ ==> value_of(final(self).action_executors@, k) == value_of(
                    old(self).action_executors@,
                    k,
                ),
    {
        upsert(&mut self.action_executors, name, executor);
    }

    /// The `(policy, action)` positions that an evaluation dispatches.
    pub fn plan_actions(&self, trust_score: u64, ctx: &TrustContext) -> (r: Vec<(usize, usize)>)
        ensures
            r@ == planned_actions(self.response_policies@, trust_score, *ctx),
            valid_slots(self.response_policies@, r@),
    {
        let ghost ps = self.response_policies@;
        let mut r: Vec<(usize, usize)> = Vec::new();
        let mut i: usize = 0;
        while i < self.response_policies.len()
            invariant
                ps == self.response_policies@,
                i <= ps.len(),
                r@ == planned_actions(ps.subrange(0, i as int), trust_score, *ctx),
                valid_slots(ps, r@),
            decreases ps.len() - i,
        {
            let ghost start = r@;
            assert(ps.subrange(0, i + 1).drop_last() == ps.subrange(0, i as int));
            assert(ps.subrange(0, i + 1).last() == ps[i as int]);
            if self.response_policies[i].enabled && evaluate_policy_conditions(
                &self.response_policies[i],
                trust_score,
                ctx,
            ) {
                let n = self.response_policies[i].actions.len();
                let mut a: usize = 0;
                while a < n
                    invariant
                        ps == self.response_policies@,
                        i < ps.len(),
                        n == ps[i as int].actions@.len(),
                        a <= n,
                        r@ == start + action_slots(i as int, a as nat),
                        valid_slots(ps, r@),
                    decreases n - a,
                {
                    r.push((i, a));
                    assert(r@ =~= start + action_slots(i as int, (a + 1) as nat));
                    a = a + 1;
                }
            }
            i = i + 1;
        }
        assert(ps.subrange(0, ps.len() as int) == ps);
        r
    }

    /// One evaluation cycle at time `now`: every enabled policy, in priority order,
    /// whose conditions all hold has each of its actions dispatched once; each
    /// outcome, failed or not, is recorded and reported.
    pub fn process_trust_update_at(
        &mut self,
        component_id: &String,
        trust_score: u64,
        context: &TrustContext,
        now: i64,
    ) -> (r: Vec<String>)
        requires
            old(self).wf(),
        ensures
            final(self).wf(),
            old(self).update_applied(*final(self), component_id@, trust_score, *context, now, r@),
    {
        let plan = self.plan_actions(trust_score, context);
        let ghost ps = self.response_policies@;
        let ghost execs = self.action_executors@;
        let ghost start = self.active_incidents@;
        let ghost comp = component_id@;
        let mut lines: Vec<String> = Vec::new();
        let ghost mut states: Seq<Seq<(String, Incident)>> = seq![start];
        let mut k: usize = 0;
        while k < plan.len()
            invariant
                self.wf(),
                self.response_policies@ == ps,
                self.action_executors@ == execs,
                plan@ == planned_actions(ps, trust_score, *context),
                valid_slots(ps, plan@),
                k <= plan@.len(),
                lines@.len() == k,
                forall|j: int|
                    0 <= j < k ==> (#[trigger] lines@[j])@ == dispatch_message(
                        execs,
                        action_at(ps, plan@[j]),
                    ),
                record_chain(states, planned_records(ps, plan@.subrange(0, k as int), comp), execs, now),
                states[0] == start,
                states.last() == self.active_incidents@,
                comp == component_id@,
            decreases plan@.len() - k,
        {
            let (p, a) = plan[k];
            let ghost prefix = planned_records(ps, plan@.subrange(0, k as int), comp);
            let ghost act = action_at(ps, plan@[k as int]);
            let ghost keys = action_keys(act, comp);
            proof {
                assert(plan@.subrange(0, k + 1).drop_last() == plan@.subrange(0, k as int));
                assert(plan@.subrange(0, k + 1).last() == plan@[k as int]);
                assert(planned_records(ps, plan@.subrange(0, k + 1), comp) == prefix + keys.map_values(
                    |key: Seq<char>| (key, act),
                ));
            }
            let (status, result, line) = dispatch(
                &self.action_executors,
                &self.response_policies[p].actions[a],
                now,
            );
            lines.push(line);
            let n_targets = self.response_policies[p].actions[a].target_components.len();
            if n_targets == 0 {
                record_action_execution(
                    &mut self.active_incidents,
                    component_id,
                    &self.response_policies[p].actions[a].action_id,
                    self.response_policies[p].actions[a].action_type,
                    status,
                    &result,
                    now,
                );
                proof {
                    lemma_chain_push(states, prefix, execs, now, self.active_incidents@, (comp, act));
                    states = states.push(self.active_incidents@);
                    assert(prefix.push((comp, act)) =~= prefix + keys.map_values(
                        |key: Seq<char>| (key, act),
                    ));
                }
            } else {
                let mut t: usize = 0;
                while t < n_targets
                    invariant
                        self.wf(),
                        self.response_policies@ == ps,
                        self.action_executors@ == execs,
                        p < ps.len(),
                        a < ps[p as int].actions@.len(),
                        act == ps[p as int].actions@[a as int],
                        n_targets == act.target_components@.len(),
                        n_targets > 0,
                        keys == act.target_components@.map_values(|x: String| x@),
                        status == dispatch_status(execs, act),
                        result@ == dispatch_result(execs, act),
                        t <= n_targets,
                        record_chain(
                            states,
                            prefix + keys.subrange(0, t as int).map_values(|key: Seq<char>| (key, act)),
                            execs,
                            now,
                        ),
                        states[0] == start,
                        states.last() == self.active_incidents@,
                    decreases n_targets - t,
                {
                    record_action_execution(
                        &mut self.active_incidents,
                        &self.response_policies[p].actions[a].target_components[t],
                        &self.response_policies[p].actions[a].action_id,
                        self.response_policies[p].actions[a].action_type,
                        status,
                        &result,
                        now,
                    );
                    proof {
                        let entries = prefix + keys.subrange(0, t as int).map_values(
                            |key: Seq<char>| (key, act),
                        );
                        lemma_chain_push(
                            states,
                            entries,
                            execs,
                            now,
                            self.active_incidents@,
                            (keys[t as int], act),
                        );
                        states = states.push(self.active_incidents@);
                        assert(entries.push((keys[t as int], act)) =~= prefix + keys.subrange(
                            0,
                            t + 1,
                        ).map_values(|key: Seq<char>| (key, act)));
                    }
                    t = t + 1;
                }
                proof {
                    assert(keys.subrange(0, n_targets as int) == keys);
                }
            }
            k = k + 1;
        }
        proof {
            assert(plan@.subrange(0, plan@.len() as int) == plan@);
        }
        lines
    }

    /// Runs an evaluation cycle at the current time. It never fails: dispatch
    /// problems are recorded and reported, not returned as errors.
    pub fn process_trust_update(
        &mut self,
        component_id: &String,
        trust_score: u64,
        context: &TrustContext,
    ) -> (r: Result<Vec<String>, String>)
        requires
            old(self).wf(),
        ensures
            final(self).wf(),
            r is Ok,
            exists|now: i64|
                #[trigger] old(self).update_applied(
                    *final(self),
                    component_id@,
                    trust_score,
                    *context,
                    now,
                    r->Ok_0@,
                ),
    {
        let now = now_millis();
        let lines = self.process_trust_update_at(component_id, trust_score, context, now);
        let r = Ok(lines);
        assert(old(self).update_applied(*self, component_id@, trust_score, *context, now, r->Ok_0@));
        r
    }

    /// Opens a new incident for `component_id`, replacing any incident stored for
    /// it; returns the new incident's identifier.
    pub fn create_incident(
        &mut self,
        component_id: &String,
        severity: IncidentSeverity,
        description: &String,
    ) -> (r: String)
        requires
            old(self).wf(),
        ensures
            final(self).wf(),
            r@.len() == 36,
            final(self).response_policies@ == old(self).response_policies@,
            final(self).action_executors@ == old(self).action_executors@,
            value_of(final(self).active_incidents@, component_id@) matches Some(inc) && inc.incident_id@
                == r@ && inc.status == IncidentStatus::Open && inc.severity == severity
                && inc.description@ == description@ && inc.actions_taken@.len() == 0
                && inc.affected_components@.len() == 1 && inc.affected_components@[0]@
                == component_id@ && inc.resolved_at is None && inc.title@
                == "Trust Score Incident - "@ + component_id@,
            forall|k: Seq<char>|
                k != component_id@ ==> value_of(final(self).active_incidents@, k) == value_of(
                    old(self).active_incidents@,
                    k,
                ),
    {
        let id = new_identifier();
        let now = now_millis();
        let inc = new_incident(component_id, severity, description, id.clone(), now);
        upsert(&mut self.active_incidents, component_id.clone(), inc);
        id
    }

    /// Every stored incident, in store order.
    pub fn get_active_incidents(&self) -> (r: Vec<Incident>)
        ensures
            r@.len() == self.active_incidents@.len(),
            forall|i: int|
                0 <= i < r@.len() ==> same_incident(#[trigger] r@[i], self.active_incidents@[i].1),
    {
        let mut r: Vec<Incident> = Vec::new();
        let mut i: usize = 0;
        while i < self.active_incidents.len()
            invariant
                i <= self.active_incidents@.len(),
                r@.len() == i,
                forall|j: int|
                    0 <= j < i ==> same_incident(#[trigger] r@[j], self.active_incidents@[j].1),
            decreases self.active_incidents@.len() - i,
        {
            r.push(copy_incident(&self.active_incidents[i].1));
            i = i + 1;
        }
        r
    }

    /// Marks the incident with this identifier resolved, at time `now`.
    pub fn resolve_incident_at(&mut self, incident_id: &String, now: i64) -> (r: Result<(), String>)
        requires
            old(self).wf(),
        ensures
            final(self).wf(),
            final(self).response_policies@ == old(self).response_policies@,
            final(self).action_executors@ == old(self).action_executors@,
            r is Ok <==> exists|i: int|
                0 <= i < old(self).active_incidents@.len()
                    && old(self).active_incidents@[i].1.incident_id@ == incident_id@,
            r is Ok ==> exists|i: int|
                0 <= i < old(self).active_incidents@.len()
                    && old(self).active_incidents@[i].1.incident_id@ == incident_id@ && ({
                    let before = old(self).active_incidents@[i];
                    let after = final(self).active_incidents@[i];
                    &&& final(self).active_incidents@ == old(self).active_incidents@.update(i, after)
                    &&& after.0 == before.0
                    &&& after.1.incident_id == before.1.incident_id
                    &&& after.1.actions_taken == before.1.actions_taken
                    &&& after.1.status == IncidentStatus::Resolved
                    &&& after.1.resolved_at == Some(now)
                    &&& after.1.updated_at == now
                }),
            r matches Err(e) ==> e@ == "Incident "@ + incident_id@ + " not found"@
                && final(self).active_incidents@ == old(self).active_incidents@,
    {
        let mut i: usize = 0;
        while i < self.active_incidents.len()
            invariant
                self.wf(),
                *self == *old(self),
                i <= self.active_incidents@.len(),
                forall|j: int| 0 <= j < i ==> self.active_incidents@[j].1.incident_id@ != incident_id@,
            decreases self.active_incidents@.len() - i,
        {
            if self.active_incidents[i].1.incident_id == *incident_id {
                let ghost before = self.active_incidents@;
                let (k, mut inc) = self.active_incidents.remove(i);
                inc.status = IncidentStatus::Resolved;
                inc.resolved_at = Some(now);
                inc.updated_at = now;
                self.active_incidents.insert(i, (k, inc));
                proof {
                    assert(self.active_incidents@ =~= before.update(i as int, self.active_incidents@[i as int]));
                    assert forall|a: int, b: int| 0 <= a < b < self.active_incidents@.len() implies
                        self.active_incidents@[a].0@ != self.active_incidents@[b].0@ by {
                        assert(self.active_incidents@[a].0 == before[a].0);
                        assert(self.active_incidents@[b].0 == before[b].0);
                    }
                }
                return Ok(());
            }
            i = i + 1;
        }
        let mut e = String::from_str("Incident ");
        e.append(incident_id.as_str());
        e.append(" not found");
        Err(e)
    }

    /// Marks the incident with this identifier resolved, now.
    pub fn resolve_incident(&mut self, incident_id: &String) -> (r: Result<(), String>)
        requires
            old(self).wf(),
        ensures
            final(self).wf(),
            final(self).response_policies@ == old(self).response_policies@,
            final(self).action_executors@ == old(self).action_executors@,
            r is Ok <==> exists|i: int|
                0 <= i < old(self).active_incidents@.len()
                    && old(self).active_incidents@[i].1.incident_id@ == incident_id@,
            r is Ok ==> exists|i: int|
                0 <= i < old(self).active_incidents@.len()
                    && old(self).active_incidents@[i].1.incident_id@ == incident_id@
                    && final(self).active_incidents@[i].1.status == IncidentStatus::Resolved
                    && final(self).active_incidents@[i].1.resolved_at is Some
                    && final(self).active_incidents@ == old(self).active_incidents@.update(
                    i,
                    final(self).active_incidents@[i],
                ),
            r matches Err(e) ==> e@ == "Incident "@ + incident_id@ + " not found"@
                && final(self).active_incidents@ == old(self).active_incidents@,
    {
        let now = now_millis();
        self.resolve_incident_at(incident_id, now)
    }

    /// Starts the recovery plan with this identifier; returns a fresh recovery id.
    pub fn start_recovery(&self, component_id: &String, plan_id: &String) -> (r: Result<String, String>)
        ensures
            r is Ok <==> exists|i: int|
                0 <= i < self.recovery_coordinator.recovery_plans@.len()
                    && self.recovery_coordinator.recovery_plans@[i].plan_id@ == plan_id@,
            r matches Ok(id) ==> id@.len() == 36,
            r matches Err(e) ==> e@ == "Recovery plan "@ + plan_id@ + " not found"@,
    {
        let mut i: usize = 0;
        while i < self.recovery_coordinator.recovery_plans.len()
            invariant
                i <= self.recovery_coordinator.recovery_plans@.len(),
                forall|j: int|
                    0 <= j < i ==> self.recovery_coordinator.recovery_plans@[j].plan_id@ != plan_id@,
            decreases self.recovery_coordinator.recovery_plans@.len() - i,
        {
            if self.recovery_coordinator.recovery_plans[i].plan_id == *plan_id {
                return Ok(new_identifier());
            }
            i = i + 1;
        }
        let mut e = String::from_str("Recovery plan ");
        e.append(plan_id.as_str());
        e.append(" not found");
        Err(e)
    }

}

/// The planned actions are exactly the actions of the firing policies, each
/// listed once.
pub proof fn lemma_planned_actions(ps: Seq<ResponsePolicy>, trust_score: u64, ctx: TrustContext)
    requires
        ps.len() <= usize::MAX,
        forall|i: int| 0 <= i < ps.len() ==> (#[trigger] ps[i]).actions@.len() <= usize::MAX,
    ensures
        planned_actions(ps, trust_score, ctx).no_duplicates(),
        forall|i: usize, a: usize|
            #[trigger] planned_actions(ps, trust_score, ctx).contains((i, a)) <==> (i < ps.len()
                && policy_fires(ps[i as int], trust_score, ctx) && a < ps[i as int].actions@.len()),
    decreases ps.len(),
{
    if ps.len() > 0 {
        let rest = ps.drop_last();
        let n = ps.len() - 1;
        assert forall|i: int| 0 <= i < rest.len() implies (#[trigger] rest[i]).actions@.len() <= usize::MAX by {
            assert(rest[i] == ps[i]);
        }
        lemma_planned_actions(rest, trust_score, ctx);
        let before = planned_actions(rest, trust_score, ctx);
        let all = planned_actions(ps, trust_score, ctx);
        if policy_fires(ps.last(), trust_score, ctx) {
            let slots = action_slots(n, ps.last().actions@.len());
            assert(all == before + slots);
            assert forall|i: usize, a: usize| #[trigger] all.contains((i, a)) <==> (i < ps.len()
                && policy_fires(ps[i as int], trust_score, ctx) && a < ps[i as int].actions@.len()) by {
                if all.contains((i, a)) {
                    let k = choose|k: int| 0 <= k < all.len() && all[k] == (i, a);
                    if k < before.len() {
                        assert(before[k] == (i, a));
                        assert(before.contains((i, a)));
                        assert(rest[i as int] == ps[i as int]);
                    } else {
                        assert(slots[k - before.len()] == (i, a));
                    }
                }
                if i < ps.len() && policy_fires(ps[i as int], trust_score, ctx) && a < ps[i as int].actions@.len() {
                    if i < n {
                        assert(rest[i as int] == ps[i as int]);
                        assert(before.contains((i, a)));
                        let k = choose|k: int| 0 <= k < before.len() && before[k] == (i, a);
                        assert(all[k] == (i, a));
                    } else {
                        assert(slots[a as int] == (i, a));
                        assert(all[before.len() + a] == (i, a));
                    }
                }
            }
            assert forall|x: int, y: int| 0 <= x < all.len() && 0 <= y < all.len() && x != y implies all[x] != all[y] by {
                if x < before.len() && y < before.len() {
                } else if x >= before.len() && y >= before.len() {
                    assert(slots[x - before.len()].1 != slots[y - before.len()].1);
                } else if x < before.len() {
                    assert(before[x] == (before[x].0, before[x].1));
                    assert(before.contains((before[x].0, before[x].1)));
                } else {
                    assert(before[y] == (before[y].0, before[y].1));
                    assert(before.contains((before[y].0, before[y].1)));
                }
            }
        } else {
            assert forall|i: usize, a: usize| #[trigger] all.contains((i, a)) <==> (i < ps.len()
                && policy_fires(ps[i as int], trust_score, ctx) && a < ps[i as int].actions@.len()) by {
                if i < n {
                    assert(rest[i as int] == ps[i as int]);
                }
                if all.contains((i, a)) {
                    assert(before.contains((i, a)));
                }
            }
        }
    }
}

/// A policy dispatches only when all of its conditions hold: with one failing
/// condition none of its actions is planned; with all holding (and the policy
/// enabled), each of its actions is planned exactly once.
pub proof fn lemma_policy_and_semantics(p: ResponsePolicy, trust_score: u64, ctx: TrustContext)
    requires
        p.actions@.len() <= usize::MAX,
    ensures
        (exists|c: int|
            0 <= c < p.conditions@.len() && !condition_holds(p.conditions@[c], trust_score, ctx))
            ==> planned_actions(seq![p], trust_score, ctx).len() == 0,
        p.enabled && (forall|c: int|
            0 <= c < p.conditions@.len() ==> condition_holds(p.conditions@[c], trust_score, ctx))
            ==> planned_actions(seq![p], trust_score, ctx) == action_slots(0, p.actions@.len()),
        forall|a: usize|
            a < p.actions@.len() && policy_fires(p, trust_score, ctx) ==> #[trigger] planned_actions(
                seq![p],
                trust_score,
                ctx,
            ).contains((0usize, a)),
        planned_actions(seq![p], trust_score, ctx).no_duplicates(),
{
    let ps = seq![p];
    assert(ps.drop_last() =~= Seq::<ResponsePolicy>::empty());
    assert(ps.last() == p);
    assert(planned_actions(ps.drop_last(), trust_score, ctx) == Seq::<(usize, usize)>::empty());
    assert(ps[0] == p);
    lemma_planned_actions(ps, trust_score, ctx);
    if policy_fires(p, trust_score, ctx) {
        assert(planned_actions(ps, trust_score, ctx) =~= action_slots(0, p.actions@.len()));
    }
}

/// An action of a firing policy is dispatched and reported in every evaluation
/// cycle, whatever became of the other actions of that policy.
pub proof fn lemma_each_action_reported(
    before: IncidentResponseEngine,
    after: IncidentResponseEngine,
    component: Seq<char>,
    trust_score: u64,
    ctx: TrustContext,
    now: i64,
    lines: Seq<String>,
    i: usize,
    a: usize,
)
    requires
        before.update_applied(after, component, trust_score, ctx, now, lines),
        before.response_policies@.len() <= usize::MAX,
        forall|j: int|
            0 <= j < before.response_policies@.len() ==> (#[trigger] before.response_policies@[j]).actions@.len()
                <= usize::MAX,
        i < before.response_policies@.len(),
        policy_fires(before.response_policies@[i as int], trust_score, ctx),
        a < before.response_policies@[i as int].actions@.len(),
    ensures
        exists|k: int|
            0 <= k < lines.len() && (#[trigger] lines[k])@ == dispatch_message(
                before.action_executors@,
                before.response_policies@[i as int].actions@[a as int],
            ),
{
    let ps = before.response_policies@;
    let plan = planned_actions(ps, trust_score, ctx);
    lemma_planned_actions(ps, trust_score, ctx);
    assert(plan.contains((i, a)));
    let k = choose|k: int| 0 <= k < plan.len() && plan[k] == (i, a);
    assert(lines[k]@ == dispatch_message(before.action_executors@, action_at(ps, plan[k])));
}

} // verus!
