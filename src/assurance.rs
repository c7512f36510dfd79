//! Data of the continual-assurance side: score factors, data sources and alerts.
use vstd::prelude::*;
use crate::clock::now_millis;
use crate::text::{score_string, score_text, seconds_from_millis, seconds_of, signed_decimal_string, signed_decimal_text};

verus! {

#[derive(Clone, Copy, Debug, PartialEq, Eq, Structural)]
pub enum FactorType {
    SecurityEvent,
    PerformanceMetric,
    BehavioralAnomaly,
    ComplianceStatus,
    DependencyHealth,
    CommunicationQuality,
}

#[derive(Clone, Copy, Debug, PartialEq, Eq, Structural)]
pub enum CalculationMethod {
    WeightedAverage,
    MachineLearning,
    Bayesian,
    Ensemble,
}

#[derive(Clone, Copy, Debug, PartialEq, Eq, Structural)]
pub enum ComponentStatus {
    Healthy,
    Warning,
    Critical,
    Unknown,
    Isolated,
}

#[derive(Clone, Copy, Debug, PartialEq, Eq, Structural)]
pub enum AggregationMethod {
    WeightedAverage,
    Maximum,
    Minimum,
    Median,
    Ensemble,
}

#[derive(Clone, Copy, Debug, PartialEq, Eq, Structural)]
pub enum AlertType {
    TrustScoreLow,
    SecurityViolation,
    PerformanceDegradation,
    BehavioralAnomaly,
    DependencyFailure,
    CommunicationFailure,
}

#[derive(Clone, Copy, Debug, PartialEq, Eq, Structural)]
pub enum AlertSeverity {
    Low,
    Medium,
    High,
    Critical,
}

#[derive(Clone, Copy, Debug, PartialEq, Eq, Structural)]
pub enum AlertStatus {
    Active,
    Acknowledged,
    Resolved,
    Suppressed,
}

#[derive(Clone, Copy, Debug, PartialEq, Eq, Structural)]
pub enum ComparisonOperator {
    GreaterThan,
    LessThan,
    EqualTo,
    NotEqualTo,
    GreaterThanOrEqual,
    LessThanOrEqual,
}

#[derive(Clone, Copy, Debug, PartialEq, Eq, Structural)]
pub enum ActionType {
    SendNotification,
    TriggerWorkflow,
    IsolateComponent,
    ScaleResources,
    UpdateConfiguration,
}

#[derive(Clone, Copy, Debug, PartialEq, Eq, Structural)]
pub enum ChannelType {
    Email,
    Slack,
    Webhook,
    PagerDuty,
    Custom,
}

#[derive(Clone, Debug)]
pub struct EscalationAction {
    pub action_type: ActionType,
    pub target: String,
    pub parameters: Vec<(String, String)>,
}

#[derive(Clone, Debug)]
pub struct NotificationChannel {
    pub channel_id: String,
    pub channel_type: ChannelType,
    pub endpoint: String,
    pub enabled: bool,
}

/// An advisory notice about one component, independent of incidents.
#[derive(Clone, Debug)]
pub struct Alert {
    pub alert_id: String,
    pub component_id: String,
    pub alert_type: AlertType,
    pub severity: AlertSeverity,
    pub message: String,
    pub timestamp: i64,
    pub status: AlertStatus,
}

/// A Prometheus endpoint that feeds observations.
pub struct PrometheusDataSource {
    pub endpoint: String,
    pub query: String,
    pub name: String,
}

/// An Elasticsearch index that feeds observations.
pub struct ELKDataSource {
    pub elasticsearch_url: String,
    pub index_pattern: String,
    pub name: String,
}

impl PrometheusDataSource {
    pub fn get_source_name(&self) -> (r: String)
        ensures
            r@ == self.name@,
    {
        self.name.clone()
    }

    /// No probe is made: the source reports healthy.
    pub fn is_healthy(&self) -> (r: bool)
        ensures
            r,
    {
        true
    }
}

impl ELKDataSource {
    pub fn get_source_name(&self) -> (r: String)
        ensures
            r@ == self.name@,
    {
        self.name.clone()
    }

    /// No probe is made: the source reports healthy.
    pub fn is_healthy(&self) -> (r: bool)
        ensures
            r,
    {
        true
    }
}

/// Score levels below which alerts are raised, in millionths.
#[derive(Clone, Copy, Debug)]
pub struct TrustThresholds {
    pub critical: u64,
    pub warning: u64,
    pub normal: u64,
}

#[derive(Clone, Debug)]
pub struct EscalationCondition {
    pub metric_name: String,
    pub operator: ComparisonOperator,
    pub threshold: u64,
    pub duration_secs: u64,
}

#[derive(Clone, Debug)]
pub struct EscalationPolicy {
    pub policy_id: String,
    pub conditions: Vec<EscalationCondition>,
    pub actions: Vec<EscalationAction>,
    pub timeout_secs: u64,
}

/// The alert store.
pub struct AlertManager {
    pub alerts: Vec<Alert>,
    pub escalation_policies: Vec<EscalationPolicy>,
    pub notification_channels: Vec<NotificationChannel>,
}

/// `a` is a new active low-trust alert for `component`, raised at `now` with
/// this severity, whose id and message name `level`.
pub open spec fn raised_alert(
    a: Alert,
    component: Seq<char>,
    score: u64,
    now: i64,
    severity: AlertSeverity,
    level: Seq<char>,
    label: Seq<char>,
) -> bool {
    &&& a.alert_id@ == component + "-"@ + level + "-"@ + signed_decimal_text(seconds_of(now))
    &&& a.component_id@ == component
    &&& a.alert_type == AlertType::TrustScoreLow
    &&& a.severity == severity
    &&& a.message@ == label + " trust score: "@ + score_text(score)
    &&& a.timestamp == now
    &&& a.status == AlertStatus::Active
}

/// Positions of the active alerts, in order.
pub open spec fn active_positions(alerts: Seq<Alert>) -> Seq<int>
    decreases alerts.len(),
{
    if alerts.len() == 0 {
        Seq::empty()
    } else {
        let before = active_positions(alerts.drop_last());
        if alerts.last().status == AlertStatus::Active {
            before.push(alerts.len() - 1)
        } else {
            before
        }
    }
}

/// A new low-trust alert.
fn new_alert(
    component_id: &String,
    score: u64,
    now: i64,
    severity: AlertSeverity,
    level: &str,
    label: &str,
) -> (a: Alert)
    ensures
        raised_alert(a, component_id@, score, now, severity, level@, label@),
{
    let mut id = component_id.clone();
    id.append("-");
    id.append(level);
    id.append("-");
    let secs = signed_decimal_string(seconds_from_millis(now));
    id.append(secs.as_str());
    let mut message = String::from_str(label);
    message.append(" trust score: ");
    let text = score_string(score);
    message.append(text.as_str());
    Alert {
        alert_id: id,
        component_id: component_id.clone(),
        alert_type: AlertType::TrustScoreLow,
        severity,
        message,
        timestamp: now,
        status: AlertStatus::Active,
    }
}

impl AlertManager {
    /// An empty store.
    pub fn new() -> (r: AlertManager)
        ensures
            r.alerts@.len() == 0,
    {
        AlertManager { alerts: Vec::new(), escalation_policies: Vec::new(), notification_channels: Vec::new() }
    }

    /// Raises a critical alert below the critical level, else a medium one below
    /// the warning level; above both, nothing happens.
    pub fn check_alerts_at(&mut self, component_id: &String, trust_score: u64, thresholds: &TrustThresholds, now: i64)
        ensures
            trust_score < thresholds.critical ==> final(self).alerts@.len() == old(self).alerts@.len() + 1
                && final(self).alerts@.drop_last() == old(self).alerts@ && raised_alert(
                final(self).alerts@.last(),
                component_id@,
                trust_score,
                now,
                AlertSeverity::Critical,
                "critical"@,
                "Critical"@,
            ),
            thresholds.critical <= trust_score < thresholds.warning ==> final(self).alerts@.len()
                == old(self).alerts@.len() + 1 && final(self).alerts@.drop_last() == old(self).alerts@
                && raised_alert(
                final(self).alerts@.last(),
                component_id@,
                trust_score,
                now,
                AlertSeverity::Medium,
                "warning"@,
                "Warning"@,
            ),
            trust_score >= thresholds.critical && trust_score >= thresholds.warning ==> final(self).alerts@
                == old(self).alerts@,
    {
        if trust_score < thresholds.critical {
            let a = new_alert(component_id, trust_score, now, AlertSeverity::Critical, "critical", "Critical");
            self.alerts.push(a);
            assert(self.alerts@.drop_last() =~= old(self).alerts@);
        } else if trust_score < thresholds.warning {
            let a = new_alert(component_id, trust_score, now, AlertSeverity::Medium, "warning", "Warning");
            self.alerts.push(a);
            assert(self.alerts@.drop_last() =~= old(self).alerts@);
        }
    }

    /// Checks a score against the thresholds now.
    pub fn check_alerts(&mut self, component_id: &String, trust_score: u64, thresholds: &TrustThresholds)
        ensures
            trust_score < thresholds.critical || trust_score < thresholds.warning ==> final(self).alerts@.len()
                == old(self).alerts@.len() + 1 && final(self).alerts@.drop_last() == old(self).alerts@,
            trust_score < thresholds.critical ==> exists|now: i64|
                raised_alert(
                    final(self).alerts@.last(),
                    component_id@,
                    trust_score,
                    now,
                    AlertSeverity::Critical,
                    "critical"@,
                    "Critical"@,
                ),
            thresholds.critical <= trust_score < thresholds.warning ==> exists|now: i64|
                raised_alert(
                    final(self).alerts@.last(),
                    component_id@,
                    trust_score,
                    now,
                    AlertSeverity::Medium,
                    "warning"@,
                    "Warning"@,
                ),
            trust_score >= thresholds.critical && trust_score >= thresholds.warning ==> final(self).alerts@
                == old(self).alerts@,
    {
        let now = now_millis();
        self.check_alerts_at(component_id, trust_score, thresholds, now);
        proof {
            if trust_score < thresholds.critical {
                assert(raised_alert(
                    self.alerts@.last(),
                    component_id@,
                    trust_score,
                    now,
                    AlertSeverity::Critical,
                    "critical"@,
                    "Critical"@,
                ));
            } else if trust_score < thresholds.warning {
                assert(raised_alert(
                    self.alerts@.last(),
                    component_id@,
                    trust_score,
                    now,
                    AlertSeverity::Medium,
                    "warning"@,
                    "Warning"@,
                ));
            }
        }
    }

    /// The alerts still active, in order.
    pub fn get_active_alerts(&self) -> (r: Vec<Alert>)
        ensures
            r@.len() == active_positions(self.alerts@).len(),
            forall|k: int|
                0 <= k < r@.len() ==> {
                    let a = self.alerts@[active_positions(self.alerts@)[k]];
                    &&& (#[trigger] r@[k]).alert_id@ == a.alert_id@
                    &&& r@[k].component_id@ == a.component_id@
                    &&& r@[k].message@ == a.message@
                    &&& r@[k].severity == a.severity
                    &&& r@[k].status == AlertStatus::Active
                },
    {
        let ghost all = self.alerts@;
        let mut r: Vec<Alert> = Vec::new();
        let mut i: usize = 0;
        while i < self.alerts.len()
            invariant
                all == self.alerts@,
                i <= all.len(),
                r@.len() == active_positions(all.subrange(0, i as int)).len(),
                forall|k: int|
                    0 <= k < r@.len() ==> {
                        let a = all[active_positions(all.subrange(0, i as int))[k]];
                        &&& (#[trigger] r@[k]).alert_id@ == a.alert_id@
                        &&& r@[k].component_id@ == a.component_id@
                        &&& r@[k].message@ == a.message@
                        &&& r@[k].severity == a.severity
                        &&& r@[k].status == AlertStatus::Active
                    },
                forall|k: int|
                    0 <= k < active_positions(all.subrange(0, i as int)).len() ==> 0 <= #[trigger] active_positions(
                        all.subrange(0, i as int),
                    )[k] < i,
            decreases all.len() - i,
        {
            let ghost sub = all.subrange(0, i as int);
            let ghost sub2 = all.subrange(0, i + 1);
            assert(sub2.drop_last() == sub);
            assert(sub2.last() == all[i as int]);
            let a = &self.alerts[i];
            if a.status == AlertStatus::Active {
                r.push(Alert {
                    alert_id: a.alert_id.clone(),
                    component_id: a.component_id.clone(),
                    alert_type: a.alert_type,
                    severity: a.severity,
                    message: a.message.clone(),
                    timestamp: a.timestamp,
                    status: a.status,
                });
                assert(active_positions(sub2) == active_positions(sub).push(i as int));
            }
            i = i + 1;
        }
        assert(all.subrange(0, all.len() as int) == all);
        r
    }
}

} // verus!
