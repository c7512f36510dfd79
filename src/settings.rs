//! Configuration records and risk categories.
use vstd::prelude::*;

verus! {

#[derive(Clone, Copy, Debug, PartialEq, Eq, Structural)]
pub enum RiskFactorType {
    Vulnerability,
    PerformanceDegradation,
    AnomalousBehavior,
    ComplianceViolation,
    DependencyFailure,
    CommunicationFailure,
}

#[derive(Clone, Debug)]
pub struct DataSourceConfig {
    pub name: String,
    pub source_type: String,
    pub endpoint: String,
    pub credentials: Option<Vec<(String, String)>>,
    pub enabled: bool,
}

#[derive(Clone, Debug)]
pub struct NotificationConfig {
    pub channel_id: String,
    pub channel_type: String,
    pub endpoint: String,
    pub enabled: bool,
}

#[derive(Clone, Debug)]
pub struct EscalationPolicyConfig {
    pub policy_id: String,
    pub name: String,
    pub conditions: Vec<String>,
    pub actions: Vec<String>,
    pub priority: u32,
}

} // verus!
