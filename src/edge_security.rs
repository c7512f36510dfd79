//! Status and response vocabulary of edge-node security monitoring.
use vstd::prelude::*;

verus! {

#[derive(Clone, Copy, Debug, PartialEq, Eq, Structural)]
pub enum SecurityStatus {
    Secure,
    Suspicious,
    Compromised,
    UnderAttack,
    Isolated,
}

#[derive(Clone, Copy, Debug, PartialEq, Eq, Structural)]
pub enum ResponseType {
    Isolation,
    Quarantine,
    Alert,
    Mitigation,
    Recovery,
}

#[derive(Clone, Copy, Debug, PartialEq, Eq, Structural)]
pub enum ResponseStatus {
    Pending,
    InProgress,
    Completed,
    Failed,
}

#[derive(Clone, Copy, Debug, PartialEq, Eq, Structural)]
pub enum NodeType {
    SmartCity,
    IndustrialIoT,
    EdgeCloud,
    LegacySystem,
}

#[derive(Clone, Debug)]
pub struct SecurityRule {
    pub rule_id: String,
    pub condition: String,
    pub action: String,
    pub priority: i32,
}

#[derive(Clone, Copy, Debug, PartialEq, Eq, Structural)]
pub enum ContainerStatus {
    Trusted,
    Suspicious,
    Compromised,
    Isolated,
}

} // verus!
