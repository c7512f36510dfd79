//! Status and response vocabulary of cross-domain security monitoring.
use vstd::prelude::*;

verus! {

#[derive(Clone, Copy, Debug, PartialEq, Eq, Structural)]
pub enum SecurityDomain {
    SmartCity,
    IndustrialIoT,
    Transportation,
    EnergyGrid,
    Healthcare,
    Finance,
}

#[derive(Clone, Copy, Debug, PartialEq, Eq, Structural)]
pub enum HardwareType {
    LegacyX86,
    ModernARM,
    EdgeRISC,
    WebAssembly,
    Containerized,
    Serverless,
}

#[derive(Clone, Copy, Debug, PartialEq, Eq, Structural)]
pub enum SecurityStatus {
    Secure,
    Suspicious,
    Compromised,
    UnderAttack,
    Isolated,
    CrossDomainThreat,
}

#[derive(Clone, Copy, Debug, PartialEq, Eq, Structural)]
pub enum ResponseType {
    Isolation,
    Quarantine,
    Alert,
    Mitigation,
    Recovery,
    CrossDomainContainment,
}

#[derive(Clone, Copy, Debug, PartialEq, Eq, Structural)]
pub enum ResponseStatus {
    Pending,
    InProgress,
    Completed,
    Failed,
    CrossDomainPending,
}

#[derive(Clone, Debug)]
pub struct SecurityRule {
    pub rule_id: String,
    pub condition: String,
    pub action: String,
    pub priority: i32,
    pub cross_domain: bool,
}

} // verus!
