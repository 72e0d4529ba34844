use vstd::prelude::*;

verus! {

/// Ranges that a scenario sets for every entity of a role.
#[derive(Clone, Copy, Debug, PartialEq, Eq, Structural)]
pub struct Performance {
    pub scout: ScoutPerformance,
    pub messenger: MessengerPerformance,
    pub attacker: AttackerPerformance,
}

/// Scout ranges in metres; the communication range is reserved.
#[derive(Clone, Copy, Debug, PartialEq, Eq, Structural)]
pub struct ScoutPerformance {
    pub comm_range_m: i64,
    pub detect_range_m: i64,
}

/// Messenger communication range in metres (reserved).
#[derive(Clone, Copy, Debug, PartialEq, Eq, Structural)]
pub struct MessengerPerformance {
    pub comm_range_m: i64,
}

/// Attacker blast range in metres, reported with each detonation.
#[derive(Clone, Copy, Debug, PartialEq, Eq, Structural)]
pub struct AttackerPerformance {
    pub bom_range_m: i64,
}

} // verus!
