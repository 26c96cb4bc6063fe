//! Strategy bookkeeping types of the overseeing registry.

use vstd::prelude::*;

verus! {

/// Whether a strategy accepts traffic.
#[derive(Clone, Copy, Debug, PartialEq, Eq, Structural)]
pub enum Status {
    Active,
    Inactive,
    Maintenance,
}

/// Which deployment profile a strategy was rolled out under.
#[derive(Clone, Copy, Debug, PartialEq, Eq, Structural)]
pub enum DeploymentType {
    Custom,
    Production,
    Beta,
    Staging,
    Development,
}

/// A request to move one strategy to a new status.
#[derive(Clone, Debug, PartialEq, Eq)]
pub struct UpdateStatus {
    pub strategy_id: String,
    pub status: Status,
}

} // verus!
