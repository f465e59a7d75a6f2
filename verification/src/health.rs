use vstd::prelude::*;
use vstd::string::*;
use crate::error::Error;

verus! {

/// The server states the health endpoint can report. Any status code
/// outside the fixed enumeration is an error.
#[derive(Clone, Copy, Debug, PartialEq, Eq)]
pub enum HealthStatus {
    Active,
    Standby,
    Recovery,
    Performance,
    Uninitialized,
    Sealed,
}

/// The health state a status code stands for, if any.
pub open spec fn spec_health_of(status: u16) -> Option<HealthStatus> {
    if status == 200 {
        Some(HealthStatus::Active)
    } else if status == 429 {
        Some(HealthStatus::Standby)
    } else if status == 472 {
        Some(HealthStatus::Recovery)
    } else if status == 473 {
        Some(HealthStatus::Performance)
    } else if status == 501 {
        Some(HealthStatus::Uninitialized)
    } else if status == 503 {
        Some(HealthStatus::Sealed)
    } else {
        None
    }
}

impl HealthStatus {
    /// Map the health endpoint's HTTP status code to a health state;
    /// any code outside the enumeration is a store-level error.
    #[allow(non_snake_case)]
    pub fn fromHTTPStatus(status: u16) -> (r: Result<Self, Error>)
        ensures
            match r {
                Ok(h) => spec_health_of(status) == Some(h),
                Err(e) => spec_health_of(status) is None && e is VaultError,
            },
    {
        match status {
            200 => Ok(HealthStatus::Active),
            429 => Ok(HealthStatus::Standby),
            472 => Ok(HealthStatus::Recovery),
            473 => Ok(HealthStatus::Performance),
            501 => Ok(HealthStatus::Uninitialized),
            503 => Ok(HealthStatus::Sealed),
            _ => Err(Error::VaultError(String::from_str("Invalid status code from health"))),
        }
    }

    /// The lower-case name of the state.
    pub open spec fn spec_name(&self) -> Seq<char> {
        match self {
            HealthStatus::Active => "active"@,
            HealthStatus::Standby => "standby"@,
            HealthStatus::Recovery => "recovery"@,
            HealthStatus::Performance => "performance"@,
            HealthStatus::Uninitialized => "uninitialized"@,
            HealthStatus::Sealed => "sealed"@,
        }
    }

    /// The lower-case name of the state, for display.
    pub fn name(&self) -> (r: &'static str)
        ensures
            r@ == self.spec_name(),
    {
        match self {
            HealthStatus::Active => "active",
            HealthStatus::Standby => "standby",
            HealthStatus::Recovery => "recovery",
            HealthStatus::Performance => "performance",
            HealthStatus::Uninitialized => "uninitialized",
            HealthStatus::Sealed => "sealed",
        }
    }
}

} // verus!
