use vstd::prelude::*;

verus! {

/// What the periodic local export is to do this run.
#[derive(Debug, PartialEq, Eq, Structural)]
pub enum ExportPlan {
    /// The last export is recent enough; do nothing.
    Skip,
    /// An export is due but no key owner is configured: fail.
    MissingGpgUser,
    /// Export, encrypt to the configured key owner, and record the time.
    Export,
}

/// Whether an export is due and can go ahead: due when no export was ever
/// recorded, or when at least `period` seconds passed since the last one;
/// a due export without a configured key owner is a failure.
pub open spec fn spec_export_decision(
    now: i64,
    last: Option<i64>,
    period: i64,
    has_gpg_user: bool,
) -> ExportPlan {
    let due = match last {
        Some(l) => now - l >= period,
        None => true,
    };
    if !due {
        ExportPlan::Skip
    } else if !has_gpg_user {
        ExportPlan::MissingGpgUser
    } else {
        ExportPlan::Export
    }
}

/// Decide the periodic export from the clock reading, the recorded time of
/// the last export, the configured period and whether a key owner is
/// configured. Times are in seconds on one epoch.
pub fn export_decision(now: i64, last: Option<i64>, period: i64, has_gpg_user: bool) -> (r:
    ExportPlan)
    ensures
        r == spec_export_decision(now, last, period, has_gpg_user),
{
    let due = match last {
        Some(l) => (now as i128) - (l as i128) >= (period as i128),
        None => true,
    };
    if !due {
        ExportPlan::Skip
    } else if !has_gpg_user {
        ExportPlan::MissingGpgUser
    } else {
        ExportPlan::Export
    }
}

} // verus!
