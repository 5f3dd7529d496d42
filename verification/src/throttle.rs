//! The throttles in front of the incremental session imports (five seconds)
//! and of the project backfill (thirty seconds).
use vstd::prelude::*;

verus! {

/// Minimum spacing of two throttled imports, in milliseconds.
pub const IMPORT_THROTTLE_MS: u64 = 5000;

/// Minimum spacing of two project backfills, in milliseconds.
pub const BACKFILL_THROTTLE_MS: u64 = 30000;

/// When the last throttled import was started, on a monotonic clock (ms).
pub struct ImportThrottle {
    pub last_import_ms: Option<u64>,
}

/// An import is due unless one started less than five seconds ago; a clock
/// reading before the last start counts as no time elapsed.
pub open spec fn import_due(last: Option<u64>, now_ms: u64) -> bool {
    match last {
        None => true,
        Some(t) => now_ms >= t && now_ms - t >= IMPORT_THROTTLE_MS,
    }
}

/// A run is due unless one started less than `spacing_ms` ago; a clock
/// reading before the last start counts as no time elapsed.
pub open spec fn due_after(last: Option<u64>, now_ms: u64, spacing_ms: u64) -> bool {
    match last {
        None => true,
        Some(t) => now_ms >= t && now_ms - t >= spacing_ms,
    }
}

impl ImportThrottle {
    /// Whether a run is due at `now_ms` with runs at least `spacing_ms`
    /// apart; a due run is recorded as started.
    pub fn check_every(&mut self, now_ms: u64, spacing_ms: u64) -> (run: bool)
        ensures
            run == due_after(old(self).last_import_ms, now_ms, spacing_ms),
            final(self).last_import_ms == if run {
                Some(now_ms)
            } else {
                old(self).last_import_ms
            },
    {
        let due = match self.last_import_ms {
            None => true,
            Some(t) => now_ms >= t && now_ms - t >= spacing_ms,
        };
        if due {
            self.last_import_ms = Some(now_ms);
        }
        due
    }

    /// Whether an import is due at `now_ms`; a due import is recorded as
    /// started (a failing import counts too, so failures do not storm).
    pub fn check(&mut self, now_ms: u64) -> (run: bool)
        ensures
            run == import_due(old(self).last_import_ms, now_ms),
            final(self).last_import_ms == if run {
                Some(now_ms)
            } else {
                old(self).last_import_ms
            },
    {
        let due = match self.last_import_ms {
            None => true,
            Some(t) => now_ms >= t && now_ms - t >= IMPORT_THROTTLE_MS,
        };
        if due {
            self.last_import_ms = Some(now_ms);
        }
        due
    }
}

/// Right after an import started at `t`, no import is due before `t + 5000`.
pub proof fn lemma_throttle_spacing(t: u64, later: u64)
    requires
        later < t + IMPORT_THROTTLE_MS,
    ensures
        !import_due(Some(t), later),
{
}

/// Without any earlier import, the first call always imports.
pub proof fn lemma_first_import_runs(now_ms: u64)
    ensures
        import_due(None, now_ms),
{
}

} // verus!
