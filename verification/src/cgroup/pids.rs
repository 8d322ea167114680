//! Per-cgroup process counting for the `pids` limit on `fork`.

use vstd::prelude::*;

verus! {

/// Per-cgroup process count and limit.
#[derive(Debug, Clone, Copy)]
pub struct PidsState {
    /// Current number of processes.
    pub current: i64,
    /// Maximum allowed; negative means unlimited.
    pub max: i64,
}

impl PidsState {
    /// No processes, no limit.
    pub fn new() -> (p: Self)
        ensures
            p == (PidsState { current: 0, max: -1i64 }),
    {
        PidsState { current: 0, max: -1 }
    }

    /// What a fork asks of `before`, leaving `after` and answering `ok`:
    /// without a limit the count always grows (wrapping as an atomic
    /// addition does); with one it grows only below the limit.
    pub open spec fn fork_outcome(before: Self, after: Self, ok: bool) -> bool {
        &&& before.max < 0 ==> ok && after == (PidsState {
            current: vstd::wrapping::i64_specs::wrapping_add(before.current, 1),
            ..before
        })
        &&& before.max >= 0 && before.current >= before.max ==> !ok && after == before
        &&& before.max >= 0 && before.current < before.max ==> ok && after == (PidsState {
            current: (before.current + 1) as i64,
            ..before
        })
    }

    /// Admits one more process if the limit allows it, counting it; returns
    /// whether it was admitted. Without a limit the count always grows
    /// (wrapping as an atomic addition does).
    pub fn try_fork(&mut self) -> (ok: bool)
        ensures
            Self::fork_outcome(*old(self), *final(self), ok),
    {
        if self.max < 0 {
            self.current = self.current.wrapping_add(1);
            return true;
        }
        if self.current >= self.max {
            return false;
        }
        self.current = self.current + 1;
        true
    }

    /// Counts one process fewer (wrapping as an atomic subtraction does).
    pub fn exit(&mut self)
        ensures
            *final(self) == (PidsState {
                current: vstd::wrapping::i64_specs::wrapping_sub(old(self).current, 1),
                ..*old(self)
            }),
    {
        self.current = self.current.wrapping_sub(1);
    }
}

} // verus!
