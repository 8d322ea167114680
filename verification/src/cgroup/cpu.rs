//! Per-cgroup `cpu` state as the scheduler's tick hook sees it: the CFS
//! quota and period, the weight, and the bandwidth accounting of the
//! current period.

use vstd::prelude::*;

verus! {

/// Per-cgroup `cpu.max` bandwidth state.
#[derive(Debug, Clone, Copy)]
pub struct BandwidthState {
    /// Quota in microseconds; negative means unlimited.
    pub quota: i64,
    /// Period in microseconds.
    pub period: i64,
    /// Time consumed in the current period, in microseconds.
    pub consumed: i64,
    /// Periods elapsed.
    pub nr_periods: u64,
    /// Ticks on which the cgroup was over its quota.
    pub nr_throttled: u64,
    /// Total throttled time in microseconds.
    pub throttled_usec: u64,
    /// Start of the current period, in microseconds since boot.
    pub period_start: u64,
}

/// What the scheduler does to the running task after a tick: first lift
/// its throttling if a new period began, then throttle it if the cgroup is
/// over its quota.
#[derive(Debug, Clone, Copy, PartialEq, Eq, Structural)]
pub struct TickActions {
    pub unthrottle: bool,
    pub throttle: bool,
}

/// The CPU time one scheduler tick accounts for, in microseconds.
pub const TICK_USEC: i64 = 1000;

impl BandwidthState {
    /// Unlimited, with a 100 ms period and nothing consumed.
    pub fn new() -> (b: Self)
        ensures
            b == (BandwidthState {
                quota: -1i64,
                period: 100_000,
                consumed: 0,
                nr_periods: 0,
                nr_throttled: 0,
                throttled_usec: 0,
                period_start: 0,
            }),
    {
        BandwidthState {
            quota: -1,
            period: 100_000,
            consumed: 0,
            nr_periods: 0,
            nr_throttled: 0,
            throttled_usec: 0,
            period_start: 0,
        }
    }

    /// A quota is set.
    pub fn has_quota(&self) -> (r: bool)
        ensures
            r == (self.quota >= 0),
    {
        self.quota >= 0
    }

    /// A quota is set and the current period has used it up.
    pub fn is_throttled(&self) -> (r: bool)
        ensures
            r == (self.quota >= 0 && self.consumed >= self.quota),
    {
        if self.quota < 0 {
            return false;
        }
        self.consumed >= self.quota
    }

    /// Consumes `usec` of the quota; returns whether the cgroup is now over
    /// its quota, counting a throttle when it is. Counters wrap around as
    /// atomic additions do.
    pub fn consume(&mut self, usec: i64) -> (throttled: bool)
        ensures
            old(self).quota < 0 ==> !throttled && *final(self) == *old(self),
            old(self).quota >= 0 ==> {
                let c = vstd::wrapping::i64_specs::wrapping_add(old(self).consumed, usec);
                &&& throttled == (c >= old(self).quota)
                &&& *final(self) == (if c >= old(self).quota {
                    BandwidthState {
                        consumed: c,
                        nr_throttled: vstd::wrapping::u64_specs::wrapping_add(old(self).nr_throttled, 1),
                        ..*old(self)
                    }
                } else {
                    BandwidthState { consumed: c, ..*old(self) }
                })
            },
    {
        if self.quota < 0 {
            return false;
        }
        let consumed = self.consumed.wrapping_add(usec);
        self.consumed = consumed;
        if consumed >= self.quota {
            self.nr_throttled = self.nr_throttled.wrapping_add(1);
            true
        } else {
            false
        }
    }

    /// Starts a new period: nothing consumed, one more period counted.
    pub fn reset_period(&mut self)
        ensures
            *final(self) == (BandwidthState {
                consumed: 0,
                nr_periods: vstd::wrapping::u64_specs::wrapping_add(old(self).nr_periods, 1),
                ..*old(self)
            }),
    {
        self.consumed = 0;
        self.nr_periods = self.nr_periods.wrapping_add(1);
    }

    /// What a tick at `now_us` does to `before`, leaving `after` and asking
    /// for `act`: nothing without a quota; otherwise, once a whole period
    /// has passed since `period_start`, a new period starts at `now_us` and
    /// the task is unthrottled; then one tick is consumed and the task is
    /// throttled when the quota is used up.
    pub open spec fn tick_outcome(before: Self, after: Self, now_us: u64, act: TickActions) -> bool {
        &&& before.quota < 0 ==> act == (TickActions { unthrottle: false, throttle: false }) && after == before
        &&& before.quota >= 0 ==> {
            let expired = now_us - before.period_start >= (before.period as u64);
            let mid = if expired {
                BandwidthState {
                    consumed: 0,
                    nr_periods: vstd::wrapping::u64_specs::wrapping_add(before.nr_periods, 1),
                    period_start: now_us,
                    ..before
                }
            } else {
                before
            };
            let c = vstd::wrapping::i64_specs::wrapping_add(mid.consumed, TICK_USEC);
            &&& act.unthrottle == expired
            &&& act.throttle == (c >= mid.quota)
            &&& after == (if c >= mid.quota {
                BandwidthState {
                    consumed: c,
                    nr_throttled: vstd::wrapping::u64_specs::wrapping_add(mid.nr_throttled, 1),
                    ..mid
                }
            } else {
                BandwidthState { consumed: c, ..mid }
            })
        }
    }

    /// The bandwidth part of a scheduler tick at time `now_us` for a task of
    /// this cgroup.
    pub fn tick(&mut self, now_us: u64) -> (act: TickActions)
        requires
            old(self).period_start <= now_us,
        ensures
            Self::tick_outcome(*old(self), *final(self), now_us, act),
    {
        if !self.has_quota() {
            return TickActions { unthrottle: false, throttle: false };
        }
        let mut unthrottle = false;
        if now_us - self.period_start >= self.period as u64 {
            self.reset_period();
            self.period_start = now_us;
            unthrottle = true;
        }
        let throttle = self.consume(TICK_USEC);
        TickActions { unthrottle, throttle }
    }
}

/// A tick of a cgroup without a quota throttles nothing and changes
/// nothing.
pub proof fn tick_without_quota_never_throttles(b: BandwidthState, a: BandwidthState, now_us: u64, act: TickActions)
    requires
        BandwidthState::tick_outcome(b, a, now_us, act),
        b.quota < 0,
    ensures
        !act.throttle && !act.unthrottle,
        a == b,
{
}

/// A tick after the period has run out starts a new period there: the
/// cgroup is unthrottled, one more period is counted, and only this tick
/// is consumed; it is throttled again only if its quota is below a tick.
pub proof fn tick_after_period_restarts(b: BandwidthState, a: BandwidthState, now_us: u64, act: TickActions)
    requires
        BandwidthState::tick_outcome(b, a, now_us, act),
        b.quota >= 0,
        now_us - b.period_start >= (b.period as u64),
    ensures
        act.unthrottle,
        a.period_start == now_us,
        a.consumed == TICK_USEC,
        a.nr_periods == vstd::wrapping::u64_specs::wrapping_add(b.nr_periods, 1),
        act.throttle == (TICK_USEC >= b.quota),
{
    assert(vstd::wrapping::i64_specs::wrapping_add(0i64, TICK_USEC) == TICK_USEC);
}

/// With a zero quota every tick throttles, so long as the time consumed
/// cannot wrap.
pub proof fn tick_with_zero_quota_throttles(b: BandwidthState, a: BandwidthState, now_us: u64, act: TickActions)
    requires
        BandwidthState::tick_outcome(b, a, now_us, act),
        b.quota == 0,
        0 <= b.consumed <= i64::MAX - TICK_USEC,
    ensures
        act.throttle,
        a.consumed > 0,
{
}

/// Per-cgroup `cpu` state.
#[derive(Debug, Clone, Copy)]
pub struct CpuState {
    pub cfs_quota: i64,
    pub cfs_period: i64,
    pub weight: i64,
    pub bandwidth: BandwidthState,
}

impl CpuState {
    /// Unlimited quota, 100 ms period, weight 100, fresh bandwidth state.
    pub fn new() -> (c: Self)
        ensures
            c.cfs_quota == -1,
            c.cfs_period == 100_000,
            c.weight == 100,
            c.bandwidth == (BandwidthState {
                quota: -1i64,
                period: 100_000,
                consumed: 0,
                nr_periods: 0,
                nr_throttled: 0,
                throttled_usec: 0,
                period_start: 0,
            }),
    {
        CpuState { cfs_quota: -1, cfs_period: 100_000, weight: 100, bandwidth: BandwidthState::new() }
    }
}

} // verus!
