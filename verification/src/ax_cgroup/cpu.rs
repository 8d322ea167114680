//! The `cpu` controller: `cpu.weight` and `cpu.max` state, and the
//! bandwidth accounting that the kernel's tick hook drives.

use vstd::prelude::*;
use vstd::string::StringExecFns;

use crate::ax_cgroup::controller::{attr_read_outcome, AttrError, AttrInfo};
use crate::text::{
    append_i64, append_u64, dec, is_max_word, is_utf8, max_word, parse_i64, read_text_at, sdec,
    spec_parse_i64, split_words, str_is, trim, trim_bounds, words,
};

verus! {

/// Per-cgroup `cpu.max` bandwidth state.
#[derive(Debug, Clone, Copy)]
pub struct BandwidthState {
    /// Quota in microseconds; negative means unlimited.
    pub quota: i64,
    /// Period in microseconds.
    pub period: i64,
    /// Time consumed in the current period, in microseconds.
    pub consumed: i64,
    /// Periods elapsed.
    pub nr_periods: u64,
    /// Ticks on which the cgroup was over its quota.
    pub nr_throttled: u64,
    /// Total throttled time in microseconds.
    pub throttled_usec: u64,
    /// Start of the current period, in microseconds since boot.
    pub period_start: u64,
}

/// The state `BandwidthState::new` builds.
pub open spec fn fresh_bandwidth() -> BandwidthState {
    BandwidthState {
        quota: -1i64,
        period: 100_000,
        consumed: 0,
        nr_periods: 0,
        nr_throttled: 0,
        throttled_usec: 0,
        period_start: 0,
    }
}

impl BandwidthState {
    /// Unlimited, with a 100 ms period and nothing consumed.
    pub fn new() -> (b: Self)
        ensures
            b == fresh_bandwidth(),
    {
        BandwidthState {
            quota: -1,
            period: 100_000,
            consumed: 0,
            nr_periods: 0,
            nr_throttled: 0,
            throttled_usec: 0,
            period_start: 0,
        }
    }

    /// A quota is set.
    pub fn has_quota(&self) -> (r: bool)
        ensures
            r == (self.quota >= 0),
    {
        self.quota >= 0
    }

    /// A quota is set and the current period has used it up.
    pub fn is_throttled(&self) -> (r: bool)
        ensures
            r == (self.quota >= 0 && self.consumed >= self.quota),
    {
        if self.quota < 0 {
            return false;
        }
        self.consumed >= self.quota
    }

    /// Consumes `usec` of the quota; returns whether the cgroup is now over
    /// its quota, counting a throttle when it is. Counters wrap around as
    /// atomic additions do.
    pub fn consume(&mut self, usec: i64) -> (throttled: bool)
        ensures
            old(self).quota < 0 ==> !throttled && *final(self) == *old(self),
            old(self).quota >= 0 ==> {
                let c = vstd::wrapping::i64_specs::wrapping_add(old(self).consumed, usec);
                &&& throttled == (c >= old(self).quota)
                &&& *final(self) == (if c >= old(self).quota {
                    BandwidthState {
                        consumed: c,
                        nr_throttled: vstd::wrapping::u64_specs::wrapping_add(old(self).nr_throttled, 1),
                        ..*old(self)
                    }
                } else {
                    BandwidthState { consumed: c, ..*old(self) }
                })
            },
    {
        if self.quota < 0 {
            return false;
        }
        let consumed = self.consumed.wrapping_add(usec);
        self.consumed = consumed;
        if consumed >= self.quota {
            self.nr_throttled = self.nr_throttled.wrapping_add(1);
            true
        } else {
            false
        }
    }

    /// Starts a new period: nothing consumed, one more period counted.
    pub fn reset_period(&mut self)
        ensures
            *final(self) == (BandwidthState {
                consumed: 0,
                nr_periods: vstd::wrapping::u64_specs::wrapping_add(old(self).nr_periods, 1),
                ..*old(self)
            }),
    {
        self.consumed = 0;
        self.nr_periods = self.nr_periods.wrapping_add(1);
    }
}

/// Per-cgroup `cpu` state.
#[derive(Debug, Clone, Copy)]
pub struct CpuState {
    /// The `cpu.max` quota; negative means `max`.
    pub cfs_quota: i64,
    /// The `cpu.max` period.
    pub cfs_period: i64,
    /// The `cpu.weight`.
    pub weight: i64,
    pub bandwidth: BandwidthState,
}

/// The state `CpuState::new` builds.
pub open spec fn fresh_cpu_state() -> CpuState {
    CpuState { cfs_quota: -1i64, cfs_period: 100_000, weight: 100, bandwidth: fresh_bandwidth() }
}

impl CpuState {
    /// Unlimited quota, 100 ms period, weight 100.
    pub fn new() -> (c: Self)
        ensures
            c == fresh_cpu_state(),
    {
        CpuState { cfs_quota: -1, cfs_period: 100_000, weight: 100, bandwidth: BandwidthState::new() }
    }
}

/// Tick hook for cgroup bandwidth accounting. The accounting itself needs
/// the current task and the clock, so the kernel drives it; this crate's
/// hook does nothing.
pub fn bandwidth_tick() {
}

/// The attributes of the `cpu` controller.
pub open spec fn cpu_attrs() -> Seq<(Seq<char>, bool)> {
    seq![("weight"@, false), ("max"@, false), ("stat"@, true)]
}

/// The text of a `cpu` attribute (named without the prefix), if any.
pub open spec fn cpu_attr_text(s: CpuState, name: Seq<char>) -> Option<Seq<char>> {
    if name == "weight"@ {
        Some(sdec(s.weight as int) + "\n"@)
    } else if name == "max"@ {
        Some(
            if s.cfs_quota < 0 {
                "max "@ + sdec(s.cfs_period as int) + "\n"@
            } else {
                sdec(s.cfs_quota as int) + " "@ + sdec(s.cfs_period as int) + "\n"@
            },
        )
    } else if name == "stat"@ {
        Some(
            "nr_periods "@ + dec(s.bandwidth.nr_periods as nat) + "\nnr_throttled "@ + dec(
                s.bandwidth.nr_throttled as nat,
            ) + "\nthrottled_usec "@ + dec(s.bandwidth.throttled_usec as nat) + "\n"@,
        )
    } else {
        None
    }
}

/// The quota and period a text written to `cpu.max` gives: two words, the
/// quota `max` (-1) or a number, then the period.
pub open spec fn cpu_max_parsed(t: Seq<u8>) -> Option<(i64, i64)> {
    let ws = words(t);
    if ws.len() != 2 {
        None
    } else {
        let q = if ws[0] == max_word() {
            Some(-1i64)
        } else {
            spec_parse_i64(ws[0])
        };
        match (q, spec_parse_i64(ws[1])) {
            (Some(q), Some(p)) => Some((q, p)),
            _ => None,
        }
    }
}

/// What a write of `data` to attribute `name` does. The data must be UTF-8
/// whatever the name; `weight` takes 1 to 10000, `max` a quota and a
/// period, `stat` is read-only.
pub open spec fn cpu_write_outcome(
    b: CpuState,
    a: CpuState,
    name: Seq<char>,
    data: Seq<u8>,
    r: Result<usize, AttrError>,
) -> bool {
    if !vstd::utf8::valid_utf8(data) {
        r == Err::<usize, AttrError>(AttrError::InvalidInput) && a == b
    } else {
        let t = trim(data);
        if name == "weight"@ {
            match spec_parse_i64(t) {
                Some(v) => if 1 <= v <= 10_000 {
                    r == Ok::<usize, AttrError>(data.len() as usize) && a == (CpuState { weight: v, ..b })
                } else {
                    r == Err::<usize, AttrError>(AttrError::InvalidInput) && a == b
                },
                None => r == Err::<usize, AttrError>(AttrError::InvalidInput) && a == b,
            }
        } else if name == "max"@ {
            match cpu_max_parsed(t) {
                Some((q, p)) => r == Ok::<usize, AttrError>(data.len() as usize) && a == (CpuState {
                    cfs_quota: q,
                    cfs_period: p,
                    ..b
                }),
                None => r == Err::<usize, AttrError>(AttrError::InvalidInput) && a == b,
            }
        } else if name == "stat"@ {
            r == Err::<usize, AttrError>(AttrError::OperationNotPermitted) && a == b
        } else {
            r == Err::<usize, AttrError>(AttrError::NotFound) && a == b
        }
    }
}

fn cpu_attr_list() -> (v: Vec<AttrInfo>)
    ensures
        v@.map_values(|a: AttrInfo| (a.name@, a.read_only)) == cpu_attrs(),
{
    let mut v = Vec::new();
    v.push(AttrInfo { name: "weight", read_only: false });
    v.push(AttrInfo { name: "max", read_only: false });
    v.push(AttrInfo { name: "stat", read_only: true });
    assert(v@.map_values(|a: AttrInfo| (a.name@, a.read_only)) =~= cpu_attrs());
    v
}

/// The `cpu` controller instance of one cgroup.
pub struct CpuController {
    state: CpuState,
}

impl CpuController {
    pub closed spec fn spec_state(&self) -> CpuState {
        self.state
    }

    pub fn new(state: CpuState) -> (c: Self)
        ensures
            c.spec_state() == state,
    {
        CpuController { state }
    }

    /// The controller's state.
    pub fn state(&self) -> (s: &CpuState)
        ensures
            *s == self.spec_state(),
    {
        &self.state
    }

    /// The controller's state, to change it (as accounting does).
    pub fn state_mut(&mut self) -> (s: &mut CpuState)
        ensures
            *s == old(self).spec_state(),
            final(self).spec_state() == *final(s),
    {
        &mut self.state
    }

    pub fn name(&self) -> (s: &'static str)
        ensures
            s@ == "cpu"@,
    {
        "cpu"
    }

    /// `cpu` is a domain controller.
    pub fn is_domain(&self) -> (d: bool)
        ensures
            d,
    {
        true
    }

    /// Reads `weight`, `max` or `stat` at `offset` into `buf`.
    pub fn read_attr(&self, name: &str, offset: usize, buf: &mut [u8]) -> (r: Result<usize, AttrError>)
        ensures
            attr_read_outcome(cpu_attr_text(self.spec_state(), name@), offset as nat, old(buf)@, final(buf)@, r),
    {
        let mut text = String::new();
        if str_is(name, "weight") {
            append_i64(&mut text, self.state.weight);
        } else if str_is(name, "max") {
            if self.state.cfs_quota < 0 {
                text.append("max ");
                append_i64(&mut text, self.state.cfs_period);
            } else {
                append_i64(&mut text, self.state.cfs_quota);
                text.append(" ");
                append_i64(&mut text, self.state.cfs_period);
            }
        } else if str_is(name, "stat") {
            text.append("nr_periods ");
            append_u64(&mut text, self.state.bandwidth.nr_periods);
            text.append("\nnr_throttled ");
            append_u64(&mut text, self.state.bandwidth.nr_throttled);
            text.append("\nthrottled_usec ");
            append_u64(&mut text, self.state.bandwidth.throttled_usec);
        } else {
            return Err(AttrError::NotFound);
        }
        text.append("\n");
        Ok(read_text_at(&text, offset, buf))
    }

    /// Writes `weight` or `max`; `stat` is read-only.
    pub fn write_attr(&mut self, name: &str, data: &[u8]) -> (r: Result<usize, AttrError>)
        ensures
            cpu_write_outcome(old(self).spec_state(), final(self).spec_state(), name@, data@, r),
    {
        if !is_utf8(data) {
            return Err(AttrError::InvalidInput);
        }
        let (lo, hi) = trim_bounds(data, 0, data.len());
        assert(data@.subrange(0, data@.len() as int) =~= data@);
        if str_is(name, "weight") {
            match parse_i64(data, lo, hi) {
                Some(v) => {
                    if v < 1 || v > 10_000 {
                        return Err(AttrError::InvalidInput);
                    }
                    self.state.weight = v;
                    Ok(data.len())
                },
                None => Err(AttrError::InvalidInput),
            }
        } else if str_is(name, "max") {
            let parts = split_words(data, lo, hi);
            if parts.len() != 2 {
                return Err(AttrError::InvalidInput);
            }
            let ghost ws = words(data@.subrange(lo as int, hi as int));
            assert(ws[0] == data@.subrange(parts@[0].0 as int, parts@[0].1 as int));
            assert(ws[1] == data@.subrange(parts@[1].0 as int, parts@[1].1 as int));
            let (q_lo, q_hi) = parts[0];
            let (p_lo, p_hi) = parts[1];
            let quota = if is_max_word(data, q_lo, q_hi) {
                -1i64
            } else {
                match parse_i64(data, q_lo, q_hi) {
                    Some(q) => q,
                    None => {
                        return Err(AttrError::InvalidInput);
                    },
                }
            };
            let period = match parse_i64(data, p_lo, p_hi) {
                Some(p) => p,
                None => {
                    return Err(AttrError::InvalidInput);
                },
            };
            self.state.cfs_quota = quota;
            self.state.cfs_period = period;
            Ok(data.len())
        } else if str_is(name, "stat") {
            Err(AttrError::OperationNotPermitted)
        } else {
            Err(AttrError::NotFound)
        }
    }

    /// The attributes of the controller.
    pub fn attr_names(&self) -> (v: Vec<AttrInfo>)
        ensures
            v@.map_values(|a: AttrInfo| (a.name@, a.read_only)) == cpu_attrs(),
    {
        cpu_attr_list()
    }
}

/// Creates `cpu` controller instances.
pub struct CpuControllerFactory;

impl CpuControllerFactory {
    pub fn name(&self) -> (s: &'static str)
        ensures
            s@ == "cpu"@,
    {
        "cpu"
    }

    /// `cpu` is a domain controller.
    pub fn is_domain(&self) -> (d: bool)
        ensures
            d,
    {
        true
    }

    /// The attributes of the controller.
    pub fn attr_names(&self) -> (v: Vec<AttrInfo>)
        ensures
            v@.map_values(|a: AttrInfo| (a.name@, a.read_only)) == cpu_attrs(),
    {
        cpu_attr_list()
    }

    /// A new instance over fresh state.
    pub fn new_instance(&self) -> (c: CpuController)
        ensures
            c.spec_state() == fresh_cpu_state(),
    {
        CpuController::new(CpuState::new())
    }
}

// ---------------------------------------------------------------------------
// Laws
// ---------------------------------------------------------------------------

/// A weight in range written to `cpu.weight` reads back as written.
pub proof fn cpu_weight_reads_back(b: CpuState, a: CpuState, w: u64, r: Result<usize, AttrError>)
    requires
        1 <= w <= 10_000,
        cpu_write_outcome(b, a, "weight"@, crate::text::decimal(w as nat), r),
    ensures
        r is Ok,
        cpu_attr_text(a, "weight"@) == Some(dec(w as nat) + "\n"@),
{
    crate::text::lemma_parse_decimal(w as nat);
    crate::text::lemma_parse_decimal_typed(w as nat);
}

/// A quota and a period written to `cpu.max` read back as written.
pub proof fn cpu_max_reads_back(b: CpuState, a: CpuState, quota: u64, period: u64, r: Result<usize, AttrError>)
    requires
        quota <= i64::MAX,
        period <= i64::MAX,
        cpu_write_outcome(b, a, "max"@, crate::text::decimal(quota as nat) + seq![32u8] + crate::text::decimal(period as nat), r),
    ensures
        r is Ok,
        cpu_attr_text(a, "max"@) == Some(dec(quota as nat) + " "@ + dec(period as nat) + "\n"@),
{
    let data = crate::text::decimal(quota as nat) + seq![32u8] + crate::text::decimal(period as nat);
    crate::text::lemma_two_numbers(quota as nat, period as nat);
    crate::text::lemma_parse_decimal(quota as nat);
    crate::text::lemma_parse_decimal_typed(quota as nat);
    crate::text::lemma_parse_decimal_typed(period as nat);
    assert(cpu_max_parsed(trim(data)) == Some((quota as i64, period as i64)));
    reveal_strlit("weight");
    reveal_strlit("max");
    assert("weight"@.len() != "max"@.len());
}

/// The weight stays between 1 and 10000 whatever is written: a write
/// outside that range is refused.
pub proof fn cpu_weight_stays_in_range(b: CpuState, a: CpuState, name: Seq<char>, data: Seq<u8>, r: Result<usize, AttrError>)
    requires
        cpu_write_outcome(b, a, name, data, r),
        1 <= b.weight <= 10_000,
    ensures
        1 <= a.weight <= 10_000,
{
}

} // verus!
