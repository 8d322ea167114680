//! The `cpu` controller: CPU weight and bandwidth.
//!
//! Control files: `cpu.stat` (read-only statistics), `cpu.weight` (1 to
//! 10000, default 100) and `cpu.max` (`$quota $period` or `max $period`,
//! microseconds).

use vstd::prelude::*;
use vstd::string::StringExecFns;

use crate::cgroup::controller::SubController;
use crate::cgroup::{read_outcome, written_text, CgroupError};
use crate::text::{
    append_i64, append_u64, dec, decimal, lemma_parse_decimal, lemma_parse_decimal_typed, is_max_word, is_utf8, max_word, parse_i64, pieces, read_text_at,
    sdec, spec_parse_i64, split_words, str_is, trim_bounds, words,
};

verus! {

/// The shortest `cpu.max` period, in microseconds.
pub const CPU_MAX_MIN_PERIOD_US: i64 = 1_000;

/// The longest `cpu.max` period, in microseconds.
pub const CPU_MAX_MAX_PERIOD_US: i64 = 1_000_000;

/// Per-cgroup CPU bandwidth state: quota and period of `cpu.max`, the time
/// consumed in the current period, and the statistics of `cpu.stat`.
#[derive(Debug, Clone, Copy)]
pub struct BandwidthState {
    /// Quota in microseconds; negative means unlimited.
    pub quota: i64,
    /// Period in microseconds.
    pub period: i64,
    /// Time consumed in the current period, in microseconds.
    pub consumed: i64,
    /// Periods elapsed.
    pub nr_periods: u64,
    /// Ticks on which the cgroup was over its quota.
    pub nr_throttled: u64,
    /// Total throttled time in microseconds.
    pub throttled_usec: u64,
    /// Start of the current period, in microseconds since boot.
    pub period_start: u64,
}

impl BandwidthState {
    /// Unlimited, with a 100 ms period and nothing consumed.
    pub fn new() -> (b: Self)
        ensures
            b == (BandwidthState {
                quota: -1i64,
                period: 100_000,
                consumed: 0,
                nr_periods: 0,
                nr_throttled: 0,
                throttled_usec: 0,
                period_start: 0,
            }),
    {
        BandwidthState {
            quota: -1,
            period: 100_000,
            consumed: 0,
            nr_periods: 0,
            nr_throttled: 0,
            throttled_usec: 0,
            period_start: 0,
        }
    }

    /// Starts a new period at `now_us`.
    pub fn reset_period(&mut self, now_us: u64)
        ensures
            *final(self) == (BandwidthState {
                consumed: 0,
                period_start: now_us,
                nr_periods: vstd::wrapping::u64_specs::wrapping_add(old(self).nr_periods, 1),
                ..*old(self)
            }),
    {
        self.consumed = 0;
        self.period_start = now_us;
        self.nr_periods = self.nr_periods.wrapping_add(1);
    }

    /// Consumes `tick_usec` of the quota; returns whether the cgroup is now
    /// over its quota, counting the tick as throttled when it is. The
    /// counters wrap around as atomic additions do.
    pub fn consume(&mut self, tick_usec: i64) -> (throttled: bool)
        ensures
            old(self).quota < 0 ==> !throttled && *final(self) == *old(self),
            old(self).quota >= 0 ==> {
                let c = vstd::wrapping::i64_specs::wrapping_add(old(self).consumed, tick_usec);
                &&& throttled == (c >= old(self).quota)
                &&& *final(self) == (if c >= old(self).quota {
                    BandwidthState {
                        consumed: c,
                        nr_throttled: vstd::wrapping::u64_specs::wrapping_add(old(self).nr_throttled, 1),
                        throttled_usec: vstd::wrapping::u64_specs::wrapping_add(old(self).throttled_usec, tick_usec as u64),
                        ..*old(self)
                    }
                } else {
                    BandwidthState { consumed: c, ..*old(self) }
                })
            },
    {
        if self.quota < 0 {
            return false;
        }
        let consumed = self.consumed.wrapping_add(tick_usec);
        self.consumed = consumed;
        if consumed >= self.quota {
            self.nr_throttled = self.nr_throttled.wrapping_add(1);
            self.throttled_usec = self.throttled_usec.wrapping_add(tick_usec as u64);
            true
        } else {
            false
        }
    }
}

/// The `cpu` controller of one cgroup.
#[derive(Debug, Clone, Copy)]
pub struct CpuController {
    /// CPU weight, 1 to 10000.
    pub weight: i64,
    /// Bandwidth state for `cpu.max`.
    pub bandwidth: BandwidthState,
}

/// The text of `cpu.stat`.
pub open spec fn cpu_stat_text(c: CpuController) -> Seq<char> {
    "usage_usec "@ + sdec(c.bandwidth.consumed as int) + "\nuser_usec 0\nsystem_usec 0\nnr_periods "@
        + dec(c.bandwidth.nr_periods as nat) + "\nnr_throttled "@ + dec(c.bandwidth.nr_throttled as nat)
        + "\nthrottled_usec "@ + dec(c.bandwidth.throttled_usec as nat) + "\n"@
}

/// The text of `cpu.max`.
pub open spec fn cpu_max_text(c: CpuController) -> Seq<char> {
    if c.bandwidth.quota < 0 {
        "max "@ + sdec(c.bandwidth.period as int) + "\n"@
    } else {
        sdec(c.bandwidth.quota as int) + " "@ + sdec(c.bandwidth.period as int) + "\n"@
    }
}

/// The text of a `cpu` attribute, if `name` is one.
pub open spec fn cpu_attr_text(c: CpuController, name: Seq<char>) -> Option<Seq<char>> {
    if name == "cpu.stat"@ {
        Some(cpu_stat_text(c))
    } else if name == "cpu.weight"@ {
        Some(sdec(c.weight as int) + "\n"@)
    } else if name == "cpu.max"@ {
        Some(cpu_max_text(c))
    } else {
        None
    }
}

/// The weight a write to `cpu.weight` sets, if it is acceptable.
pub open spec fn cpu_weight_written(data: Seq<u8>) -> Option<i64> {
    match written_text(data) {
        Some(t) => match spec_parse_i64(t) {
            Some(v) => if 1 <= v <= 10_000 {
                Some(v)
            } else {
                None
            },
            None => None,
        },
        None => None,
    }
}

/// The quota a word of `cpu.max` stands for: `max` is -1, else a positive
/// number.
pub open spec fn cpu_quota_word(w: Seq<u8>) -> Option<i64> {
    if w == max_word() {
        Some(-1i64)
    } else {
        match spec_parse_i64(w) {
            Some(q) => if q > 0 {
                Some(q)
            } else {
                None
            },
            None => None,
        }
    }
}

/// The quota and period a write to `cpu.max` sets, if it is acceptable: the
/// text `max` alone makes the quota unlimited and keeps the period;
/// otherwise it must be two words, a quota and a period in range.
pub open spec fn cpu_max_written(data: Seq<u8>) -> Option<(i64, Option<i64>)> {
    match written_text(data) {
        None => None,
        Some(t) => if t == max_word() {
            Some((-1i64, None))
        } else {
            let ws = words(t);
            if ws.len() != 2 {
                None
            } else {
                match (cpu_quota_word(ws[0]), spec_parse_i64(ws[1])) {
                    (Some(q), Some(p)) => if CPU_MAX_MIN_PERIOD_US <= p <= CPU_MAX_MAX_PERIOD_US {
                        Some((q, Some(p)))
                    } else {
                        None
                    },
                    _ => None,
                }
            }
        },
    }
}

/// What a write of `data` to attribute `name` does: `cpu.weight` and
/// `cpu.max` parse and store their values, `cpu.stat` is read-only, other
/// names do not exist.
pub open spec fn cpu_write_outcome(
    b: CpuController,
    a: CpuController,
    name: Seq<char>,
    data: Seq<u8>,
    r: Result<usize, CgroupError>,
) -> bool {
    if name == "cpu.stat"@ {
        r == Err::<usize, CgroupError>(CgroupError::PermissionDenied) && a == b
    } else if name == "cpu.weight"@ {
        match cpu_weight_written(data) {
            Some(w) => r == Ok::<usize, CgroupError>(data.len() as usize) && a == (CpuController { weight: w, ..b }),
            None => r == Err::<usize, CgroupError>(CgroupError::InvalidInput) && a == b,
        }
    } else if name == "cpu.max"@ {
        match cpu_max_written(data) {
            Some((q, p)) => r == Ok::<usize, CgroupError>(data.len() as usize) && a == (CpuController {
                bandwidth: BandwidthState {
                    quota: q,
                    period: match p { Some(v) => v, None => b.bandwidth.period },
                    ..b.bandwidth
                },
                ..b
            }),
            None => r == Err::<usize, CgroupError>(CgroupError::InvalidInput) && a == b,
        }
    } else {
        r == Err::<usize, CgroupError>(CgroupError::NotFound) && a == b
    }
}

impl CpuController {
    /// Weight 100 and an unlimited bandwidth, for root and child cgroups alike.
    pub fn new(is_root: bool, is_active: bool) -> (c: Self)
        ensures
            c.weight == 100,
            c.bandwidth == BandwidthState::new_spec(),
    {
        CpuController { weight: 100, bandwidth: BandwidthState::new() }
    }

    fn stat_text(&self) -> (s: String)
        ensures
            s@ == cpu_stat_text(*self),
    {
        let mut s = String::new();
        s.append("usage_usec ");
        append_i64(&mut s, self.bandwidth.consumed);
        s.append("\nuser_usec 0\nsystem_usec 0\nnr_periods ");
        append_u64(&mut s, self.bandwidth.nr_periods);
        s.append("\nnr_throttled ");
        append_u64(&mut s, self.bandwidth.nr_throttled);
        s.append("\nthrottled_usec ");
        append_u64(&mut s, self.bandwidth.throttled_usec);
        s.append("\n");
        s
    }

    fn weight_text(&self) -> (s: String)
        ensures
            s@ == sdec(self.weight as int) + "\n"@,
    {
        let mut s = String::new();
        append_i64(&mut s, self.weight);
        s.append("\n");
        s
    }

    fn max_text(&self) -> (s: String)
        ensures
            s@ == cpu_max_text(*self),
    {
        let mut s = String::new();
        if self.bandwidth.quota < 0 {
            s.append("max ");
            append_i64(&mut s, self.bandwidth.period);
        } else {
            append_i64(&mut s, self.bandwidth.quota);
            s.append(" ");
            append_i64(&mut s, self.bandwidth.period);
        }
        s.append("\n");
        s
    }

    /// Parses and applies a write to `cpu.max`.
    fn apply_max(&mut self, data: &[u8]) -> (r: Result<usize, CgroupError>)
        ensures
            match cpu_max_written(data@) {
                Some((q, p)) => r == Ok::<usize, CgroupError>(data@.len() as usize)
                    && *final(self) == (CpuController {
                        bandwidth: BandwidthState {
                            quota: q,
                            period: match p { Some(v) => v, None => old(self).bandwidth.period },
                            ..old(self).bandwidth
                        },
                        ..*old(self)
                    }),
                None => r == Err::<usize, CgroupError>(CgroupError::InvalidInput) && *final(self) == *old(self),
            },
    {
        if !is_utf8(data) {
            return Err(CgroupError::InvalidInput);
        }
        let (lo, hi) = trim_bounds(data, 0, data.len());
        assert(data@.subrange(0, data@.len() as int) =~= data@);
        let ghost t = data@.subrange(lo as int, hi as int);
        if is_max_word(data, lo, hi) {
            self.bandwidth.quota = -1;
            return Ok(data.len());
        }
        let parts = split_words(data, lo, hi);
        if parts.len() != 2 {
            return Err(CgroupError::InvalidInput);
        }
        let ghost ws = words(t);
        assert(ws[0] == data@.subrange(parts@[0].0 as int, parts@[0].1 as int));
        assert(ws[1] == data@.subrange(parts@[1].0 as int, parts@[1].1 as int));
        let (q_lo, q_hi) = parts[0];
        let (p_lo, p_hi) = parts[1];
        let quota: i64 = if is_max_word(data, q_lo, q_hi) {
            -1
        } else {
            match parse_i64(data, q_lo, q_hi) {
                Some(q) => {
                    if q <= 0 {
                        return Err(CgroupError::InvalidInput);
                    }
                    q
                },
                None => {
                    return Err(CgroupError::InvalidInput);
                },
            }
        };
        let period = match parse_i64(data, p_lo, p_hi) {
            Some(p) => p,
            None => {
                return Err(CgroupError::InvalidInput);
            },
        };
        if period < CPU_MAX_MIN_PERIOD_US || period > CPU_MAX_MAX_PERIOD_US {
            return Err(CgroupError::InvalidInput);
        }
        self.bandwidth.quota = quota;
        self.bandwidth.period = period;
        Ok(data.len())
    }

    /// Parses and applies a write to `cpu.weight`.
    fn apply_weight(&mut self, data: &[u8]) -> (r: Result<usize, CgroupError>)
        ensures
            match cpu_weight_written(data@) {
                Some(w) => r == Ok::<usize, CgroupError>(data@.len() as usize)
                    && *final(self) == (CpuController { weight: w, ..*old(self) }),
                None => r == Err::<usize, CgroupError>(CgroupError::InvalidInput) && *final(self) == *old(self),
            },
    {
        if !is_utf8(data) {
            return Err(CgroupError::InvalidInput);
        }
        let (lo, hi) = trim_bounds(data, 0, data.len());
        assert(data@.subrange(0, data@.len() as int) =~= data@);
        match parse_i64(data, lo, hi) {
            Some(v) => {
                if v < 1 || v > 10_000 {
                    return Err(CgroupError::InvalidInput);
                }
                self.weight = v;
                Ok(data.len())
            },
            None => Err(CgroupError::InvalidInput),
        }
    }

    /// Reads `cpu.stat`, `cpu.weight` or `cpu.max` at `offset` into `buf`.
    pub fn read_attr_at(&self, name: &str, offset: usize, buf: &mut [u8]) -> (r: Result<usize, CgroupError>)
        ensures
            read_outcome(cpu_attr_text(*self, name@), offset as nat, old(buf)@, final(buf)@, r),
    {
        let text = if str_is(name, "cpu.stat") {
            self.stat_text()
        } else if str_is(name, "cpu.weight") {
            self.weight_text()
        } else if str_is(name, "cpu.max") {
            self.max_text()
        } else {
            return Err(CgroupError::NotFound);
        };
        Ok(read_text_at(&text, offset, buf))
    }

    /// Writes `cpu.weight` or `cpu.max`; `cpu.stat` is read-only.
    pub fn write_attr(&mut self, name: &str, data: &[u8]) -> (r: Result<usize, CgroupError>)
        ensures
            cpu_write_outcome(*old(self), *final(self), name@, data@, r),
    {
        if str_is(name, "cpu.stat") {
            Err(CgroupError::PermissionDenied)
        } else if str_is(name, "cpu.weight") {
            self.apply_weight(data)
        } else if str_is(name, "cpu.max") {
            self.apply_max(data)
        } else {
            Err(CgroupError::NotFound)
        }
    }
}

impl SubController<CpuController> {
    /// Reads a `cpu` attribute of the held state; `NotFound` without state.
    pub fn read_attr_at(&self, name: &str, offset: usize, buf: &mut [u8]) -> (r: Result<usize, CgroupError>)
        ensures
            read_outcome(
                match self.spec_inner() {
                    Some(c) => cpu_attr_text(c, name@),
                    None => None,
                },
                offset as nat,
                old(buf)@,
                final(buf)@,
                r,
            ),
    {
        match &self.inner {
            Some(c) => c.read_attr_at(name, offset, buf),
            None => Err(CgroupError::NotFound),
        }
    }

    /// Writes a `cpu` attribute of the held state; `NotFound` without state.
    pub fn write_attr(&mut self, name: &str, data: &[u8]) -> (r: Result<usize, CgroupError>)
        ensures
            final(self).spec_parent() == old(self).spec_parent(),
            match old(self).spec_inner() {
                Some(c) => final(self).spec_inner() matches Some(d) && cpu_write_outcome(c, d, name@, data@, r),
                None => final(self).spec_inner() is None && r == Err::<usize, CgroupError>(CgroupError::NotFound),
            },
    {
        match &mut self.inner {
            Some(c) => c.write_attr(name, data),
            None => Err(CgroupError::NotFound),
        }
    }
}

impl BandwidthState {
    /// The state `new` builds.
    pub open spec fn new_spec() -> BandwidthState {
        BandwidthState {
            quota: -1i64,
            period: 100_000,
            consumed: 0,
            nr_periods: 0,
            nr_throttled: 0,
            throttled_usec: 0,
            period_start: 0,
        }
    }
}

// ---------------------------------------------------------------------------
// Laws
// ---------------------------------------------------------------------------

/// Writing a weight in range to `cpu.weight` and reading the file back
/// gives the weight on a line.
pub proof fn cpu_weight_reads_back_written_weight(b: CpuController, a: CpuController, w: u64, r: Result<usize, CgroupError>)
    requires
        1 <= w <= 10_000,
        cpu_write_outcome(b, a, "cpu.weight"@, decimal(w as nat), r),
    ensures
        r is Ok,
        cpu_attr_text(a, "cpu.weight"@) == Some(dec(w as nat) + "\n"@),
{
    lemma_parse_decimal(w as nat);
    lemma_parse_decimal_typed(w as nat);
    assert(written_text(decimal(w as nat)) == Some(decimal(w as nat)));
    assert(cpu_weight_written(decimal(w as nat)) == Some(w as i64));
    reveal_strlit("cpu.stat");
    reveal_strlit("cpu.weight");
    assert("cpu.stat"@.len() != "cpu.weight"@.len());
}

/// Writing a quota and a period in range to `cpu.max` and reading the file
/// back gives them, separated by a space, on a line.
pub proof fn cpu_max_reads_back_written_bandwidth(
    b: CpuController,
    a: CpuController,
    quota: u64,
    period: u64,
    r: Result<usize, CgroupError>,
)
    requires
        1 <= quota <= i64::MAX,
        CPU_MAX_MIN_PERIOD_US <= period <= CPU_MAX_MAX_PERIOD_US,
        cpu_write_outcome(b, a, "cpu.max"@, decimal(quota as nat) + seq![32u8] + decimal(period as nat), r),
    ensures
        r is Ok,
        cpu_attr_text(a, "cpu.max"@) == Some(dec(quota as nat) + " "@ + dec(period as nat) + "\n"@),
{
    let data = decimal(quota as nat) + seq![32u8] + decimal(period as nat);
    crate::text::lemma_two_numbers(quota as nat, period as nat);
    lemma_parse_decimal(quota as nat);
    lemma_parse_decimal_typed(quota as nat);
    lemma_parse_decimal_typed(period as nat);
    assert(written_text(data) == Some(data));
    assert(cpu_quota_word(decimal(quota as nat)) == Some(quota as i64));
    assert(cpu_max_written(data) == Some((quota as i64, Some(period as i64))));
    reveal_strlit("cpu.stat");
    reveal_strlit("cpu.weight");
    reveal_strlit("cpu.max");
    assert("cpu.stat"@.len() != "cpu.max"@.len());
    assert("cpu.weight"@.len() != "cpu.max"@.len());
}

/// The weight stays between 1 and 10000 whatever is written: a write
/// outside that range is refused.
pub proof fn cpu_weight_stays_in_range(b: CpuController, a: CpuController, name: Seq<char>, data: Seq<u8>, r: Result<usize, CgroupError>)
    requires
        cpu_write_outcome(b, a, name, data, r),
        1 <= b.weight <= 10_000,
    ensures
        1 <= a.weight <= 10_000,
{
}

/// Writing `max` alone to `cpu.max` lifts the quota and keeps the period
/// and the weight.
pub proof fn cpu_max_alone_keeps_period(b: CpuController, a: CpuController, r: Result<usize, CgroupError>)
    requires
        cpu_write_outcome(b, a, "cpu.max"@, seq![109u8, 97u8, 120u8], r),
    ensures
        r == Ok::<usize, CgroupError>(3),
        a.bandwidth.quota == -1,
        a.bandwidth.period == b.bandwidth.period,
        a.weight == b.weight,
{
    crate::text::lemma_max_word();
    assert(seq![109u8, 97u8, 120u8] == max_word());
    reveal_strlit("cpu.max");
    reveal_strlit("cpu.stat");
    reveal_strlit("cpu.weight");
    assert("cpu.max"@.len() == 7);
    assert("cpu.stat"@.len() == 8);
    assert("cpu.weight"@.len() == 10);
    assert(written_text(max_word()) == Some(max_word()));
}

} // verus!
