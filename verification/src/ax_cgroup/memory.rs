//! The `memory` controller: limits and tracks memory usage.

use vstd::prelude::*;
use vstd::string::StringExecFns;

use crate::ax_cgroup::controller::{attr_read_outcome, AttrError, AttrInfo};
use crate::text::{
    append_i64, append_u64, dec, is_max_word, is_utf8, max_word, parse_i64, read_text_at, sdec,
    spec_parse_i64, str_is, trim, trim_bounds,
};

verus! {

/// Per-cgroup memory state.
#[derive(Debug, Clone, Copy)]
pub struct MemoryState {
    /// Current usage in bytes.
    pub current: u64,
    /// Hard limit in bytes; negative means unlimited.
    pub max: i64,
    /// High watermark in bytes; negative means unlimited.
    pub high: i64,
    /// Protection threshold in bytes; 0 means none.
    pub low: i64,
    /// Hard protection in bytes; 0 means none.
    pub min: i64,
    /// Times the limit was hit.
    pub events_max: u64,
    /// Times the high watermark was exceeded.
    pub events_high: u64,
    /// OOM kills.
    pub events_oom: u64,
}

/// The state `MemoryState::new` builds.
pub open spec fn fresh_memory_state() -> MemoryState {
    MemoryState {
        current: 0,
        max: -1i64,
        high: -1i64,
        low: 0,
        min: 0,
        events_max: 0,
        events_high: 0,
        events_oom: 0,
    }
}

/// The multiplier a size suffix stands for: K, M, G, T in either case.
pub open spec fn suffix_multiplier(b: u8) -> Option<i64> {
    if b == 75 || b == 107 {
        Some(1024i64)
    } else if b == 77 || b == 109 {
        Some(1_048_576i64)
    } else if b == 71 || b == 103 {
        Some(1_073_741_824i64)
    } else if b == 84 || b == 116 {
        Some(1_099_511_627_776i64)
    } else {
        None
    }
}

/// The byte count a memory value stands for: `max` is -1, otherwise a
/// non-negative number with an optional size suffix, as long as the product
/// fits.
pub open spec fn memory_value(text: Seq<u8>) -> Option<i64> {
    let t = trim(text);
    if t == max_word() {
        Some(-1i64)
    } else {
        let suffixed = t.len() > 0 && suffix_multiplier(t.last()) is Some;
        let num = if suffixed { t.drop_last() } else { t };
        let mul: i64 = if suffixed { suffix_multiplier(t.last())->0 } else { 1i64 };
        match spec_parse_i64(num) {
            Some(n) => if n < 0 || n * mul > i64::MAX {
                None
            } else {
                Some((n * mul) as i64)
            },
            None => None,
        }
    }
}

/// A limit as text: `max` when negative, else the number.
pub open spec fn limit_text(v: i64) -> Seq<char> {
    if v < 0 {
        "max"@
    } else {
        dec(v as nat)
    }
}

impl MemoryState {
    /// Nothing used, no limits, no protection, no events.
    pub fn new() -> (m: Self)
        ensures
            m == fresh_memory_state(),
    {
        MemoryState {
            current: 0,
            max: -1,
            high: -1,
            low: 0,
            min: 0,
            events_max: 0,
            events_high: 0,
            events_oom: 0,
        }
    }

    /// Parses a memory value: `1G`, `512M`, `1048576`, or `max` (-1).
    fn parse_memory_value(text: &[u8]) -> (r: Result<i64, ()>)
        ensures
            match memory_value(text@) {
                Some(v) => r == Ok::<i64, ()>(v),
                None => r is Err,
            },
    {
        let (lo, hi) = trim_bounds(text, 0, text.len());
        assert(text@.subrange(0, text@.len() as int) =~= text@);
        let ghost t = text@.subrange(lo as int, hi as int);
        if is_max_word(text, lo, hi) {
            return Ok(-1);
        }
        let mut end = hi;
        let mut multiplier: i64 = 1;
        if hi > lo {
            let last = text[hi - 1];
            assert(t.last() == last);
            if last == 75 || last == 107 {
                multiplier = 1024;
                end = hi - 1;
            } else if last == 77 || last == 109 {
                multiplier = 1024 * 1024;
                end = hi - 1;
            } else if last == 71 || last == 103 {
                multiplier = 1024 * 1024 * 1024;
                end = hi - 1;
            } else if last == 84 || last == 116 {
                multiplier = 1024 * 1024 * 1024 * 1024;
                end = hi - 1;
            }
        }
        assert(end < hi ==> text@.subrange(lo as int, end as int) =~= t.drop_last());
        let num = match parse_i64(text, lo, end) {
            Some(n) => n,
            None => {
                return Err(());
            },
        };
        if num < 0 {
            return Err(());
        }
        match num.checked_mul(multiplier) {
            Some(v) => Ok(v),
            None => Err(()),
        }
    }

    /// A limit as text: `max` when negative.
    fn format_memory_value(bytes: i64) -> (s: String)
        ensures
            s@ == limit_text(bytes),
    {
        let mut s = String::new();
        if bytes < 0 {
            s.append("max");
        } else {
            append_u64(&mut s, bytes as u64);
        }
        s
    }

    /// An allocation of `bytes` stays within the limit (usage saturating).
    pub fn can_charge(&self, bytes: u64) -> (r: bool)
        ensures
            r == (self.max < 0 || (if self.current + bytes > u64::MAX { u64::MAX as int } else { self.current + bytes }) <= self.max),
    {
        if self.max < 0 {
            return true;
        }
        self.current.saturating_add(bytes) <= self.max as u64
    }

    /// Adds `bytes` to the usage without checking the limit (wrapping as an
    /// atomic addition does).
    pub fn charge(&mut self, bytes: u64)
        ensures
            *final(self) == (MemoryState {
                current: vstd::wrapping::u64_specs::wrapping_add(old(self).current, bytes),
                ..*old(self)
            }),
    {
        self.current = self.current.wrapping_add(bytes);
    }

    /// Removes `bytes` from the usage, never going below zero.
    pub fn uncharge(&mut self, bytes: u64)
        ensures
            *final(self) == (MemoryState {
                current: if old(self).current >= bytes { (old(self).current - bytes) as u64 } else { 0 },
                ..*old(self)
            }),
    {
        self.current = self.current.saturating_sub(bytes);
    }
}

/// The attributes of the `memory` controller.
pub open spec fn memory_attrs() -> Seq<(Seq<char>, bool)> {
    seq![
        ("current"@, true),
        ("max"@, false),
        ("high"@, false),
        ("low"@, false),
        ("min"@, false),
        ("events"@, true),
    ]
}

/// The text of a `memory` attribute (named without the prefix), if any.
pub open spec fn memory_attr_text(s: MemoryState, name: Seq<char>) -> Option<Seq<char>> {
    if name == "current"@ {
        Some(dec(s.current as nat) + "\n"@)
    } else if name == "max"@ {
        Some(limit_text(s.max) + "\n"@)
    } else if name == "high"@ {
        Some(limit_text(s.high) + "\n"@)
    } else if name == "low"@ {
        Some(sdec(s.low as int) + "\n"@)
    } else if name == "min"@ {
        Some(sdec(s.min as int) + "\n"@)
    } else if name == "events"@ {
        Some(
            "max "@ + dec(s.events_max as nat) + "\nhigh "@ + dec(s.events_high as nat) + "\noom "@
                + dec(s.events_oom as nat) + "\n"@,
        )
    } else {
        None
    }
}

/// What a write of `data` to attribute `name` does. The data must be UTF-8
/// whatever the name; `max` and `high` take memory values, `low` and `min`
/// take memory values other than `max`; `current` and `events` are
/// read-only.
pub open spec fn memory_write_outcome(
    b: MemoryState,
    a: MemoryState,
    name: Seq<char>,
    data: Seq<u8>,
    r: Result<usize, AttrError>,
) -> bool {
    let ok = r == Ok::<usize, AttrError>(data.len() as usize);
    let invalid = r == Err::<usize, AttrError>(AttrError::InvalidInput) && a == b;
    if !vstd::utf8::valid_utf8(data) {
        invalid
    } else {
        let v = memory_value(trim(data));
        if name == "max"@ {
            match v {
                Some(x) => ok && a == (MemoryState { max: x, ..b }),
                None => invalid,
            }
        } else if name == "high"@ {
            match v {
                Some(x) => ok && a == (MemoryState { high: x, ..b }),
                None => invalid,
            }
        } else if name == "low"@ {
            match v {
                Some(x) => if x < 0 {
                    invalid
                } else {
                    ok && a == (MemoryState { low: x, ..b })
                },
                None => invalid,
            }
        } else if name == "min"@ {
            match v {
                Some(x) => if x < 0 {
                    invalid
                } else {
                    ok && a == (MemoryState { min: x, ..b })
                },
                None => invalid,
            }
        } else if name == "current"@ || name == "events"@ {
            r == Err::<usize, AttrError>(AttrError::OperationNotPermitted) && a == b
        } else {
            r == Err::<usize, AttrError>(AttrError::NotFound) && a == b
        }
    }
}

fn memory_attr_list() -> (v: Vec<AttrInfo>)
    ensures
        v@.map_values(|a: AttrInfo| (a.name@, a.read_only)) == memory_attrs(),
{
    let mut v = Vec::new();
    v.push(AttrInfo { name: "current", read_only: true });
    v.push(AttrInfo { name: "max", read_only: false });
    v.push(AttrInfo { name: "high", read_only: false });
    v.push(AttrInfo { name: "low", read_only: false });
    v.push(AttrInfo { name: "min", read_only: false });
    v.push(AttrInfo { name: "events", read_only: true });
    assert(v@.map_values(|a: AttrInfo| (a.name@, a.read_only)) =~= memory_attrs());
    v
}

/// The `memory` controller instance of one cgroup.
pub struct MemoryController {
    state: MemoryState,
}

impl MemoryController {
    pub closed spec fn spec_state(&self) -> MemoryState {
        self.state
    }

    pub fn new(state: MemoryState) -> (c: Self)
        ensures
            c.spec_state() == state,
    {
        MemoryController { state }
    }

    /// The controller's state, for memory accounting.
    pub fn state(&self) -> (s: &MemoryState)
        ensures
            *s == self.spec_state(),
    {
        &self.state
    }

    /// The controller's state, to change it (as accounting does).
    pub fn state_mut(&mut self) -> (s: &mut MemoryState)
        ensures
            *s == old(self).spec_state(),
            final(self).spec_state() == *final(s),
    {
        &mut self.state
    }

    pub fn name(&self) -> (s: &'static str)
        ensures
            s@ == "memory"@,
    {
        "memory"
    }

    /// `memory` is a domain controller.
    pub fn is_domain(&self) -> (d: bool)
        ensures
            d,
    {
        true
    }

    /// Reads a `memory` attribute at `offset` into `buf`.
    pub fn read_attr(&self, name: &str, offset: usize, buf: &mut [u8]) -> (r: Result<usize, AttrError>)
        ensures
            attr_read_outcome(memory_attr_text(self.spec_state(), name@), offset as nat, old(buf)@, final(buf)@, r),
    {
        let mut text = String::new();
        if str_is(name, "current") {
            append_u64(&mut text, self.state.current);
        } else if str_is(name, "max") {
            let v = MemoryState::format_memory_value(self.state.max);
            text.append(v.as_str());
        } else if str_is(name, "high") {
            let v = MemoryState::format_memory_value(self.state.high);
            text.append(v.as_str());
        } else if str_is(name, "low") {
            append_i64(&mut text, self.state.low);
        } else if str_is(name, "min") {
            append_i64(&mut text, self.state.min);
        } else if str_is(name, "events") {
            text.append("max ");
            append_u64(&mut text, self.state.events_max);
            text.append("\nhigh ");
            append_u64(&mut text, self.state.events_high);
            text.append("\noom ");
            append_u64(&mut text, self.state.events_oom);
        } else {
            return Err(AttrError::NotFound);
        }
        text.append("\n");
        Ok(read_text_at(&text, offset, buf))
    }

    /// Writes `max`, `high`, `low` or `min`; `current` and `events` are
    /// read-only.
    pub fn write_attr(&mut self, name: &str, data: &[u8]) -> (r: Result<usize, AttrError>)
        ensures
            memory_write_outcome(old(self).spec_state(), final(self).spec_state(), name@, data@, r),
    {
        if !is_utf8(data) {
            return Err(AttrError::InvalidInput);
        }
        let (lo, hi) = trim_bounds(data, 0, data.len());
        assert(data@.subrange(0, data@.len() as int) =~= data@);
        let text = vstd::slice::slice_subrange(data, lo, hi);
        if str_is(name, "max") {
            let v = match MemoryState::parse_memory_value(text) {
                Ok(v) => v,
                Err(_) => {
                    return Err(AttrError::InvalidInput);
                },
            };
            self.state.max = v;
            Ok(data.len())
        } else if str_is(name, "high") {
            let v = match MemoryState::parse_memory_value(text) {
                Ok(v) => v,
                Err(_) => {
                    return Err(AttrError::InvalidInput);
                },
            };
            self.state.high = v;
            Ok(data.len())
        } else if str_is(name, "low") {
            let v = match MemoryState::parse_memory_value(text) {
                Ok(v) => v,
                Err(_) => {
                    return Err(AttrError::InvalidInput);
                },
            };
            if v < 0 {
                return Err(AttrError::InvalidInput);
            }
            self.state.low = v;
            Ok(data.len())
        } else if str_is(name, "min") {
            let v = match MemoryState::parse_memory_value(text) {
                Ok(v) => v,
                Err(_) => {
                    return Err(AttrError::InvalidInput);
                },
            };
            if v < 0 {
                return Err(AttrError::InvalidInput);
            }
            self.state.min = v;
            Ok(data.len())
        } else if str_is(name, "current") || str_is(name, "events") {
            Err(AttrError::OperationNotPermitted)
        } else {
            Err(AttrError::NotFound)
        }
    }

    /// The attributes of the controller.
    pub fn attr_names(&self) -> (v: Vec<AttrInfo>)
        ensures
            v@.map_values(|a: AttrInfo| (a.name@, a.read_only)) == memory_attrs(),
    {
        memory_attr_list()
    }
}

/// Creates `memory` controller instances.
pub struct MemoryControllerFactory;

impl MemoryControllerFactory {
    pub fn name(&self) -> (s: &'static str)
        ensures
            s@ == "memory"@,
    {
        "memory"
    }

    /// `memory` is a domain controller.
    pub fn is_domain(&self) -> (d: bool)
        ensures
            d,
    {
        true
    }

    /// The attributes of the controller.
    pub fn attr_names(&self) -> (v: Vec<AttrInfo>)
        ensures
            v@.map_values(|a: AttrInfo| (a.name@, a.read_only)) == memory_attrs(),
    {
        memory_attr_list()
    }

    /// A new instance over fresh state.
    pub fn new_instance(&self) -> (c: MemoryController)
        ensures
            c.spec_state() == fresh_memory_state(),
    {
        MemoryController::new(MemoryState::new())
    }
}

// ---------------------------------------------------------------------------
// Laws
// ---------------------------------------------------------------------------

/// A byte count written to `memory.max` reads back as written, on a line.
pub proof fn memory_max_reads_back(b: MemoryState, a: MemoryState, v: u64, r: Result<usize, AttrError>)
    requires
        v <= i64::MAX,
        memory_write_outcome(b, a, "max"@, crate::text::decimal(v as nat), r),
    ensures
        r is Ok,
        memory_attr_text(a, "max"@) == Some(dec(v as nat) + "\n"@),
{
    let d = crate::text::decimal(v as nat);
    crate::text::lemma_parse_decimal(v as nat);
    crate::text::lemma_parse_decimal_typed(v as nat);
    crate::text::lemma_decimal_ascii(v as nat);
    assert(suffix_multiplier(d.last()) is None);
    assert(memory_value(trim(d)) == Some(v as i64));
    reveal_strlit("current");
    reveal_strlit("max");
    assert("current"@.len() != "max"@.len());
}

/// A count with a size suffix stands for the count times the suffix's
/// multiple: `K` is 1024 bytes.
pub proof fn memory_kibibytes(n: u64)
    requires
        n * 1024 <= i64::MAX,
    ensures
        memory_value(crate::text::decimal(n as nat).push(75u8)) == Some((n * 1024) as i64),
{
    let d = crate::text::decimal(n as nat);
    let t = d.push(75u8);
    crate::text::lemma_parse_decimal(n as nat);
    crate::text::lemma_parse_decimal_typed(n as nat);
    crate::text::lemma_decimal_ascii(n as nat);
    assert(t[0] == d[0]);
    assert(crate::text::lead_ws(t) == 0);
    assert(crate::text::trim_start(t) == t);
    assert(crate::text::trail_ws(t) == 0);
    assert(crate::text::trim_end(t) == t);
    assert(trim(t) == t);
    assert(t != max_word()) by {
        assert(max_word()[0] == 109);
    }
    assert(t.last() == 75u8);
    assert(t.drop_last() =~= d);
}

/// A count followed by a size suffix stands for the count times the
/// suffix's power of two, in either case: `K` 2^10, `M` 2^20, `G` 2^30,
/// `T` 2^40 bytes, so long as the product fits.
pub proof fn memory_size_suffixes(n: u64, c: u8)
    requires
        c == 75 || c == 107 || c == 77 || c == 109 || c == 71 || c == 103 || c == 84 || c == 116,
    ensures
        (c == 75 || c == 107) && n * 1024 <= i64::MAX
            ==> memory_value(crate::text::decimal(n as nat).push(c)) == Some((n * 1024) as i64),
        (c == 77 || c == 109) && n * 1_048_576 <= i64::MAX
            ==> memory_value(crate::text::decimal(n as nat).push(c)) == Some((n * 1_048_576) as i64),
        (c == 71 || c == 103) && n * 1_073_741_824 <= i64::MAX
            ==> memory_value(crate::text::decimal(n as nat).push(c)) == Some((n * 1_073_741_824) as i64),
        (c == 84 || c == 116) && n * 1_099_511_627_776 <= i64::MAX
            ==> memory_value(crate::text::decimal(n as nat).push(c)) == Some((n * 1_099_511_627_776) as i64),
{
    let d = crate::text::decimal(n as nat);
    let t = d.push(c);
    crate::text::lemma_parse_decimal(n as nat);
    crate::text::lemma_parse_decimal_typed(n as nat);
    crate::text::lemma_decimal_ascii(n as nat);
    assert(t[0] == d[0]);
    assert(crate::text::lead_ws(t) == 0);
    assert(crate::text::trim_start(t) == t);
    assert(crate::text::trail_ws(t) == 0);
    assert(crate::text::trim_end(t) == t);
    assert(trim(t) == t);
    assert(t != max_word()) by {
        assert(max_word()[0] == 109);
    }
    assert(t.last() == c);
    assert(t.drop_last() =~= d);
    assert(suffix_multiplier(c) is Some);
}

} // verus!
