//! The `pids` controller: limits the number of tasks in a cgroup.
//!
//! Control files: `pids.max` (read/write, `max` for no limit),
//! `pids.current` and `pids.peak` (read-only). Charging is hierarchy-aware:
//! a task charged to a cgroup is charged to every ancestor too.

use vstd::prelude::*;
use vstd::string::StringExecFns;

use crate::cgroup::controller::SubController;
use crate::cgroup::{read_outcome, written_text, CgroupError};
use crate::text::{
    append_u64, dec, decimal, is_max_word, is_utf8, lemma_parse_decimal, lemma_parse_decimal_typed, max_word, parse_u32,
    read_text_at, spec_parse_u32, str_is, trim, trim_bounds,
};

verus! {

/// The stored limit that means "no limit" (`pids.max` = `max`).
pub const PIDS_MAX_UNLIMITED: u32 = 0xFFFF_FFFF;

/// Per-cgroup task accounting: current count, high-water mark and limit.
#[derive(Debug, Clone, Copy)]
pub struct PidsController {
    max_pids: u32,
    current_count: u32,
    peak_count: u32,
}

/// A charge is allowed at a level: no limit, or the count is below it.
pub open spec fn can_charge(p: PidsController) -> bool {
    p.spec_max_raw() == PIDS_MAX_UNLIMITED || p.spec_current() < p.spec_max_raw()
}

/// Charging an allowed level cannot overflow its counter.
pub open spec fn charge_fits(p: PidsController) -> bool {
    p.spec_max_raw() != PIDS_MAX_UNLIMITED || p.spec_current() < u32::MAX
}

/// `a` is `b` with one more task and the high-water mark raised to match.
pub open spec fn charged(b: PidsController, a: PidsController) -> bool {
    &&& a.spec_max_raw() == b.spec_max_raw()
    &&& a.spec_current() == b.spec_current() + 1
    &&& a.spec_peak() == (if b.spec_peak() > b.spec_current() + 1 { b.spec_peak() as int } else { b.spec_current() + 1 })
}

/// `a` is `b` charged and then uncharged again: the count is back, the
/// high-water mark keeps the charge.
pub open spec fn peak_bumped(b: PidsController, a: PidsController) -> bool {
    &&& a.spec_max_raw() == b.spec_max_raw()
    &&& a.spec_current() == b.spec_current()
    &&& a.spec_peak() == (if b.spec_peak() > b.spec_current() + 1 { b.spec_peak() as int } else { b.spec_current() + 1 })
}

/// `a` is `b` with one task fewer, never going below zero.
pub open spec fn uncharged(b: PidsController, a: PidsController) -> bool {
    &&& a.spec_max_raw() == b.spec_max_raw()
    &&& a.spec_peak() == b.spec_peak()
    &&& a.spec_current() == (if b.spec_current() == 0 { 0 } else { b.spec_current() - 1 })
}

/// Both levels hold state related by `f`, or neither holds state.
pub open spec fn level_is(b: Option<PidsController>, a: Option<PidsController>, f: spec_fn(PidsController, PidsController) -> bool) -> bool {
    match b {
        Some(x) => a matches Some(y) && f(x, y),
        None => a is None,
    }
}

/// The first level of a chain that refuses a charge.
pub open spec fn first_blocked(c: Seq<Option<PidsController>>) -> Option<int>
    decreases c.len(),
{
    if c.len() == 0 {
        None
    } else if c[0] matches Some(p) && !can_charge(p) {
        Some(0)
    } else {
        match first_blocked(c.drop_first()) {
            Some(k) => Some(k + 1),
            None => None,
        }
    }
}

/// Every level that a hierarchical charge reaches can take one more task
/// without its counter overflowing.
pub open spec fn charge_reachable_fits(c: Seq<Option<PidsController>>) -> bool {
    let end = match first_blocked(c) {
        Some(k) => k,
        None => c.len() as int,
    };
    forall|i: int| 0 <= i < end ==> (#[trigger] c[i] matches Some(p) ==> charge_fits(p))
}

/// What a hierarchical charge does to a chain: when no level refuses, every
/// level takes the task; otherwise the levels below the refusing one keep
/// their counts but have their high-water marks raised, and the rest stay.
pub open spec fn try_charge_outcome(b: Seq<Option<PidsController>>, a: Seq<Option<PidsController>>, r: Result<(), CgroupError>) -> bool {
    &&& a.len() == b.len()
    &&& match first_blocked(b) {
        None => {
            &&& r == Ok::<(), CgroupError>(())
            &&& forall|i: int| 0 <= i < b.len() ==> level_is(#[trigger] b[i], a[i], |x, y| charged(x, y))
        },
        Some(k) => {
            &&& r == Err::<(), CgroupError>(CgroupError::WouldBlock)
            &&& forall|i: int| 0 <= i < k ==> level_is(#[trigger] b[i], a[i], |x, y| peak_bumped(x, y))
            &&& forall|i: int| k <= i < b.len() ==> #[trigger] a[i] == b[i]
        },
    }
}

/// The text of a `pids` attribute, if `name` is one.
pub open spec fn pids_attr_text(p: PidsController, name: Seq<char>) -> Option<Seq<char>> {
    if name == "pids.max"@ {
        Some(
            if p.spec_max_raw() == PIDS_MAX_UNLIMITED {
                "max\n"@
            } else {
                dec(p.spec_max_raw() as nat) + "\n"@
            },
        )
    } else if name == "pids.current"@ {
        Some(dec(p.spec_current() as nat) + "\n"@)
    } else if name == "pids.peak"@ {
        Some(dec(p.spec_peak() as nat) + "\n"@)
    } else {
        None
    }
}

/// The limit a write of `data` to `pids.max` sets: `None` for `max`.
pub open spec fn pids_max_written(data: Seq<u8>) -> Option<Option<u32>> {
    match written_text(data) {
        None => None,
        Some(t) => if t == max_word() {
            Some(None)
        } else {
            match spec_parse_u32(t) {
                Some(v) => Some(Some(v)),
                None => None,
            }
        },
    }
}

/// What a write of `data` to attribute `name` does: `pids.max` takes a
/// number or `max` (a number equal to the sentinel also means no limit);
/// `pids.current` and `pids.peak` are read-only; other names do not exist.
pub open spec fn pids_write_outcome(
    b: PidsController,
    a: PidsController,
    name: Seq<char>,
    data: Seq<u8>,
    r: Result<usize, CgroupError>,
) -> bool {
    if name == "pids.max"@ {
        match pids_max_written(data) {
            Some(m) => r == Ok::<usize, CgroupError>(data.len() as usize)
                && a.spec_max_raw() == (match m { Some(v) => v, None => PIDS_MAX_UNLIMITED })
                && a.spec_current() == b.spec_current()
                && a.spec_peak() == b.spec_peak(),
            None => r == Err::<usize, CgroupError>(CgroupError::InvalidInput) && a == b,
        }
    } else if name == "pids.current"@ || name == "pids.peak"@ {
        r == Err::<usize, CgroupError>(CgroupError::PermissionDenied) && a == b
    } else {
        r == Err::<usize, CgroupError>(CgroupError::NotFound) && a == b
    }
}

impl PidsController {
    pub closed spec fn spec_max_raw(&self) -> u32 {
        self.max_pids
    }

    pub closed spec fn spec_current(&self) -> u32 {
        self.current_count
    }

    pub closed spec fn spec_peak(&self) -> u32 {
        self.peak_count
    }

    /// The limit: `None` when unlimited.
    pub open spec fn spec_limit(&self) -> Option<u32> {
        if self.spec_max_raw() == PIDS_MAX_UNLIMITED {
            None
        } else {
            Some(self.spec_max_raw())
        }
    }

    /// A controller with no tasks and no limit, for root and child cgroups
    /// alike.
    pub fn new(is_root: bool, is_active: bool) -> (p: Self)
        ensures
            p.spec_max_raw() == PIDS_MAX_UNLIMITED,
            p.spec_current() == 0,
            p.spec_peak() == 0,
    {
        PidsController { max_pids: PIDS_MAX_UNLIMITED, current_count: 0, peak_count: 0 }
    }

    /// Current number of tasks.
    pub fn current(&self) -> (n: u32)
        ensures
            n == self.spec_current(),
    {
        self.current_count
    }

    /// High-water mark of the task count.
    pub fn peak(&self) -> (n: u32)
        ensures
            n == self.spec_peak(),
    {
        self.peak_count
    }

    /// The limit; `None` when unlimited.
    pub fn max(&self) -> (m: Option<u32>)
        ensures
            m == self.spec_limit(),
    {
        if self.max_pids == PIDS_MAX_UNLIMITED {
            None
        } else {
            Some(self.max_pids)
        }
    }

    /// Sets the limit; `None` removes it.
    pub fn set_max(&mut self, max: Option<u32>)
        ensures
            final(self).spec_max_raw() == match max {
                Some(v) => v,
                None => PIDS_MAX_UNLIMITED,
            },
            final(self).spec_current() == old(self).spec_current(),
            final(self).spec_peak() == old(self).spec_peak(),
    {
        self.max_pids = match max {
            Some(v) => v,
            None => PIDS_MAX_UNLIMITED,
        };
    }

    /// Charges one task here if the limit allows it.
    pub fn try_charge_local(&mut self) -> (r: Result<(), CgroupError>)
        requires
            can_charge(*old(self)) ==> charge_fits(*old(self)),
        ensures
            can_charge(*old(self)) ==> r == Ok::<(), CgroupError>(()) && charged(*old(self), *final(self)),
            !can_charge(*old(self)) ==> r == Err::<(), CgroupError>(CgroupError::WouldBlock) && *final(self) == *old(self),
    {
        if self.max_pids != PIDS_MAX_UNLIMITED && self.current_count >= self.max_pids {
            return Err(CgroupError::WouldBlock);
        }
        let next = self.current_count + 1;
        self.current_count = next;
        if self.peak_count < next {
            self.peak_count = next;
        }
        Ok(())
    }

    /// Charges one task here regardless of the limit.
    pub fn charge_local(&mut self)
        requires
            old(self).spec_current() < u32::MAX,
        ensures
            charged(*old(self), *final(self)),
    {
        let next = self.current_count + 1;
        self.current_count = next;
        if self.peak_count < next {
            self.peak_count = next;
        }
    }

    /// Removes one task here; the count never goes below zero.
    pub fn uncharge_local(&mut self)
        ensures
            uncharged(*old(self), *final(self)),
    {
        if self.current_count > 0 {
            self.current_count = self.current_count - 1;
        }
    }

    /// Charges one task to this cgroup and every ancestor, all or nothing:
    /// when some level is at its limit, the levels charged before it are
    /// uncharged again and `WouldBlock` is returned.
    pub fn try_charge(controller: &mut SubController<Self>) -> (r: Result<(), CgroupError>)
        requires
            charge_reachable_fits(old(controller).chain()),
        ensures
            try_charge_outcome(old(controller).chain(), final(controller).chain(), r),
        decreases old(controller).chain().len(),
    {
        controller.try_charge_chain()
    }

    /// Charges one task to this cgroup and every ancestor, ignoring limits.
    pub fn charge(controller: &mut SubController<Self>)
        requires
            forall|i: int| 0 <= i < old(controller).chain().len() ==> (#[trigger] old(controller).chain()[i] matches Some(p) ==> p.spec_current() < u32::MAX),
        ensures
            final(controller).chain().len() == old(controller).chain().len(),
            forall|i: int| 0 <= i < old(controller).chain().len() ==> level_is(#[trigger] old(controller).chain()[i], final(controller).chain()[i], |x, y| charged(x, y)),
    {
        controller.charge_chain()
    }

    /// Removes one task from this cgroup and every ancestor.
    pub fn uncharge(controller: &mut SubController<Self>)
        ensures
            final(controller).chain().len() == old(controller).chain().len(),
            forall|i: int| 0 <= i < old(controller).chain().len() ==> level_is(#[trigger] old(controller).chain()[i], final(controller).chain()[i], |x, y| uncharged(x, y)),
    {
        controller.uncharge_chain()
    }

    /// Reads `pids.max`, `pids.current` or `pids.peak` at `offset` into `buf`.
    pub fn read_attr_at(&self, name: &str, offset: usize, buf: &mut [u8]) -> (r: Result<usize, CgroupError>)
        ensures
            read_outcome(pids_attr_text(*self, name@), offset as nat, old(buf)@, final(buf)@, r),
    {
        let mut text = String::new();
        if str_is(name, "pids.max") {
            if self.max_pids == PIDS_MAX_UNLIMITED {
                text.append("max\n");
            } else {
                append_u64(&mut text, self.max_pids as u64);
                text.append("\n");
            }
        } else if str_is(name, "pids.current") {
            append_u64(&mut text, self.current_count as u64);
            text.append("\n");
        } else if str_is(name, "pids.peak") {
            append_u64(&mut text, self.peak_count as u64);
            text.append("\n");
        } else {
            return Err(CgroupError::NotFound);
        }
        Ok(read_text_at(&text, offset, buf))
    }

    /// Writes `pids.max` (a number or `max`); the other attributes are
    /// read-only.
    pub fn write_attr(&mut self, name: &str, data: &[u8]) -> (r: Result<usize, CgroupError>)
        ensures
            pids_write_outcome(*old(self), *final(self), name@, data@, r),
    {
        if str_is(name, "pids.max") {
            if !is_utf8(data) {
                return Err(CgroupError::InvalidInput);
            }
            let (lo, hi) = trim_bounds(data, 0, data.len());
            assert(data@.subrange(0, data@.len() as int) =~= data@);
            if is_max_word(data, lo, hi) {
                self.set_max(None);
            } else {
                match parse_u32(data, lo, hi) {
                    Some(v) => self.set_max(Some(v)),
                    None => {
                        return Err(CgroupError::InvalidInput);
                    },
                }
            }
            Ok(data.len())
        } else if str_is(name, "pids.current") || str_is(name, "pids.peak") {
            Err(CgroupError::PermissionDenied)
        } else {
            Err(CgroupError::NotFound)
        }
    }
}

pub proof fn lemma_first_blocked_bound(c: Seq<Option<PidsController>>)
    ensures
        first_blocked(c) matches Some(k) ==> 0 <= k < c.len(),
    decreases c.len(),
{
    if c.len() > 0 {
        lemma_first_blocked_bound(c.drop_first());
    }
}

pub proof fn lemma_first_blocked_step(c: Seq<Option<PidsController>>)
    requires
        c.len() > 0,
    ensures
        !(c[0] matches Some(p) && !can_charge(p)) ==> first_blocked(c) == match first_blocked(c.drop_first()) {
            Some(k) => Some(k + 1),
            None => None::<int>,
        },
{
}

impl SubController<PidsController> {
    /// Reads a `pids` attribute of the held state; `NotFound` without state.
    pub fn read_attr_at(&self, name: &str, offset: usize, buf: &mut [u8]) -> (r: Result<usize, CgroupError>)
        ensures
            read_outcome(
                match self.spec_inner() {
                    Some(p) => pids_attr_text(p, name@),
                    None => None,
                },
                offset as nat,
                old(buf)@,
                final(buf)@,
                r,
            ),
    {
        match &self.inner {
            Some(p) => p.read_attr_at(name, offset, buf),
            None => Err(CgroupError::NotFound),
        }
    }

    /// Writes a `pids` attribute of the held state; `NotFound` without state.
    pub fn write_attr(&mut self, name: &str, data: &[u8]) -> (r: Result<usize, CgroupError>)
        ensures
            final(self).spec_parent() == old(self).spec_parent(),
            match old(self).spec_inner() {
                Some(p) => final(self).spec_inner() matches Some(q) && pids_write_outcome(p, q, name@, data@, r),
                None => final(self).spec_inner() is None && r == Err::<usize, CgroupError>(CgroupError::NotFound),
            },
    {
        match &mut self.inner {
            Some(p) => p.write_attr(name, data),
            None => Err(CgroupError::NotFound),
        }
    }

    fn try_charge_chain(&mut self) -> (r: Result<(), CgroupError>)
        requires
            charge_reachable_fits(old(self).chain()),
        ensures
            try_charge_outcome(old(self).chain(), final(self).chain(), r),
        decreases old(self).chain().len(),
    {
        let ghost b = self.chain();
        proof {
            self.lemma_chain();
            assert(b[0] == self.spec_inner());
        }
        proof {
            lemma_first_blocked_step(b);
            lemma_first_blocked_bound(b.drop_first());
        }
        let local = match &mut self.inner {
            Some(p) => {
                proof {
                    assert(b[0] == Some(*p));
                    if can_charge(*p) {
                        assert(0 < (match first_blocked(b) { Some(k) => k, None => b.len() as int }));
                    }
                }
                p.try_charge_local()
            },
            None => Ok(()),
        };
        if local.is_err() {
            proof {
                assert(first_blocked(b) == Some(0int));
                self.lemma_chain();
                assert(self.chain() =~= b);
            }
            return local;
        }
        let ghost mid_inner = self.spec_inner();
        let up = match &mut self.parent {
            Some(pb) => {
                proof {
                    let tail = pb.chain();
                    assert(b.drop_first() =~= tail);
                    lemma_first_blocked_bound(tail);
                    assert forall|i: int| 0 <= i < (match first_blocked(tail) { Some(k) => k, None => tail.len() as int }) implies (#[trigger] tail[i] matches Some(p) ==> charge_fits(p)) by {
                        assert(tail[i] == b[i + 1]);
                    }
                }
                pb.try_charge_chain()
            },
            None => Ok(()),
        };
        if up.is_err() {
            match &mut self.inner {
                Some(p) => p.uncharge_local(),
                None => {},
            }
        }
        proof {
            self.lemma_chain();
            let a = self.chain();
            assert(a[0] == self.spec_inner());
            match old(self).spec_parent() {
                Some(pp) => {
                    let tail = pp.chain();
                    assert(b.drop_first() =~= tail);
                    assert(a.drop_first() =~= self.spec_parent()->0.chain());
                    assert forall|i: int| 1 <= i < b.len() implies #[trigger] b[i] == tail[i - 1] && a[i] == a.drop_first()[i - 1] by {}
                },
                None => {
                    assert(b.len() == 1);
                    assert(first_blocked(b.drop_first()) is None);
                },
            }
        }
        up
    }

    fn charge_chain(&mut self)
        requires
            forall|i: int| 0 <= i < old(self).chain().len() ==> (#[trigger] old(self).chain()[i] matches Some(p) ==> p.spec_current() < u32::MAX),
        ensures
            final(self).chain().len() == old(self).chain().len(),
            forall|i: int| 0 <= i < old(self).chain().len() ==> level_is(#[trigger] old(self).chain()[i], final(self).chain()[i], |x, y| charged(x, y)),
        decreases old(self).chain().len(),
    {
        let ghost b = self.chain();
        proof {
            self.lemma_chain();
            assert(b[0] == self.spec_inner());
        }
        match &mut self.inner {
            Some(p) => p.charge_local(),
            None => {},
        }
        match &mut self.parent {
            Some(pb) => {
                proof {
                    let tail = pb.chain();
                    assert(b.drop_first() =~= tail);
                    assert forall|i: int| 0 <= i < tail.len() implies (#[trigger] tail[i] matches Some(p) ==> p.spec_current() < u32::MAX) by {
                        assert(tail[i] == b[i + 1]);
                    }
                }
                pb.charge_chain();
            },
            None => {},
        }
        proof {
            self.lemma_chain();
            let a = self.chain();
            match old(self).spec_parent() {
                Some(pp) => {
                    let tail = pp.chain();
                    assert(b.drop_first() =~= tail);
                    assert(a.drop_first() =~= self.spec_parent()->0.chain());
                    assert forall|i: int| 1 <= i < b.len() implies #[trigger] b[i] == tail[i - 1] && a[i] == a.drop_first()[i - 1] by {}
                },
                None => {},
            }
        }
    }

    fn uncharge_chain(&mut self)
        ensures
            final(self).chain().len() == old(self).chain().len(),
            forall|i: int| 0 <= i < old(self).chain().len() ==> level_is(#[trigger] old(self).chain()[i], final(self).chain()[i], |x, y| uncharged(x, y)),
        decreases old(self).chain().len(),
    {
        let ghost b = self.chain();
        proof {
            self.lemma_chain();
            assert(b[0] == self.spec_inner());
        }
        match &mut self.inner {
            Some(p) => p.uncharge_local(),
            None => {},
        }
        match &mut self.parent {
            Some(pb) => {
                proof {
                    assert(b.drop_first() =~= pb.chain());
                }
                pb.uncharge_chain();
            },
            None => {},
        }
        proof {
            self.lemma_chain();
            let a = self.chain();
            match old(self).spec_parent() {
                Some(pp) => {
                    let tail = pp.chain();
                    assert(b.drop_first() =~= tail);
                    assert(a.drop_first() =~= self.spec_parent()->0.chain());
                    assert forall|i: int| 1 <= i < b.len() implies #[trigger] b[i] == tail[i - 1] && a[i] == a.drop_first()[i - 1] by {}
                },
                None => {},
            }
        }
    }
}

// ---------------------------------------------------------------------------
// Laws
// ---------------------------------------------------------------------------

/// Writing a limit to `pids.max` and reading the file back gives the limit
/// on a line.
pub proof fn pids_max_reads_back_written_limit(b: PidsController, a: PidsController, v: u32, r: Result<usize, CgroupError>)
    requires
        v != PIDS_MAX_UNLIMITED,
        pids_write_outcome(b, a, "pids.max"@, decimal(v as nat), r),
    ensures
        r == Ok::<usize, CgroupError>(decimal(v as nat).len() as usize),
        pids_attr_text(a, "pids.max"@) == Some(dec(v as nat) + "\n"@),
{
    lemma_parse_decimal(v as nat);
    lemma_parse_decimal_typed(v as nat);
    assert(written_text(decimal(v as nat)) == Some(decimal(v as nat)));
    assert(pids_max_written(decimal(v as nat)) == Some(Some(v)));
}

/// Writing `max` to `pids.max` lifts the limit and reads back as `max`.
pub proof fn pids_max_reads_back_max(b: PidsController, a: PidsController, r: Result<usize, CgroupError>)
    requires
        pids_write_outcome(b, a, "pids.max"@, max_word(), r),
    ensures
        r is Ok,
        a.spec_limit() is None,
        pids_attr_text(a, "pids.max"@) == Some("max\n"@),
{
    crate::text::lemma_max_word();
    assert(pids_max_written(max_word()) == Some(None::<u32>));
}

/// Charging a task to every level and then taking it off again leaves every
/// level's count and limit as they were; only the high-water marks keep the
/// charge.
pub proof fn charge_then_uncharge_restores_counts(
    before: Seq<Option<PidsController>>,
    charged_chain: Seq<Option<PidsController>>,
    after: Seq<Option<PidsController>>,
)
    requires
        charged_chain.len() == before.len(),
        after.len() == before.len(),
        forall|i: int| 0 <= i < before.len() ==> level_is(#[trigger] before[i], charged_chain[i], |x, y| charged(x, y)),
        forall|i: int| 0 <= i < before.len() ==> level_is(#[trigger] charged_chain[i], after[i], |x, y| uncharged(x, y)),
    ensures
        forall|i: int| 0 <= i < before.len() ==> level_is(#[trigger] before[i], after[i], |x, y| peak_bumped(x, y)),
{
    assert forall|i: int| 0 <= i < before.len() implies level_is(#[trigger] before[i], after[i], |x, y| peak_bumped(x, y)) by {
        assert(level_is(before[i], charged_chain[i], |x, y| charged(x, y)));
        assert(level_is(charged_chain[i], after[i], |x, y| uncharged(x, y)));
    }
}

/// A refused hierarchical charge takes no task anywhere: every level keeps
/// its count and limit (the levels it passed keep a raised high-water mark).
pub proof fn refused_charge_keeps_counts(
    before: Seq<Option<PidsController>>,
    after: Seq<Option<PidsController>>,
    r: Result<(), CgroupError>,
)
    requires
        try_charge_outcome(before, after, r),
        r is Err,
    ensures
        after.len() == before.len(),
        forall|i: int| 0 <= i < before.len() ==> (#[trigger] before[i] matches Some(x) ==> (after[i] matches Some(y)
            && y.spec_current() == x.spec_current() && y.spec_max_raw() == x.spec_max_raw())),
        forall|i: int| 0 <= i < before.len() ==> (before[i] is None ==> #[trigger] after[i] is None),
{
    let k = first_blocked(before)->0;
    assert forall|i: int| 0 <= i < before.len() implies (#[trigger] before[i] matches Some(x) ==> (after[i] matches Some(y)
        && y.spec_current() == x.spec_current() && y.spec_max_raw() == x.spec_max_raw())) by {
        if i < k {
            assert(level_is(before[i], after[i], |x, y| peak_bumped(x, y)));
        } else {
            assert(after[i] == before[i]);
        }
    }
    assert forall|i: int| 0 <= i < before.len() && before[i] is None implies #[trigger] after[i] is None by {
        if i < k {
            assert(level_is(before[i], after[i], |x, y| peak_bumped(x, y)));
        } else {
            assert(after[i] == before[i]);
        }
    }
}

proof fn lemma_first_blocked_props(c: Seq<Option<PidsController>>)
    ensures
        first_blocked(c) is None ==> forall|i: int| 0 <= i < c.len() ==> (#[trigger] c[i] matches Some(p) ==> can_charge(p)),
        first_blocked(c) matches Some(k) ==> 0 <= k < c.len() && (c[k] matches Some(p) && !can_charge(p)),
    decreases c.len(),
{
    if c.len() > 0 {
        lemma_first_blocked_props(c.drop_first());
        assert forall|i: int| 1 <= i < c.len() implies #[trigger] c[i] == c.drop_first()[i - 1] by {}
    }
}

/// A hierarchical charge keeps every limit: when it succeeds, each level
/// with a limit holds one more task and is still within its limit; when it
/// is refused, some level was already at or above its limit.
pub proof fn charge_respects_limits(before: Seq<Option<PidsController>>, after: Seq<Option<PidsController>>, r: Result<(), CgroupError>)
    requires
        try_charge_outcome(before, after, r),
    ensures
        r is Ok ==> forall|i: int| 0 <= i < before.len() ==> (#[trigger] before[i] matches Some(x) ==> (after[i] matches Some(y)
            && y.spec_current() == x.spec_current() + 1
            && (x.spec_max_raw() != 0xFFFF_FFFFu32 ==> y.spec_current() <= y.spec_max_raw()))),
        r is Err ==> exists|k: int| 0 <= k < before.len() && (#[trigger] before[k] matches Some(x)
            && x.spec_max_raw() != 0xFFFF_FFFFu32 && x.spec_current() >= x.spec_max_raw()),
{
    lemma_first_blocked_props(before);
    if r is Ok {
        assert forall|i: int| 0 <= i < before.len() implies (#[trigger] before[i] matches Some(x) ==> (after[i] matches Some(y)
            && y.spec_current() == x.spec_current() + 1
            && (x.spec_max_raw() != 0xFFFF_FFFFu32 ==> y.spec_current() <= y.spec_max_raw()))) by {
            assert(level_is(before[i], after[i], |x, y| charged(x, y)));
        }
    } else {
        let k = first_blocked(before)->0;
        assert(before[k] matches Some(x) && x.spec_max_raw() != 0xFFFF_FFFFu32 && x.spec_current() >= x.spec_max_raw());
    }
}

} // verus!
