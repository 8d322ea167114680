//! The `cpuset` controller: read-only CPU and memory node affinity.
//!
//! Control files, all read-only: `cpuset.cpus`, `cpuset.cpus.effective`,
//! `cpuset.mems`, `cpuset.mems.effective`. Each reports a mask as a list of
//! ranges such as `0-3,5`.

use vstd::prelude::*;
use vstd::string::StringExecFns;

use crate::cgroup::controller::SubController;
use crate::cgroup::{read_outcome, CgroupError};
use crate::text::{append_u64, dec, join, lemma_join_push, read_text_at, str_is};

verus! {

/// The CPU and memory node masks a cgroup reports.
#[derive(Debug, Clone, Copy)]
pub struct CpuSetController {
    cpus_mask: u32,
    mems_mask: u32,
}

/// Bit `i` of `mask` is set.
pub open spec fn bit(mask: u32, i: int) -> bool {
    0 <= i < 32 && mask & (1u32 << (i as u32)) != 0
}

/// The last position of the run of set bits through position `i`.
pub open spec fn run_end(mask: u32, i: int) -> int
    decreases 32 - i,
{
    if 0 <= i && i + 1 < 32 && bit(mask, i + 1) {
        run_end(mask, i + 1)
    } else {
        i
    }
}

pub proof fn lemma_run_end(mask: u32, i: int)
    requires
        0 <= i < 32,
    ensures
        i <= run_end(mask, i) < 32,
    decreases 32 - i,
{
    if i + 1 < 32 && bit(mask, i + 1) {
        lemma_run_end(mask, i + 1);
    }
}

/// The maximal runs of set bits at positions `i` and above, lowest first,
/// as (first, last) positions.
pub open spec fn runs(mask: u32, i: int) -> Seq<(int, int)>
    decreases 32 - i,
{
    if i < 0 || i >= 32 {
        Seq::empty()
    } else if !bit(mask, i) {
        runs(mask, i + 1)
    } else {
        let e = run_end(mask, i);
        proof {
            lemma_run_end(mask, i);
        }
        seq![(i, e)] + runs(mask, e + 1)
    }
}

/// A run as text: `5` for a single position, `0-3` for several.
pub open spec fn run_text(r: (int, int)) -> Seq<char> {
    if r.0 == r.1 {
        dec(r.0 as nat)
    } else {
        dec(r.0 as nat) + "-"@ + dec(r.1 as nat)
    }
}

/// A mask as a comma-separated list of runs, e.g. `0b1011` is `0-1,3`.
pub open spec fn mask_text(mask: u32) -> Seq<char> {
    join(runs(mask, 0).map_values(|r: (int, int)| run_text(r)), ","@)
}

/// The text of a `cpuset` attribute, if `name` is one.
pub open spec fn cpuset_attr_text(c: CpuSetController, name: Seq<char>) -> Option<Seq<char>> {
    if name == "cpuset.cpus"@ || name == "cpuset.cpus.effective"@ {
        Some(mask_text(c.spec_cpus_mask()) + "\n"@)
    } else if name == "cpuset.mems"@ || name == "cpuset.mems.effective"@ {
        Some(mask_text(c.spec_mems_mask()) + "\n"@)
    } else {
        None
    }
}

/// Converts a bitmask to its list of runs, e.g. `0b1111` is `0-3` and
/// `0b1010` is `1,3`.
pub fn mask_to_range_str(mask: u32) -> (s: String)
    ensures
        s@ == mask_text(mask),
{
    if mask == 0 {
        proof {
            lemma_runs_of_zero(0);
        }
        return String::new();
    }
    let mut found: Vec<(u32, u32)> = Vec::new();
    let mut i: u32 = 0;
    while i < 32
        invariant
            i <= 32,
            found@.map_values(|r: (u32, u32)| (r.0 as int, r.1 as int)) + runs(mask, i as int) == runs(mask, 0),
            forall|k: int| 0 <= k < found@.len() ==> (#[trigger] found@[k]).0 <= found@[k].1 < 32,
        decreases 32 - i,
    {
        if mask & (1u32 << i) != 0 {
            let start = i;
            i = i + 1;
            while i < 32 && mask & (1u32 << i) != 0
                invariant
                    start < i <= 32,
                    bit(mask, start as int),
                    run_end(mask, start as int) == run_end(mask, i - 1),
                decreases 32 - i,
            {
                i = i + 1;
            }
            proof {
                lemma_run_end(mask, start as int);
                assert(run_end(mask, i - 1) == i - 1);
            }
            let ghost before = found@;
            found.push((start, i - 1));
            assert(found@.map_values(|r: (u32, u32)| (r.0 as int, r.1 as int)) =~= before.map_values(
                |r: (u32, u32)| (r.0 as int, r.1 as int),
            ).push((start as int, i - 1)));
        } else {
            i = i + 1;
        }
    }
    assert(found@.map_values(|r: (u32, u32)| (r.0 as int, r.1 as int)) =~= runs(mask, 0));
    let mut s = String::new();
    let mut k: usize = 0;
    while k < found.len()
        invariant
            k <= found@.len(),
            found@.map_values(|r: (u32, u32)| (r.0 as int, r.1 as int)) == runs(mask, 0),
            forall|j: int| 0 <= j < found@.len() ==> (#[trigger] found@[j]).0 <= found@[j].1 < 32,
            s@ == join(runs(mask, 0).take(k as int).map_values(|r: (int, int)| run_text(r)), ","@),
        decreases found@.len() - k,
    {
        let (a, b) = found[k];
        let ghost done = runs(mask, 0).take(k as int).map_values(|r: (int, int)| run_text(r));
        let ghost piece = run_text((a as int, b as int));
        proof {
            lemma_join_push(done, piece, ","@);
            assert(runs(mask, 0)[k as int] == (a as int, b as int));
            assert(runs(mask, 0).take(k + 1).map_values(|r: (int, int)| run_text(r)) =~= done.push(piece));
        }
        if k > 0 {
            s.append(",");
        }
        append_u64(&mut s, a as u64);
        if a != b {
            s.append("-");
            append_u64(&mut s, b as u64);
        }
        k = k + 1;
    }
    assert(runs(mask, 0).take(found@.len() as int) =~= runs(mask, 0));
    s
}

proof fn lemma_runs_of_zero(i: int)
    ensures
        runs(0, i) == Seq::<(int, int)>::empty(),
    decreases 32 - i,
{
    if 0 <= i < 32 {
        let sh = 1u32 << (i as u32);
        assert(0u32 & sh == 0) by (bit_vector);
        lemma_runs_of_zero(i + 1);
    }
}

impl CpuSetController {
    pub closed spec fn spec_cpus_mask(&self) -> u32 {
        self.cpus_mask
    }

    pub closed spec fn spec_mems_mask(&self) -> u32 {
        self.mems_mask
    }

    /// CPU 0 and memory node 0, for root and child cgroups alike.
    pub fn new(is_root: bool, is_active: bool) -> (c: Self)
        ensures
            c.spec_cpus_mask() == 1,
            c.spec_mems_mask() == 1,
    {
        CpuSetController { cpus_mask: 1, mems_mask: 1 }
    }

    fn cpus_effective_str(&self) -> (s: String)
        ensures
            s@ == mask_text(self.spec_cpus_mask()),
    {
        mask_to_range_str(self.cpus_mask)
    }

    fn mems_effective_str(&self) -> (s: String)
        ensures
            s@ == mask_text(self.spec_mems_mask()),
    {
        mask_to_range_str(self.mems_mask)
    }

    /// Reads one of the four `cpuset` attributes at `offset` into `buf`.
    pub fn read_attr_at(&self, name: &str, offset: usize, buf: &mut [u8]) -> (r: Result<usize, CgroupError>)
        ensures
            read_outcome(cpuset_attr_text(*self, name@), offset as nat, old(buf)@, final(buf)@, r),
    {
        let mut text = if str_is(name, "cpuset.cpus") || str_is(name, "cpuset.cpus.effective") {
            self.cpus_effective_str()
        } else if str_is(name, "cpuset.mems") || str_is(name, "cpuset.mems.effective") {
            self.mems_effective_str()
        } else {
            return Err(CgroupError::NotFound);
        };
        text.append("\n");
        Ok(read_text_at(&text, offset, buf))
    }

    /// Every `cpuset` attribute is read-only.
    pub fn write_attr(&self, name: &str, data: &[u8]) -> (r: Result<usize, CgroupError>)
        ensures
            cpuset_attr_text(*self, name@) is Some ==> r == Err::<usize, CgroupError>(CgroupError::PermissionDenied),
            cpuset_attr_text(*self, name@) is None ==> r == Err::<usize, CgroupError>(CgroupError::NotFound),
    {
        if str_is(name, "cpuset.cpus") || str_is(name, "cpuset.cpus.effective") || str_is(name, "cpuset.mems")
            || str_is(name, "cpuset.mems.effective") {
            Err(CgroupError::PermissionDenied)
        } else {
            Err(CgroupError::NotFound)
        }
    }
}

impl SubController<CpuSetController> {
    /// Reads a `cpuset` attribute of the held state; `NotFound` without state.
    pub fn read_attr_at(&self, name: &str, offset: usize, buf: &mut [u8]) -> (r: Result<usize, CgroupError>)
        ensures
            read_outcome(
                match self.spec_inner() {
                    Some(c) => cpuset_attr_text(c, name@),
                    None => None,
                },
                offset as nat,
                old(buf)@,
                final(buf)@,
                r,
            ),
    {
        match &self.inner {
            Some(c) => c.read_attr_at(name, offset, buf),
            None => Err(CgroupError::NotFound),
        }
    }

    /// Writes a `cpuset` attribute: refused, as all of them are read-only.
    pub fn write_attr(&self, name: &str, data: &[u8]) -> (r: Result<usize, CgroupError>)
        ensures
            match self.spec_inner() {
                Some(c) => if cpuset_attr_text(c, name@) is Some {
                    r == Err::<usize, CgroupError>(CgroupError::PermissionDenied)
                } else {
                    r == Err::<usize, CgroupError>(CgroupError::NotFound)
                },
                None => r == Err::<usize, CgroupError>(CgroupError::NotFound),
            },
    {
        match &self.inner {
            Some(c) => c.write_attr(name, data),
            None => Err(CgroupError::NotFound),
        }
    }
}

// ---------------------------------------------------------------------------
// Laws
// ---------------------------------------------------------------------------

/// The runs `rs` of `mask` taken from position `i` on are ordered, apart,
/// maximal, and cover exactly the set bits at `i` and above.
pub open spec fn runs_exact(mask: u32, i: int, rs: Seq<(int, int)>) -> bool {
    &&& forall|k: int| 0 <= k < rs.len() ==> i <= (#[trigger] rs[k]).0 <= rs[k].1 < 32
    &&& forall|k: int, j: int| #![trigger rs[k], bit(mask, j)] 0 <= k < rs.len() && rs[k].0 <= j <= rs[k].1 ==> bit(mask, j)
    &&& forall|k: int| 0 <= k < rs.len() ==> !bit(mask, (#[trigger] rs[k]).1 + 1)
    &&& forall|k: int| 0 <= k < rs.len() && (#[trigger] rs[k]).0 > i ==> !bit(mask, rs[k].0 - 1)
    &&& forall|k1: int, k2: int| 0 <= k1 < k2 < rs.len() ==> (#[trigger] rs[k1]).1 + 1 < (#[trigger] rs[k2]).0
    &&& forall|j: int| i <= j < 32 && #[trigger] bit(mask, j) ==> exists|k: int| 0 <= k < rs.len() && (#[trigger] rs[k]).0 <= j <= rs[k].1
}

proof fn lemma_run_end_bits(mask: u32, i: int)
    requires
        0 <= i < 32,
        bit(mask, i),
    ensures
        forall|j: int| i <= j <= run_end(mask, i) ==> #[trigger] bit(mask, j),
        !bit(mask, run_end(mask, i) + 1),
    decreases 32 - i,
{
    if i + 1 < 32 && bit(mask, i + 1) {
        lemma_run_end_bits(mask, i + 1);
    }
}

proof fn lemma_runs_exact(mask: u32, i: int)
    requires
        0 <= i <= 32,
    ensures
        runs_exact(mask, i, runs(mask, i)),
    decreases 32 - i,
{
    let rs = runs(mask, i);
    if i == 32 {
        assert(rs.len() == 0);
    } else if !bit(mask, i) {
        lemma_runs_exact(mask, i + 1);
        assert(rs == runs(mask, i + 1));
        assert forall|j: int| i <= j < 32 && #[trigger] bit(mask, j) implies exists|k: int| 0 <= k < rs.len() && (#[trigger] rs[k]).0 <= j <= rs[k].1 by {
            assert(j != i);
        }
    } else {
        let e = run_end(mask, i);
        lemma_run_end(mask, i);
        lemma_run_end_bits(mask, i);
        lemma_runs_exact(mask, e + 1);
        let tail = runs(mask, e + 1);
        assert(rs == seq![(i, e)] + tail);
        assert forall|k: int| 1 <= k < rs.len() implies #[trigger] rs[k] == tail[k - 1] && tail[k - 1].0 > e + 1 by {
            assert(bit(mask, tail[k - 1].0));
        }
        assert forall|k: int, j: int| #![trigger rs[k], bit(mask, j)] 0 <= k < rs.len() && rs[k].0 <= j <= rs[k].1 implies bit(mask, j) by {
            if k > 0 {
                assert(rs[k] == tail[k - 1]);
            }
        }
        assert forall|k: int| 0 <= k < rs.len() && (#[trigger] rs[k]).0 > i implies !bit(mask, rs[k].0 - 1) by {
            assert(k > 0);
            assert(rs[k] == tail[k - 1]);
        }
        assert forall|k1: int, k2: int| 0 <= k1 < k2 < rs.len() implies (#[trigger] rs[k1]).1 + 1 < (#[trigger] rs[k2]).0 by {
            assert(rs[k2] == tail[k2 - 1]);
            if k1 > 0 {
                assert(rs[k1] == tail[k1 - 1]);
            }
        }
        assert forall|j: int| i <= j < 32 && #[trigger] bit(mask, j) implies exists|k: int| 0 <= k < rs.len() && (#[trigger] rs[k]).0 <= j <= rs[k].1 by {
            if j <= e {
                assert(rs[0] == (i, e));
            } else {
                assert(j != e + 1);
                let k = choose|k: int| 0 <= k < tail.len() && (#[trigger] tail[k]).0 <= j <= tail[k].1;
                assert(rs[k + 1] == tail[k]);
            }
        }
    }
}

/// A mask is listed as its runs of set bits, lowest first: each run is
/// set throughout, runs are apart and cannot be extended, and every set
/// bit lies in one of them.
pub proof fn mask_runs_are_exactly_the_set_bits(mask: u32)
    ensures
        runs_exact(mask, 0, runs(mask, 0)),
{
    lemma_runs_exact(mask, 0);
}

} // verus!
