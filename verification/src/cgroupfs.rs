//! The files of the cgroup2 pseudo-filesystem: which names a cgroup
//! directory lists, which of them are files, and what each file reads and
//! what a write to it does to the cgroup's `pids` and `cpu` state.

use vstd::prelude::*;
use vstd::string::StringExecFns;

use crate::cgroup::cpu::BandwidthState;
use crate::cgroup::pids::PidsState;
use crate::cgroup::cgroup_core::{find_name_from, lemma_find_name_from, string_views, CgroupNode, CgroupTree};
use crate::cgroup::systree_node::{pid_lines, procs_lines};
use crate::text::{
    append_i64, append_u64, bytes_are, dec, is_utf8, join, lemma_join_push, parse_i64, sdec, spec_parse_i64, split_words, str_is,
    trim, trim_bounds, words,
};

verus! {

/// A file of a cgroup directory.
#[derive(Debug, Clone, Copy, PartialEq, Eq, Structural)]
pub enum CgroupFile {
    Controllers,
    SubtreeControl,
    Type,
    Procs,
    PidsMax,
    PidsCurrent,
    CpuWeight,
    CpuMax,
    CpuStat,
}

/// The name of a file.
pub open spec fn file_name(f: CgroupFile) -> Seq<char> {
    match f {
        CgroupFile::Controllers => "cgroup.controllers"@,
        CgroupFile::SubtreeControl => "cgroup.subtree_control"@,
        CgroupFile::Type => "cgroup.type"@,
        CgroupFile::Procs => "cgroup.procs"@,
        CgroupFile::PidsMax => "pids.max"@,
        CgroupFile::PidsCurrent => "pids.current"@,
        CgroupFile::CpuWeight => "cpu.weight"@,
        CgroupFile::CpuMax => "cpu.max"@,
        CgroupFile::CpuStat => "cpu.stat"@,
    }
}

/// The files of a cgroup directory, in the order they are listed.
pub open spec fn file_order() -> Seq<CgroupFile> {
    seq![
        CgroupFile::Controllers,
        CgroupFile::SubtreeControl,
        CgroupFile::Type,
        CgroupFile::Procs,
        CgroupFile::PidsMax,
        CgroupFile::PidsCurrent,
        CgroupFile::CpuWeight,
        CgroupFile::CpuMax,
        CgroupFile::CpuStat,
    ]
}

/// The file called `name`, if a cgroup directory has one; any other name is
/// looked up among the child cgroups.
pub open spec fn file_named(name: Seq<char>) -> Option<CgroupFile> {
    if name == "cgroup.controllers"@ {
        Some(CgroupFile::Controllers)
    } else if name == "cgroup.subtree_control"@ {
        Some(CgroupFile::SubtreeControl)
    } else if name == "cgroup.type"@ {
        Some(CgroupFile::Type)
    } else if name == "cgroup.procs"@ {
        Some(CgroupFile::Procs)
    } else if name == "pids.max"@ {
        Some(CgroupFile::PidsMax)
    } else if name == "pids.current"@ {
        Some(CgroupFile::PidsCurrent)
    } else if name == "cpu.weight"@ {
        Some(CgroupFile::CpuWeight)
    } else if name == "cpu.max"@ {
        Some(CgroupFile::CpuMax)
    } else if name == "cpu.stat"@ {
        Some(CgroupFile::CpuStat)
    } else {
        None
    }
}

impl CgroupFile {
    /// The file called `name`.
    pub fn from_name(name: &str) -> (r: Option<CgroupFile>)
        ensures
            r == file_named(name@),
    {
        if str_is(name, "cgroup.controllers") {
            Some(CgroupFile::Controllers)
        } else if str_is(name, "cgroup.subtree_control") {
            Some(CgroupFile::SubtreeControl)
        } else if str_is(name, "cgroup.type") {
            Some(CgroupFile::Type)
        } else if str_is(name, "cgroup.procs") {
            Some(CgroupFile::Procs)
        } else if str_is(name, "pids.max") {
            Some(CgroupFile::PidsMax)
        } else if str_is(name, "pids.current") {
            Some(CgroupFile::PidsCurrent)
        } else if str_is(name, "cpu.weight") {
            Some(CgroupFile::CpuWeight)
        } else if str_is(name, "cpu.max") {
            Some(CgroupFile::CpuMax)
        } else if str_is(name, "cpu.stat") {
            Some(CgroupFile::CpuStat)
        } else {
            None
        }
    }

    /// The file's name.
    pub fn name(self) -> (s: &'static str)
        ensures
            s@ == file_name(self),
    {
        match self {
            CgroupFile::Controllers => "cgroup.controllers",
            CgroupFile::SubtreeControl => "cgroup.subtree_control",
            CgroupFile::Type => "cgroup.type",
            CgroupFile::Procs => "cgroup.procs",
            CgroupFile::PidsMax => "pids.max",
            CgroupFile::PidsCurrent => "pids.current",
            CgroupFile::CpuWeight => "cpu.weight",
            CgroupFile::CpuMax => "cpu.max",
            CgroupFile::CpuStat => "cpu.stat",
        }
    }

    /// The file takes writes: `cgroup.procs`, `pids.max`, `cpu.weight` and
    /// `cpu.max`.
    pub fn is_writable(self) -> (w: bool)
        ensures
            w == (self == CgroupFile::Procs || self == CgroupFile::PidsMax || self == CgroupFile::CpuWeight || self
                == CgroupFile::CpuMax),
    {
        match self {
            CgroupFile::Procs | CgroupFile::PidsMax | CgroupFile::CpuWeight | CgroupFile::CpuMax => true,
            _ => false,
        }
    }
}

/// What a name in a cgroup directory stands for.
#[derive(Debug, Clone, Copy, PartialEq, Eq, Structural)]
pub enum CgroupEntry {
    /// One of the directory's files.
    File(CgroupFile),
    /// The child cgroup at this index of the hierarchy.
    Dir(usize),
}

/// What `name` stands for in the directory of cgroup `id`: a file of that
/// name, else the child cgroup of that name, else nothing.
pub open spec fn entry_named(tree: CgroupTree, id: int, name: Seq<char>) -> Option<CgroupEntry> {
    match file_named(name) {
        Some(f) => Some(CgroupEntry::File(f)),
        None => match tree.child_named(id, name) {
            Some(c) => Some(CgroupEntry::Dir(c)),
            None => None,
        },
    }
}

/// What the directory of cgroup `id` lists: its files, then its children.
pub open spec fn listed_names(tree: CgroupTree, id: int) -> Seq<Seq<char>> {
    file_order().map_values(|f: CgroupFile| file_name(f)) + tree.child_names_of(id)
}

/// Looks `name` up in the directory of cgroup `id`.
pub fn lookup_entry(tree: &CgroupTree, id: usize, name: &str) -> (r: Option<CgroupEntry>)
    requires
        tree.wf(),
        tree.valid(id as int),
    ensures
        r == entry_named(*tree, id as int, name@),
{
    match CgroupFile::from_name(name) {
        Some(f) => Some(CgroupEntry::File(f)),
        None => match tree.get_child(id, name) {
            Some(c) => Some(CgroupEntry::Dir(c)),
            None => None,
        },
    }
}

/// What the directory of cgroup `id` lists.
pub fn list_entries(tree: &CgroupTree, id: usize) -> (v: Vec<String>)
    requires
        tree.wf(),
        tree.valid(id as int),
    ensures
        string_views(v@) == listed_names(*tree, id as int),
{
    dir_entry_names(&tree.child_names(id))
}

/// Every name a cgroup directory lists can be looked up in it: a file's
/// name gives that file, and a child's name, unless a file has it, gives
/// that child.
pub proof fn listed_names_resolve(tree: CgroupTree, id: int, n: Seq<char>)
    requires
        tree.wf(),
        tree.valid(id),
        listed_names(tree, id).contains(n),
    ensures
        entry_named(tree, id, n) is Some,
        file_named(n) is None ==> (entry_named(tree, id, n) matches Some(CgroupEntry::Dir(c)) && tree.at(c as int).name@ == n
            && tree.at(id).children@.contains(c)),
{
    let fs = file_order().map_values(|f: CgroupFile| file_name(f));
    let k = choose|k: int| 0 <= k < listed_names(tree, id).len() && listed_names(tree, id)[k] == n;
    if k < 9 {
        lemma_file_name_found(file_order()[k]);
        assert(n == fs[k]);
        assert(file_named(n) == Some(file_order()[k]));
    } else {
        let names = tree.child_names_of(id);
        assert(names[k - 9] == n);
        lemma_find_name_from(names, n, 0);
        if file_named(n) is None {
            let j = find_name_from(names, n, 0)->0;
            assert(tree.at(id).children@.contains(tree.at(id).children@[j]));
        }
    }
}

proof fn lemma_file_name_found(f: CgroupFile)
    ensures
        file_named(file_name(f)) == Some(f),
{
    reveal_strlit("cgroup.controllers");
    reveal_strlit("cgroup.subtree_control");
    reveal_strlit("cgroup.type");
    reveal_strlit("cgroup.procs");
    reveal_strlit("pids.max");
    reveal_strlit("pids.current");
    reveal_strlit("cpu.weight");
    reveal_strlit("cpu.max");
    reveal_strlit("cpu.stat");
    assert("cgroup.controllers"@.len() == 18);
    assert("cgroup.subtree_control"@.len() == 22);
    assert("cgroup.type"@.len() == 11);
    assert("cgroup.procs"@.len() == 12);
    assert("pids.max"@.len() == 8);
    assert("pids.current"@.len() == 12);
    assert("cpu.weight"@.len() == 10);
    assert("cpu.max"@.len() == 7);
    assert("cpu.stat"@.len() == 8);
    assert("cgroup.procs"@[0] != "pids.current"@[0]);
    assert("pids.max"@[0] != "cpu.stat"@[0]);
}

/// What a cgroup directory lists: its files, then its child cgroups.
pub fn dir_entry_names(children: &Vec<String>) -> (v: Vec<String>)
    ensures
        string_views(v@) == file_order().map_values(|f: CgroupFile| file_name(f)) + string_views(children@),
{
    let files: [CgroupFile; 9] = [
        CgroupFile::Controllers,
        CgroupFile::SubtreeControl,
        CgroupFile::Type,
        CgroupFile::Procs,
        CgroupFile::PidsMax,
        CgroupFile::PidsCurrent,
        CgroupFile::CpuWeight,
        CgroupFile::CpuMax,
        CgroupFile::CpuStat,
    ];
    let ghost order = file_order().map_values(|f: CgroupFile| file_name(f));
    assert(files@ =~= file_order());
    let mut v: Vec<String> = Vec::new();
    let mut i: usize = 0;
    while i < 9
        invariant
            files@ == file_order(),
            order == file_order().map_values(|f: CgroupFile| file_name(f)),
            0 <= i <= 9,
            string_views(v@) == order.take(i as int),
        decreases 9 - i,
    {
        let ghost before = v@;
        v.push(String::from_str(files[i].name()));
        assert(string_views(v@) =~= string_views(before).push(file_name(files@[i as int])));
        assert(order.take(i + 1) =~= order.take(i as int).push(order[i as int]));
        i = i + 1;
    }
    assert(order.take(9) =~= order);
    let mut j: usize = 0;
    while j < children.len()
        invariant
            order == file_order().map_values(|f: CgroupFile| file_name(f)),
            0 <= j <= children@.len(),
            string_views(v@) == order + string_views(children@).take(j as int),
        decreases children@.len() - j,
    {
        let ghost before = v@;
        v.push(children[j].clone());
        assert(string_views(v@) =~= string_views(before).push(children@[j as int]@));
        assert(string_views(children@).take(j + 1) =~= string_views(children@).take(j as int).push(children@[j as int]@));
        j = j + 1;
    }
    assert(string_views(children@).take(children@.len() as int) =~= string_views(children@));
    v
}

/// `cgroup.type`: every cgroup is a domain.
pub fn cgroup_type_text() -> (s: String)
    ensures
        s@ == "domain\n"@,
{
    String::from_str("domain\n")
}

/// `max` for a negative limit, else the limit, on a line.
pub open spec fn limit_line(v: i64) -> Seq<char> {
    if v < 0 {
        "max\n"@
    } else {
        sdec(v as int) + "\n"@
    }
}

/// `pids.max`: the limit of the cgroup's `pids` state, `max` without one.
pub fn pids_max_text(state: Option<&PidsState>) -> (s: String)
    ensures
        s@ == match state {
            Some(p) => limit_line(p.max),
            None => "max\n"@,
        },
{
    let mut s = String::new();
    match state {
        Some(p) => {
            if p.max < 0 {
                s.append("max\n");
            } else {
                append_i64(&mut s, p.max);
                s.append("\n");
            }
        },
        None => {
            s.append("max\n");
        },
    }
    s
}

/// The text a write to a `pids` or `cpu` file hands over: its bytes without
/// surrounding whitespace, or nothing when they are not UTF-8.
pub open spec fn lenient_text(data: Seq<u8>) -> Seq<u8> {
    if vstd::utf8::valid_utf8(data) {
        trim(data)
    } else {
        Seq::empty()
    }
}

/// What a write of `data` to `pids.max` leaves of limit `max`: `max`
/// lifts the limit (-1), a number sets it, anything else leaves it.
pub open spec fn pids_max_after(max: i64, data: Seq<u8>) -> i64 {
    let t = lenient_text(data);
    if t == vstd::utf8::encode_utf8("max"@) {
        -1i64
    } else {
        match spec_parse_i64(t) {
            Some(v) => v,
            None => max,
        }
    }
}

/// The bounds of the text a write hands over, if it is UTF-8.
fn lenient_bounds(data: &[u8]) -> (r: (usize, usize))
    ensures
        r.0 <= r.1 <= data@.len(),
        data@.subrange(r.0 as int, r.1 as int) == lenient_text(data@),
{
    if !is_utf8(data) {
        return (0, 0);
    }
    assert(data@.subrange(0, data@.len() as int) =~= data@);
    trim_bounds(data, 0, data.len())
}

/// Writes `pids.max` of the cgroup's `pids` state.
pub fn write_pids_max(state: &mut PidsState, data: &[u8])
    ensures
        *final(state) == (PidsState { max: pids_max_after(old(state).max, data@), ..*old(state) }),
{
    let (lo, hi) = lenient_bounds(data);
    if bytes_are(data, lo, hi, "max") {
        state.max = -1;
    } else {
        match parse_i64(data, lo, hi) {
            Some(v) => {
                state.max = v;
            },
            None => {},
        }
    }
}

/// `pids.current`: the process count of the cgroup's `pids` state, 0
/// without one.
pub fn pids_current_text(state: Option<&PidsState>) -> (s: String)
    ensures
        s@ == match state {
            Some(p) => sdec(p.current as int) + "\n"@,
            None => "0\n"@,
        },
{
    let mut s = String::new();
    match state {
        Some(p) => {
            append_i64(&mut s, p.current);
            s.append("\n");
        },
        None => {
            s.append("0\n");
        },
    }
    s
}

/// `cpu.weight`: always the default weight; writes are taken and ignored.
pub fn cpu_weight_text() -> (s: String)
    ensures
        s@ == "100\n"@,
{
    String::from_str("100\n")
}

/// `cpu.max`: the quota (`max` when negative) and the period, 100 ms
/// unlimited without bandwidth state.
pub fn cpu_max_text(state: Option<&BandwidthState>) -> (s: String)
    ensures
        s@ == match state {
            Some(b) => (if b.quota < 0 {
                "max "@
            } else {
                sdec(b.quota as int) + " "@
            }) + sdec(b.period as int) + "\n"@,
            None => "max 100000\n"@,
        },
{
    let mut s = String::new();
    match state {
        Some(b) => {
            if b.quota < 0 {
                s.append("max ");
            } else {
                append_i64(&mut s, b.quota);
                s.append(" ");
            }
            append_i64(&mut s, b.period);
            s.append("\n");
        },
        None => {
            s.append("max 100000\n");
        },
    }
    s
}

/// What a write of `data` to `cpu.max` does to bandwidth state `b`: the
/// first word sets the quota (`max` lifts it), the second the period,
/// each only if it parses; the period's accounting starts over.
pub open spec fn cpu_max_after(b: BandwidthState, data: Seq<u8>) -> BandwidthState {
    let ws = words(lenient_text(data));
    let quota = if ws.len() > 0 {
        if ws[0] == vstd::utf8::encode_utf8("max"@) {
            -1i64
        } else {
            match spec_parse_i64(ws[0]) {
                Some(q) => q,
                None => b.quota,
            }
        }
    } else {
        b.quota
    };
    let period = if ws.len() > 1 {
        match spec_parse_i64(ws[1]) {
            Some(p) => p,
            None => b.period,
        }
    } else {
        b.period
    };
    BandwidthState { quota, period, consumed: 0, period_start: 0, ..b }
}

/// Writes `cpu.max` of the cgroup's bandwidth state.
pub fn write_cpu_max(state: &mut BandwidthState, data: &[u8])
    ensures
        *final(state) == cpu_max_after(*old(state), data@),
{
    let (lo, hi) = lenient_bounds(data);
    let parts = split_words(data, lo, hi);
    let ghost ws = words(data@.subrange(lo as int, hi as int));
    assert(parts@.len() == ws.len());
    if parts.len() > 0 {
        let (a, b) = parts[0];
        assert(ws[0] == data@.subrange(a as int, b as int));
        if bytes_are(data, a, b, "max") {
            state.quota = -1;
        } else {
            match parse_i64(data, a, b) {
                Some(q) => {
                    state.quota = q;
                },
                None => {},
            }
        }
    }
    if parts.len() > 1 {
        let (a, b) = parts[1];
        assert(ws[1] == data@.subrange(a as int, b as int));
        match parse_i64(data, a, b) {
            Some(p) => {
                state.period = p;
            },
            None => {},
        }
    }
    state.consumed = 0;
    state.period_start = 0;
}

/// `cpu.stat`: the period and throttling counters, zeros without bandwidth
/// state.
pub fn cpu_stat_text(state: Option<&BandwidthState>) -> (s: String)
    ensures
        s@ == match state {
            Some(b) => "nr_periods "@ + dec(b.nr_periods as nat) + "\nnr_throttled "@ + dec(b.nr_throttled as nat)
                + "\nthrottled_usec "@ + dec(b.throttled_usec as nat) + "\n"@,
            None => "nr_periods 0\nnr_throttled 0\nthrottled_usec 0\n"@,
        },
{
    let mut s = String::new();
    match state {
        Some(b) => {
            s.append("nr_periods ");
            append_u64(&mut s, b.nr_periods);
            s.append("\nnr_throttled ");
            append_u64(&mut s, b.nr_throttled);
            s.append("\nthrottled_usec ");
            append_u64(&mut s, b.throttled_usec);
            s.append("\n");
        },
        None => {
            s.append("nr_periods 0\nnr_throttled 0\nthrottled_usec 0\n");
        },
    }
    s
}

/// `names` separated by single spaces.
pub fn space_joined(names: &Vec<String>) -> (s: String)
    ensures
        s@ == join(string_views(names@), " "@),
{
    let mut s = String::new();
    let mut i: usize = 0;
    while i < names.len()
        invariant
            0 <= i <= names@.len(),
            s@ == join(string_views(names@).take(i as int), " "@),
        decreases names@.len() - i,
    {
        let ghost before = string_views(names@).take(i as int);
        if i > 0 {
            s.append(" ");
        }
        s.append(names[i].as_str());
        proof {
            lemma_join_push(before, names@[i as int]@, " "@);
            reveal_strlit(" ");
            assert(string_views(names@).take(i + 1) =~= before.push(names@[i as int]@));
        }
        i = i + 1;
    }
    assert(string_views(names@).take(names@.len() as int) =~= string_views(names@));
    s
}

/// What `file` of the directory of core cgroup `n` reads; `shown` says
/// which of its processes `cgroup.procs` lists.
pub open spec fn core_file_text(n: CgroupNode, file: CgroupFile, shown: Seq<bool>) -> Seq<char> {
    match file {
        CgroupFile::Controllers => join(seq!["pids"@, "cpu"@] + string_views(n.controllers@), " "@) + "\n"@,
        CgroupFile::SubtreeControl => join(string_views(n.subtree_control@), " "@) + "\n"@,
        CgroupFile::Type => "domain\n"@,
        CgroupFile::Procs => procs_lines(n.procs@, shown),
        CgroupFile::PidsMax => limit_line(n.pids.max),
        CgroupFile::PidsCurrent => sdec(n.pids.current as int) + "\n"@,
        CgroupFile::CpuWeight => "100\n"@,
        CgroupFile::CpuMax => (if n.cpu.bandwidth.quota < 0 {
            "max "@
        } else {
            sdec(n.cpu.bandwidth.quota as int) + " "@
        }) + sdec(n.cpu.bandwidth.period as int) + "\n"@,
        CgroupFile::CpuStat => "nr_periods "@ + dec(n.cpu.bandwidth.nr_periods as nat) + "\nnr_throttled "@ + dec(
            n.cpu.bandwidth.nr_throttled as nat,
        ) + "\nthrottled_usec "@ + dec(n.cpu.bandwidth.throttled_usec as nat) + "\n"@,
    }
}

/// Reads `file` of the directory of core cgroup `n`; `shown` says which of
/// its processes `cgroup.procs` lists.
pub fn read_core_file(n: &CgroupNode, file: CgroupFile, shown: &[bool]) -> (s: String)
    requires
        shown@.len() == n.procs@.len(),
    ensures
        s@ == core_file_text(*n, file, shown@),
{
    match file {
        CgroupFile::Controllers => {
            let mut s = n.controller_list();
            s.append("\n");
            s
        },
        CgroupFile::SubtreeControl => {
            let mut s = space_joined(&n.subtree_control);
            s.append("\n");
            s
        },
        CgroupFile::Type => cgroup_type_text(),
        CgroupFile::Procs => pid_lines(&n.procs, shown),
        CgroupFile::PidsMax => pids_max_text(Some(&n.pids)),
        CgroupFile::PidsCurrent => pids_current_text(Some(&n.pids)),
        CgroupFile::CpuWeight => cpu_weight_text(),
        CgroupFile::CpuMax => cpu_max_text(Some(&n.cpu.bandwidth)),
        CgroupFile::CpuStat => cpu_stat_text(Some(&n.cpu.bandwidth)),
    }
}

// ---------------------------------------------------------------------------
// Laws
// ---------------------------------------------------------------------------

/// A limit written to `pids.max` reads back as written, and so does `max`.
pub proof fn pids_max_file_reads_back(max: i64, v: u64)
    requires
        v <= i64::MAX,
    ensures
        pids_max_after(max, crate::text::decimal(v as nat)) == v as i64,
        limit_line(v as i64) == dec(v as nat) + "\n"@,
        pids_max_after(max, crate::text::max_word()) == -1i64,
        limit_line(-1i64) == "max\n"@,
{
    crate::text::lemma_parse_decimal(v as nat);
    crate::text::lemma_parse_decimal_typed(v as nat);
    crate::text::lemma_max_word();
}

/// A quota and a period written to `cpu.max` read back as written, and the
/// period's accounting starts over.
pub proof fn cpu_max_file_reads_back(b: BandwidthState, quota: u64, period: u64)
    requires
        quota <= i64::MAX,
        period <= i64::MAX,
    ensures
        ({
            let a = cpu_max_after(b, crate::text::decimal(quota as nat) + seq![32u8] + crate::text::decimal(period as nat));
            &&& a.quota == quota as i64 && a.period == period as i64
            &&& a.consumed == 0 && a.period_start == 0
            &&& sdec(a.quota as int) + " "@ + sdec(a.period as int) + "\n"@ == dec(quota as nat) + " "@ + dec(period as nat) + "\n"@
        }),
{
    let data = crate::text::decimal(quota as nat) + seq![32u8] + crate::text::decimal(period as nat);
    crate::text::lemma_two_numbers(quota as nat, period as nat);
    crate::text::lemma_parse_decimal(quota as nat);
    crate::text::lemma_parse_decimal_typed(quota as nat);
    crate::text::lemma_parse_decimal_typed(period as nat);
    crate::text::lemma_max_word();
    assert(lenient_text(data) == data);
}

/// A write of `max` and a period to `cpu.max` lifts the quota and sets the
/// period: the second word sets the period whatever the first one is, and
/// the period's accounting starts over.
pub proof fn cpu_max_takes_period_after_max(b: BandwidthState, period: u64)
    requires
        period <= i64::MAX,
    ensures
        ({
            let a = cpu_max_after(b, seq![109u8, 97u8, 120u8, 32u8] + crate::text::decimal(period as nat));
            &&& a.quota == -1
            &&& a.period == period as i64
            &&& a.consumed == 0 && a.period_start == 0
            &&& a.nr_periods == b.nr_periods && a.nr_throttled == b.nr_throttled
        }),
{
    let data = seq![109u8, 97u8, 120u8, 32u8] + crate::text::decimal(period as nat);
    crate::text::lemma_max_then_number(period as nat);
    assert(crate::text::max_word() + seq![32u8] + crate::text::decimal(period as nat) =~= data);
    crate::text::lemma_parse_decimal_typed(period as nat);
    crate::text::lemma_max_word();
    assert(lenient_text(data) == data);
}

} // verus!
