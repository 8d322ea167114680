//! The cgroup v2 core hierarchy: each cgroup's type, event record and
//! freezer state, its processes, the `pids` and `cpu` state, and the
//! controllers it hands down to its children.
//!
//! The cgroups live in a [`CgroupTree`] arena and are addressed by index;
//! the root is index 0.

use vstd::prelude::*;
use vstd::string::StringExecFns;

use crate::cgroup::cpu::{BandwidthState, CpuState, TickActions};
use crate::cgroup::pids::PidsState;
use crate::cgroup::systree_node::{child_path, lemma_insert_sorted, strictly_sorted};
use crate::cgroup::CgroupError;
use crate::cgroupfs::{cpu_max_after, pids_max_after, write_cpu_max, write_pids_max};
use crate::text::{bytes_are, join, lemma_join_push, lemma_str_lt_order, str_is, str_less, str_lt, trim, trim_bounds};

verus! {

/// cgroup v2 type.
#[derive(Debug, Clone, Copy, PartialEq, Eq, Structural)]
pub enum CgroupType {
    /// Normal cgroup.
    Domain,
    /// Threaded cgroup.
    DomainThreaded,
    /// Invalid state.
    DomainInvalid,
}

/// The stored code of a type: 0, 1 and 2.
pub open spec fn type_code(t: CgroupType) -> u8 {
    match t {
        CgroupType::Domain => 0,
        CgroupType::DomainThreaded => 1,
        CgroupType::DomainInvalid => 2,
    }
}

/// The name of a type.
pub open spec fn type_text(t: CgroupType) -> Seq<char> {
    match t {
        CgroupType::Domain => "domain"@,
        CgroupType::DomainThreaded => "domain threaded"@,
        CgroupType::DomainInvalid => "domain invalid"@,
    }
}

/// The type a written text names: only `domain` and `domain threaded` can be
/// requested.
pub open spec fn type_of_text(s: Seq<char>) -> Option<CgroupType> {
    let t = trim(vstd::utf8::encode_utf8(s));
    if t == vstd::utf8::encode_utf8("domain"@) {
        Some(CgroupType::Domain)
    } else if t == vstd::utf8::encode_utf8("domain threaded"@) {
        Some(CgroupType::DomainThreaded)
    } else {
        None
    }
}

impl CgroupType {
    /// The stored code of the type.
    pub fn as_u8(self) -> (c: u8)
        ensures
            c == type_code(self),
    {
        match self {
            CgroupType::Domain => 0,
            CgroupType::DomainThreaded => 1,
            CgroupType::DomainInvalid => 2,
        }
    }

    /// The type with code `val`; unknown codes mean an invalid type.
    pub fn from_u8(val: u8) -> (t: Self)
        ensures
            val == 0 ==> t == CgroupType::Domain,
            val == 1 ==> t == CgroupType::DomainThreaded,
            val > 1 ==> t == CgroupType::DomainInvalid,
    {
        match val {
            0 => CgroupType::Domain,
            1 => CgroupType::DomainThreaded,
            _ => CgroupType::DomainInvalid,
        }
    }

    pub fn as_str(&self) -> (s: &'static str)
        ensures
            s@ == type_text(*self),
    {
        match self {
            CgroupType::Domain => "domain",
            CgroupType::DomainThreaded => "domain threaded",
            CgroupType::DomainInvalid => "domain invalid",
        }
    }

    /// The type named by `s`, surrounding whitespace ignored.
    pub fn from_str(s: &str) -> (t: Option<Self>)
        ensures
            t == type_of_text(s@),
    {
        let b = s.as_bytes();
        let (lo, hi) = trim_bounds(b, 0, b.len());
        assert(b@.subrange(0, b@.len() as int) =~= b@);
        if bytes_are(b, lo, hi, "domain") {
            Some(CgroupType::Domain)
        } else if bytes_are(b, lo, hi, "domain threaded") {
            Some(CgroupType::DomainThreaded)
        } else {
            None
        }
    }
}

/// cgroup v2 events.
#[derive(Debug, Clone, Copy)]
pub struct CgroupEvents {
    /// Whether this cgroup has processes.
    pub populated: bool,
    /// Whether this cgroup is frozen.
    pub frozen: bool,
}

/// `1` for true, `0` for false.
pub open spec fn flag_text(b: bool) -> Seq<char> {
    if b {
        "1"@
    } else {
        "0"@
    }
}

impl CgroupEvents {
    /// Neither populated nor frozen.
    pub fn new() -> (e: Self)
        ensures
            !e.populated && !e.frozen,
    {
        CgroupEvents { populated: false, frozen: false }
    }

    /// The text of `cgroup.events`.
    pub fn format(&self) -> (s: String)
        ensures
            s@ == "populated "@ + flag_text(self.populated) + "\nfrozen "@ + flag_text(self.frozen) + "\n"@,
    {
        let mut s = String::new();
        s.append("populated ");
        s.append(if self.populated { "1" } else { "0" });
        s.append("\nfrozen ");
        s.append(if self.frozen { "1" } else { "0" });
        s.append("\n");
        s
    }
}

/// Freezer state for a cgroup.
#[derive(Debug, Clone, Copy)]
pub struct FreezerState {
    pub frozen: bool,
}

impl FreezerState {
    /// Not frozen.
    pub fn new() -> (f: Self)
        ensures
            !f.frozen,
    {
        FreezerState { frozen: false }
    }
}

// ---------------------------------------------------------------------------
// A cgroup of the core hierarchy
// ---------------------------------------------------------------------------

/// The controllers a cgroup can hand down.
pub open spec fn valid_controller(name: Seq<char>) -> bool {
    name == "pids"@ || name == "cpu"@
}

/// `names` without any occurrence of `name`, in order.
pub open spec fn without_name(names: Seq<Seq<char>>, name: Seq<char>) -> Seq<Seq<char>>
    decreases names.len(),
{
    if names.len() == 0 {
        Seq::empty()
    } else {
        let rest = without_name(names.drop_last(), name);
        if names.last() == name {
            rest
        } else {
            rest.push(names.last())
        }
    }
}

/// Enabling `names` in order on the enabled list `cur`: each valid name is
/// added unless present; the first invalid name stops the work there. The
/// list as it then stands, and whether every name was valid.
pub open spec fn enable_names(cur: Seq<Seq<char>>, names: Seq<Seq<char>>) -> (Seq<Seq<char>>, bool)
    decreases names.len(),
{
    if names.len() == 0 {
        (cur, true)
    } else if !valid_controller(names[0]) {
        (cur, false)
    } else {
        enable_names(
            if cur.contains(names[0]) {
                cur
            } else {
                cur.push(names[0])
            },
            names.drop_first(),
        )
    }
}

/// Disabling `names` in order on `cur`: each valid name is taken out; the
/// first invalid name stops the work there.
pub open spec fn disable_names(cur: Seq<Seq<char>>, names: Seq<Seq<char>>) -> (Seq<Seq<char>>, bool)
    decreases names.len(),
{
    if names.len() == 0 {
        (cur, true)
    } else if !valid_controller(names[0]) {
        (cur, false)
    } else {
        disable_names(without_name(cur, names[0]), names.drop_first())
    }
}

/// The names of a list of `String`s.
pub open spec fn string_views(v: Seq<String>) -> Seq<Seq<char>> {
    v.map_values(|s: String| s@)
}

/// The names of a list of `&str`s.
pub open spec fn str_views(v: Seq<&str>) -> Seq<Seq<char>> {
    v.map_values(|s: &str| s@)
}

/// A cgroup of the core hierarchy.
pub struct CgroupNode {
    /// Directory name, empty for the root.
    pub name: String,
    /// Path from the root, such as `/a/b`; the root's is `/`.
    pub path: String,
    /// The children's indices, sorted by name.
    pub children: Vec<usize>,
    /// PIDs in this cgroup.
    pub procs: Vec<u32>,
    /// The controllers handed down by the parent.
    pub controllers: Vec<String>,
    /// The parent's index, `None` for the root.
    pub parent: Option<usize>,
    /// `pids` state.
    pub pids: PidsState,
    /// `cpu` state.
    pub cpu: CpuState,
    /// The cgroup type.
    pub cgroup_type: CgroupType,
    /// The event record.
    pub events: CgroupEvents,
    /// The freezer state.
    pub freezer: FreezerState,
    /// The controllers handed down to the children.
    pub subtree_control: Vec<String>,
}

/// The root as the hierarchy starts: path `/`, no processes, controllers
/// or children; a domain with no limits that is neither populated nor
/// frozen.
pub open spec fn is_fresh_root(n: CgroupNode) -> bool {
    &&& n.name@ == Seq::<char>::empty()
    &&& n.path@ == "/"@
    &&& n.children@.len() == 0
    &&& n.procs@.len() == 0
    &&& n.controllers@.len() == 0
    &&& n.parent is None
    &&& n.pids == (PidsState { current: 0, max: -1i64 })
    &&& n.cpu.cfs_quota == -1 && n.cpu.cfs_period == 100_000 && n.cpu.weight == 100
    &&& n.cgroup_type == CgroupType::Domain
    &&& !n.events.populated && !n.events.frozen
    &&& !n.freezer.frozen
    &&& n.subtree_control@.len() == 0
}

impl CgroupNode {
    /// The root: path `/`, no processes, controllers or children; a domain.
    pub fn new_root() -> (n: Self)
        ensures
            is_fresh_root(n),
    {
        CgroupNode {
            name: String::new(),
            path: String::from_str("/"),
            children: Vec::new(),
            procs: Vec::new(),
            controllers: Vec::new(),
            parent: None,
            pids: PidsState::new(),
            cpu: CpuState::new(),
            cgroup_type: CgroupType::Domain,
            events: CgroupEvents::new(),
            freezer: FreezerState::new(),
            subtree_control: Vec::new(),
        }
    }

    /// `pids cpu` followed by the controllers handed down, separated by
    /// spaces.
    pub fn controller_list(&self) -> (s: String)
        ensures
            s@ == join(seq!["pids"@, "cpu"@] + string_views(self.controllers@), " "@),
    {
        let mut s = String::new();
        s.append("pids cpu");
        let ghost base: Seq<Seq<char>> = seq!["pids"@, "cpu"@];
        proof {
            lemma_join_push(seq!["pids"@], "cpu"@, " "@);
            assert(seq!["pids"@].push("cpu"@) =~= base);
            assert(join(seq!["pids"@], " "@) == "pids"@) by {
                reveal_with_fuel(join, 2);
            }
            reveal_strlit("pids cpu");
            reveal_strlit("pids");
            reveal_strlit("cpu");
            reveal_strlit(" ");
            assert(s@ =~= join(base, " "@));
        }
        let mut i: usize = 0;
        while i < self.controllers.len()
            invariant
                0 <= i <= self.controllers@.len(),
                base == seq!["pids"@, "cpu"@],
                s@ == join(base + string_views(self.controllers@).take(i as int), " "@),
            decreases self.controllers@.len() - i,
        {
            let ghost before = base + string_views(self.controllers@).take(i as int);
            s.append(" ");
            s.append(self.controllers[i].as_str());
            proof {
                lemma_join_push(before, self.controllers@[i as int]@, " "@);
                assert(s@ =~= join(before, " "@) + " "@ + self.controllers@[i as int]@);
                assert(base + string_views(self.controllers@).take(i + 1) =~= before.push(self.controllers@[i as int]@));
            }
            i = i + 1;
        }
        assert(string_views(self.controllers@).take(self.controllers@.len() as int) =~= string_views(self.controllers@));
        s
    }

    /// The cgroup type.
    pub fn cgroup_type(&self) -> (t: CgroupType)
        ensures
            t == self.cgroup_type,
    {
        self.cgroup_type
    }

    /// Changes the type: a domain without children may become threaded, a
    /// threaded cgroup may become a domain, asking for the current type
    /// changes nothing; any other change is refused.
    pub fn set_cgroup_type(&mut self, new_type: CgroupType) -> (r: Result<(), &'static str>)
        ensures
            match (old(self).cgroup_type, new_type) {
                (CgroupType::Domain, CgroupType::DomainThreaded) => if old(self).children@.len() > 0 {
                    r matches Err(m) && m@ == "cannot convert to threaded: has child cgroups"@ && *final(self) == *old(self)
                } else {
                    r is Ok && *final(self) == (CgroupNode { cgroup_type: new_type, ..*old(self) })
                },
                (CgroupType::DomainThreaded, CgroupType::Domain) => r is Ok && *final(self) == (CgroupNode {
                    cgroup_type: new_type,
                    ..*old(self)
                }),
                (c, n) => if c == n {
                    r is Ok && *final(self) == *old(self)
                } else {
                    r matches Err(m) && m@ == "invalid type transition"@ && *final(self) == *old(self)
                },
            },
    {
        let current = self.cgroup_type;
        match (current, new_type) {
            (CgroupType::Domain, CgroupType::DomainThreaded) => {
                if self.children.len() > 0 {
                    return Err("cannot convert to threaded: has child cgroups");
                }
            },
            (CgroupType::DomainThreaded, CgroupType::Domain) => {},
            _ => {
                if current == new_type {
                    return Ok(());
                }
                return Err("invalid type transition");
            },
        }
        self.cgroup_type = new_type;
        Ok(())
    }

    /// Records whether the cgroup holds processes.
    pub fn update_populated(&mut self)
        ensures
            *final(self) == (CgroupNode {
                events: CgroupEvents { populated: old(self).procs@.len() > 0, ..old(self).events },
                ..*old(self)
            }),
    {
        self.events.populated = self.procs.len() > 0;
    }

    /// Asks for every process of the cgroup to be killed; signals are sent
    /// by the kernel, so this records nothing and succeeds.
    pub fn kill_all(&self) -> (r: Result<(), &'static str>)
        ensures
            r is Ok,
    {
        Ok(())
    }

    /// Freezes the cgroup.
    pub fn freeze(&mut self) -> (r: Result<(), &'static str>)
        ensures
            r is Ok,
            *final(self) == (CgroupNode {
                freezer: FreezerState { frozen: true },
                events: CgroupEvents { frozen: true, ..old(self).events },
                ..*old(self)
            }),
    {
        self.freezer.frozen = true;
        self.events.frozen = true;
        Ok(())
    }

    /// Thaws the cgroup.
    pub fn thaw(&mut self) -> (r: Result<(), &'static str>)
        ensures
            r is Ok,
            *final(self) == (CgroupNode {
                freezer: FreezerState { frozen: false },
                events: CgroupEvents { frozen: false, ..old(self).events },
                ..*old(self)
            }),
    {
        self.freezer.frozen = false;
        self.events.frozen = false;
        Ok(())
    }

    /// Enables then disables controllers for the children. A cgroup with
    /// processes refuses; so does an unknown name (only `pids` and `cpu` are
    /// known), the names before it having taken effect.
    pub fn set_subtree_control(&mut self, enable: &[&str], disable: &[&str]) -> (r: Result<(), &'static str>)
        ensures
            final(self).name == old(self).name && final(self).path == old(self).path && final(self).children == old(
                self,
            ).children && final(self).procs == old(self).procs && final(self).controllers == old(self).controllers
                && final(self).parent == old(self).parent && final(self).pids == old(self).pids && final(self).cpu
                == old(self).cpu && final(self).cgroup_type == old(self).cgroup_type && final(self).events == old(
                self,
            ).events && final(self).freezer == old(self).freezer,
            old(self).procs@.len() > 0 ==> (r matches Err(m) && m@ == "cannot enable controllers: cgroup has processes"@
                && final(self).subtree_control == old(self).subtree_control),
            old(self).procs@.len() == 0 ==> {
                let (after_enable, enable_ok) = enable_names(string_views(old(self).subtree_control@), str_views(enable@));
                let (after_disable, disable_ok) = disable_names(after_enable, str_views(disable@));
                if !enable_ok {
                    r matches Err(m) && m@ == "invalid controller name"@ && string_views(final(self).subtree_control@)
                        == after_enable
                } else if !disable_ok {
                    r matches Err(m) && m@ == "invalid controller name"@ && string_views(final(self).subtree_control@)
                        == after_disable
                } else {
                    r is Ok && string_views(final(self).subtree_control@) == after_disable
                }
            },
    {
        if self.procs.len() > 0 {
            return Err("cannot enable controllers: cgroup has processes");
        }
        let ghost start = string_views(self.subtree_control@);
        let ghost en = str_views(enable@);
        let mut i: usize = 0;
        assert(en.skip(0) =~= en);
        while i < enable.len()
            invariant
                0 <= i <= enable@.len(),
                en == str_views(enable@),
                old(self).procs@.len() == 0,
                start == string_views(old(self).subtree_control@),
                enable_names(start, en) == enable_names(string_views(self.subtree_control@), en.skip(i as int)),
                self.name == old(self).name && self.path == old(self).path && self.children == old(self).children
                    && self.procs == old(self).procs && self.controllers == old(self).controllers && self.parent == old(
                    self,
                ).parent && self.pids == old(self).pids && self.cpu == old(self).cpu && self.cgroup_type == old(
                    self,
                ).cgroup_type && self.events == old(self).events && self.freezer == old(self).freezer,
            decreases enable@.len() - i,
        {
            let name = enable[i];
            assert(en.skip(i as int)[0] == name@);
            assert(en.skip(i as int).drop_first() =~= en.skip(i + 1));
            if !(str_is(name, "pids") || str_is(name, "cpu")) {
                return Err("invalid controller name");
            }
            if !contains_name(&self.subtree_control, name) {
                let ghost before = self.subtree_control@;
                self.subtree_control.push(String::from_str(name));
                assert(string_views(self.subtree_control@) =~= string_views(before).push(name@));
            }
            i = i + 1;
        }
        assert(en.skip(i as int).len() == 0);
        let ghost mid = string_views(self.subtree_control@);
        let ghost dis = str_views(disable@);
        let mut j: usize = 0;
        assert(dis.skip(0) =~= dis);
        while j < disable.len()
            invariant
                0 <= j <= disable@.len(),
                dis == str_views(disable@),
                en == str_views(enable@),
                old(self).procs@.len() == 0,
                start == string_views(old(self).subtree_control@),
                enable_names(start, en) == (mid, true),
                disable_names(mid, dis) == disable_names(string_views(self.subtree_control@), dis.skip(j as int)),
                self.name == old(self).name && self.path == old(self).path && self.children == old(self).children
                    && self.procs == old(self).procs && self.controllers == old(self).controllers && self.parent == old(
                    self,
                ).parent && self.pids == old(self).pids && self.cpu == old(self).cpu && self.cgroup_type == old(
                    self,
                ).cgroup_type && self.events == old(self).events && self.freezer == old(self).freezer,
            decreases disable@.len() - j,
        {
            let name = disable[j];
            assert(dis.skip(j as int)[0] == name@);
            assert(dis.skip(j as int).drop_first() =~= dis.skip(j + 1));
            if !(str_is(name, "pids") || str_is(name, "cpu")) {
                return Err("invalid controller name");
            }
            let kept = names_without(&self.subtree_control, name);
            self.subtree_control = kept;
            j = j + 1;
        }
        assert(dis.skip(j as int).len() == 0);
        Ok(())
    }
}

/// `v` holds a string equal to `name`.
fn contains_name(v: &Vec<String>, name: &str) -> (r: bool)
    ensures
        r == string_views(v@).contains(name@),
{
    let mut i: usize = 0;
    while i < v.len()
        invariant
            0 <= i <= v@.len(),
            forall|j: int| 0 <= j < i ==> v@[j]@ != name@,
        decreases v@.len() - i,
    {
        if str_is(v[i].as_str(), name) {
            assert(string_views(v@)[i as int] == name@);
            return true;
        }
        i = i + 1;
    }
    assert forall|j: int| 0 <= j < string_views(v@).len() implies string_views(v@)[j] != name@ by {
        assert(string_views(v@)[j] == v@[j]@);
    }
    false
}

/// `v` without the strings equal to `name`.
fn names_without(v: &Vec<String>, name: &str) -> (r: Vec<String>)
    ensures
        string_views(r@) == without_name(string_views(v@), name@),
{
    let mut r: Vec<String> = Vec::new();
    let mut i: usize = 0;
    while i < v.len()
        invariant
            0 <= i <= v@.len(),
            string_views(r@) == without_name(string_views(v@).take(i as int), name@),
        decreases v@.len() - i,
    {
        assert(string_views(v@).take(i + 1).drop_last() =~= string_views(v@).take(i as int));
        assert(string_views(v@).take(i + 1).last() == v@[i as int]@);
        if !str_is(v[i].as_str(), name) {
            let ghost before = r@;
            r.push(v[i].clone());
            assert(string_views(r@) =~= string_views(before).push(v@[i as int]@));
        }
        i = i + 1;
    }
    assert(string_views(v@).take(v@.len() as int) =~= string_views(v@));
    r
}

// ---------------------------------------------------------------------------
// The core hierarchy
// ---------------------------------------------------------------------------

/// The position of the first of `names` from `i` on that is `name`.
pub open spec fn find_name_from(names: Seq<Seq<char>>, name: Seq<char>, i: int) -> Option<int>
    decreases names.len() - i,
{
    if i < 0 || i >= names.len() {
        None
    } else if names[i] == name {
        Some(i)
    } else {
        find_name_from(names, name, i + 1)
    }
}

/// Where `name` goes among the sorted `names` (searching from `i`): before
/// the first that does not sort before it.
pub open spec fn sorted_pos_from(names: Seq<Seq<char>>, name: Seq<char>, i: int) -> int
    decreases names.len() - i,
{
    if i < 0 || i >= names.len() {
        names.len() as int
    } else if !str_lt(names[i], name) {
        i
    } else {
        sorted_pos_from(names, name, i + 1)
    }
}

pub proof fn lemma_find_name_from(names: Seq<Seq<char>>, name: Seq<char>, i: int)
    requires
        0 <= i,
    ensures
        find_name_from(names, name, i) matches Some(k) ==> i <= k < names.len() && names[k] == name,
        find_name_from(names, name, i) is None ==> forall|k: int| i <= k < names.len() ==> #[trigger] names[k] != name,
    decreases names.len() - i,
{
    if i < names.len() {
        lemma_find_name_from(names, name, i + 1);
    }
}

/// `c` is a new child called `name`, at index `pid`, of `p`: it takes the
/// controllers `p` hands down, and starts empty, unlimited and a domain.
pub open spec fn fresh_core_child(p: CgroupNode, pid: usize, name: Seq<char>, c: CgroupNode) -> bool {
    &&& c.name@ == name
    &&& c.path@ == child_path(p.path@, name)
    &&& c.children@.len() == 0
    &&& c.procs@.len() == 0
    &&& string_views(c.controllers@) == string_views(p.subtree_control@)
    &&& c.parent == Some(pid)
    &&& c.pids == (PidsState { current: 0, max: -1i64 })
    &&& c.cpu.cfs_quota == -1 && c.cpu.cfs_period == 100_000 && c.cpu.weight == 100
    &&& c.cgroup_type == CgroupType::Domain
    &&& !c.events.populated && !c.events.frozen
    &&& !c.freezer.frozen
    &&& c.subtree_control@.len() == 0
}

/// The core hierarchy.
pub struct CgroupTree {
    nodes: Vec<CgroupNode>,
}

impl CgroupTree {
    /// Every cgroup ever created, by index.
    pub closed spec fn nodes(&self) -> Seq<CgroupNode> {
        self.nodes@
    }

    /// The cgroup at `id`.
    pub open spec fn at(&self, id: int) -> CgroupNode {
        self.nodes()[id]
    }

    /// `id` names a cgroup.
    pub open spec fn valid(&self, id: int) -> bool {
        0 <= id < self.nodes().len()
    }

    /// The names of the children of `id`, in order.
    pub open spec fn child_names_of(&self, id: int) -> Seq<Seq<char>> {
        self.at(id).children@.map_values(|c: usize| self.at(c as int).name@)
    }

    /// The child of `id` called `name`.
    pub open spec fn child_named(&self, id: int, name: Seq<char>) -> Option<usize> {
        match find_name_from(self.child_names_of(id), name, 0) {
            Some(k) => Some(self.at(id).children@[k]),
            None => None,
        }
    }

    /// The tree is well formed: the root is at 0 with path `/`; every other
    /// cgroup's parent comes before it; a cgroup's children name it as
    /// their parent and are sorted by name.
    pub open spec fn wf(&self) -> bool {
        let ns = self.nodes();
        &&& ns.len() >= 1
        &&& ns[0].parent is None
        &&& ns[0].path@ == "/"@
        &&& forall|id: int| 0 < id < ns.len() ==> ((#[trigger] ns[id]).parent matches Some(p) && p < id)
        &&& forall|id: int, k: int|
            0 <= id < ns.len() && 0 <= k < ns[id].children@.len() ==> (#[trigger] ns[id].children@[k]) < ns.len()
                && ns[ns[id].children@[k] as int].parent == Some(id as usize)
        &&& forall|id: int| 0 <= id < ns.len() ==> strictly_sorted(#[trigger] self.child_names_of(id))
    }

    /// A tree of the root alone.
    pub fn new() -> (t: Self)
        ensures
            t.wf(),
            t.nodes().len() == 1,
            is_fresh_root(t.at(0)),
    {
        let mut nodes = Vec::new();
        nodes.push(CgroupNode::new_root());
        let t = CgroupTree { nodes };
        assert(t.child_names_of(0) =~= Seq::<Seq<char>>::empty());
        t
    }

    /// How many cgroups the arena holds.
    pub fn len(&self) -> (n: usize)
        ensures
            n == self.nodes().len(),
    {
        self.nodes.len()
    }

    /// The root's index.
    pub fn root(&self) -> (id: usize)
        ensures
            id == 0,
    {
        0
    }

    /// The cgroup at `id`.
    pub fn node(&self, id: usize) -> (n: &CgroupNode)
        requires
            self.valid(id as int),
        ensures
            *n == self.at(id as int),
    {
        &self.nodes[id]
    }

    /// The names of the children of `id`, in order.
    pub fn child_names(&self, id: usize) -> (v: Vec<String>)
        requires
            self.wf(),
            self.valid(id as int),
        ensures
            string_views(v@) == self.child_names_of(id as int),
    {
        let ids = &self.nodes[id].children;
        let mut v: Vec<String> = Vec::new();
        let mut i: usize = 0;
        while i < ids.len()
            invariant
                self.wf(),
                self.valid(id as int),
                *ids == self.at(id as int).children,
                0 <= i <= ids@.len(),
                string_views(v@) == self.child_names_of(id as int).take(i as int),
            decreases ids@.len() - i,
        {
            let c = ids[i];
            assert(c < self.nodes().len());
            let ghost before = v@;
            v.push(self.nodes[c].name.clone());
            assert(string_views(v@) =~= string_views(before).push(self.at(c as int).name@));
            assert(self.child_names_of(id as int).take(i + 1) =~= self.child_names_of(id as int).take(i as int).push(self.at(c as int).name@));
            i = i + 1;
        }
        assert(self.child_names_of(id as int).take(ids@.len() as int) =~= self.child_names_of(id as int));
        v
    }

    /// The child of `id` called `name`, if there is one.
    pub fn get_child(&self, id: usize, name: &str) -> (r: Option<usize>)
        requires
            self.wf(),
            self.valid(id as int),
        ensures
            r == self.child_named(id as int, name@),
    {
        let names = self.child_names(id);
        let ghost ns0 = string_views(names@);
        proof {
            lemma_find_name_from(ns0, name@, 0);
        }
        let mut i: usize = 0;
        while i < names.len()
            invariant
                ns0 == string_views(names@),
                ns0 == self.child_names_of(id as int),
                self.wf(),
                self.valid(id as int),
                0 <= i <= names@.len(),
                find_name_from(ns0, name@, 0) == find_name_from(ns0, name@, i as int),
            decreases names@.len() - i,
        {
            if str_is(names[i].as_str(), name) {
                assert(ns0[i as int] == name@);
                return Some(self.nodes[id].children[i]);
            }
            i = i + 1;
        }
        None
    }

    /// Creates a child called `name` under `id`; `AlreadyExists` when there
    /// is one. The child hands down nothing and has the controllers `id`
    /// hands down.
    pub fn create_child(&mut self, id: usize, name: &str) -> (r: Result<usize, CgroupError>)
        requires
            old(self).wf(),
            old(self).valid(id as int),
        ensures
            final(self).wf(),
            match old(self).child_named(id as int, name@) {
                Some(_) => r == Err::<usize, CgroupError>(CgroupError::AlreadyExists) && final(self).nodes() == old(
                    self,
                ).nodes(),
                None => {
                    let c = old(self).nodes().len();
                    &&& r == Ok::<usize, CgroupError>(c as usize)
                    &&& final(self).nodes().len() == c + 1
                    &&& forall|i: int| 0 <= i < c && i != id ==> #[trigger] final(self).at(i) == old(self).at(i)
                    &&& final(self).at(id as int) == (CgroupNode {
                        children: final(self).at(id as int).children,
                        ..old(self).at(id as int)
                    })
                    &&& final(self).at(id as int).children@ == old(self).at(id as int).children@.insert(
                        sorted_pos_from(old(self).child_names_of(id as int), name@, 0),
                        c as usize,
                    )
                    &&& fresh_core_child(old(self).at(id as int), id, name@, final(self).at(c as int))
                },
            },
    {
        let names = self.child_names(id);
        let ghost ns0 = string_views(names@);
        proof {
            lemma_find_name_from(ns0, name@, 0);
        }
        let mut i: usize = 0;
        assert(ns0.len() == names@.len());
        while i < names.len()
            invariant
                ns0 == string_views(names@),
                ns0 == old(self).child_names_of(id as int),
                self.nodes() == old(self).nodes(),
                old(self).wf(),
                0 <= i <= names@.len(),
                find_name_from(ns0, name@, 0) == find_name_from(ns0, name@, i as int),
            decreases names@.len() - i,
        {
            if str_is(names[i].as_str(), name) {
                assert(ns0[i as int] == name@);
                return Err(CgroupError::AlreadyExists);
            }
            i = i + 1;
        }
        let mut pos: usize = 0;
        while pos < names.len() && str_less(names[pos].as_str(), name)
            invariant
                ns0 == string_views(names@),
                0 <= pos <= names@.len(),
                sorted_pos_from(ns0, name@, 0) == sorted_pos_from(ns0, name@, pos as int),
                forall|j: int| 0 <= j < pos ==> str_lt(#[trigger] ns0[j], name@),
            decreases names@.len() - pos,
        {
            pos = pos + 1;
        }
        let c = self.nodes.len();
        let parent = &self.nodes[id];
        let mut path = String::new();
        if str_is(parent.path.as_str(), "/") {
            path.append("/");
            path.append(name);
        } else {
            path.append(parent.path.as_str());
            path.append("/");
            path.append(name);
        }
        let mut inherited: Vec<String> = Vec::new();
        let mut k: usize = 0;
        while k < parent.subtree_control.len()
            invariant
                0 <= k <= parent.subtree_control@.len(),
                string_views(inherited@) == string_views(parent.subtree_control@).take(k as int),
            decreases parent.subtree_control@.len() - k,
        {
            let ghost before = inherited@;
            inherited.push(parent.subtree_control[k].clone());
            assert(string_views(inherited@) =~= string_views(before).push(parent.subtree_control@[k as int]@));
            assert(string_views(parent.subtree_control@).take(k + 1) =~= string_views(parent.subtree_control@).take(k as int).push(parent.subtree_control@[k as int]@));
            k = k + 1;
        }
        assert(string_views(parent.subtree_control@).take(parent.subtree_control@.len() as int) =~= string_views(parent.subtree_control@));
        let child = CgroupNode {
            name: String::from_str(name),
            path,
            children: Vec::new(),
            procs: Vec::new(),
            controllers: inherited,
            parent: Some(id),
            pids: PidsState::new(),
            cpu: CpuState::new(),
            cgroup_type: CgroupType::Domain,
            events: CgroupEvents::new(),
            freezer: FreezerState::new(),
            subtree_control: Vec::new(),
        };
        let ghost old_nodes = self.nodes();
        self.nodes.push(child);
        self.nodes[id].children.insert(pos, c);
        proof {
            let ns = self.nodes();
            assert(forall|i: int| 0 <= i < c && i != id ==> #[trigger] ns[i] == old_nodes[i]);
            assert forall|i: int| 0 <= i < ns.len() && i != id implies #[trigger] self.child_names_of(i) == if i
                == c {
                Seq::<Seq<char>>::empty()
            } else {
                old(self).child_names_of(i)
            } by {
                if i != c {
                    assert forall|k: int| 0 <= k < ns[i].children@.len() implies #[trigger] ns[ns[i].children@[k] as int].name@
                        == old_nodes[old_nodes[i].children@[k] as int].name@ by {
                        assert(old_nodes[i].children@[k] < c);
                    }
                    assert(self.child_names_of(i) =~= old(self).child_names_of(i));
                } else {
                    assert(self.child_names_of(i) =~= Seq::<Seq<char>>::empty());
                }
            }
            assert(self.child_names_of(id as int) =~= ns0.insert(pos as int, name@)) by {
                assert forall|k: int| 0 <= k < old_nodes[id as int].children@.len() implies #[trigger] old_nodes[
                    old_nodes[id as int].children@[k] as int] == ns[old_nodes[id as int].children@[k] as int] by {
                    assert(old_nodes[id as int].children@[k] < c);
                }
            }
            if pos < ns0.len() {
                assert(!str_lt(ns0[pos as int], name@));
            }
            lemma_insert_sorted(ns0, name@, pos as int);
        }
        Ok(c)
    }

    /// Changes the type of `id`, as [`CgroupNode::set_cgroup_type`] does.
    pub fn set_cgroup_type(&mut self, id: usize, new_type: CgroupType) -> (r: Result<(), &'static str>)
        requires
            old(self).wf(),
            old(self).valid(id as int),
        ensures
            final(self).wf(),
            final(self).nodes() == old(self).nodes().update(
                id as int,
                CgroupNode { cgroup_type: final(self).at(id as int).cgroup_type, ..old(self).at(id as int) },
            ),
            match (old(self).at(id as int).cgroup_type, new_type) {
                (CgroupType::Domain, CgroupType::DomainThreaded) => if old(self).at(id as int).children@.len() > 0 {
                    r is Err && final(self).at(id as int).cgroup_type == CgroupType::Domain
                } else {
                    r is Ok && final(self).at(id as int).cgroup_type == new_type
                },
                (CgroupType::DomainThreaded, CgroupType::Domain) => r is Ok && final(self).at(id as int).cgroup_type
                    == new_type,
                (c, n) => final(self).at(id as int).cgroup_type == c && (r is Ok <==> c == n),
            },
    {
        let r = self.nodes[id].set_cgroup_type(new_type);
        proof {
            assert(self.nodes() =~= old(self).nodes().update(id as int, self.at(id as int)));
            assert forall|i: int| 0 <= i < self.nodes().len() implies #[trigger] self.child_names_of(i) == old(
                self,
            ).child_names_of(i) by {
                assert(self.child_names_of(i) =~= old(self).child_names_of(i));
            }
        }
        r
    }

    /// Replaces the processes of `id`.
    pub fn replace_procs(&mut self, id: usize, procs: Vec<u32>)
        requires
            old(self).wf(),
            old(self).valid(id as int),
        ensures
            final(self).wf(),
            final(self).nodes() == old(self).nodes().update(id as int, CgroupNode { procs, ..old(self).at(id as int) }),
    {
        self.nodes[id].procs = procs;
        proof {
            assert forall|i: int| 0 <= i < self.nodes().len() implies #[trigger] self.child_names_of(i) == old(
                self,
            ).child_names_of(i) by {
                assert(self.child_names_of(i) =~= old(self).child_names_of(i));
            }
        }
    }

    /// Records whether `id` holds processes.
    pub fn update_populated(&mut self, id: usize)
        requires
            old(self).wf(),
            old(self).valid(id as int),
        ensures
            final(self).wf(),
            final(self).nodes() == old(self).nodes().update(
                id as int,
                CgroupNode {
                    events: CgroupEvents { populated: old(self).at(id as int).procs@.len() > 0, ..old(self).at(id as int).events },
                    ..old(self).at(id as int)
                },
            ),
    {
        self.nodes[id].update_populated();
        proof {
            assert(self.nodes() =~= old(self).nodes().update(id as int, self.at(id as int)));
            assert forall|i: int| 0 <= i < self.nodes().len() implies #[trigger] self.child_names_of(i) == old(
                self,
            ).child_names_of(i) by {
                assert(self.child_names_of(i) =~= old(self).child_names_of(i));
            }
        }
    }

    /// Freezes (`frozen`) or thaws `id`.
    pub fn set_frozen(&mut self, id: usize, frozen: bool) -> (r: Result<(), &'static str>)
        requires
            old(self).wf(),
            old(self).valid(id as int),
        ensures
            final(self).wf(),
            r is Ok,
            final(self).nodes() == old(self).nodes().update(
                id as int,
                CgroupNode {
                    freezer: FreezerState { frozen },
                    events: CgroupEvents { frozen, ..old(self).at(id as int).events },
                    ..old(self).at(id as int)
                },
            ),
    {
        let r = if frozen {
            self.nodes[id].freeze()
        } else {
            self.nodes[id].thaw()
        };
        proof {
            assert(self.nodes() =~= old(self).nodes().update(id as int, self.at(id as int)));
            assert forall|i: int| 0 <= i < self.nodes().len() implies #[trigger] self.child_names_of(i) == old(
                self,
            ).child_names_of(i) by {
                assert(self.child_names_of(i) =~= old(self).child_names_of(i));
            }
        }
        r
    }

    /// Enables then disables controllers for the children of `id`, as
    /// [`CgroupNode::set_subtree_control`] does.
    pub fn set_subtree_control(&mut self, id: usize, enable: &[&str], disable: &[&str]) -> (r: Result<(), &'static str>)
        requires
            old(self).wf(),
            old(self).valid(id as int),
        ensures
            final(self).wf(),
            final(self).nodes() == old(self).nodes().update(
                id as int,
                CgroupNode { subtree_control: final(self).at(id as int).subtree_control, ..old(self).at(id as int) },
            ),
            old(self).at(id as int).procs@.len() > 0 ==> r is Err && final(self).at(id as int).subtree_control == old(
                self,
            ).at(id as int).subtree_control,
            old(self).at(id as int).procs@.len() == 0 ==> {
                let (after_enable, enable_ok) = enable_names(string_views(old(self).at(id as int).subtree_control@), str_views(enable@));
                let (after_disable, disable_ok) = disable_names(after_enable, str_views(disable@));
                if !enable_ok {
                    r is Err && string_views(final(self).at(id as int).subtree_control@) == after_enable
                } else if !disable_ok {
                    r is Err && string_views(final(self).at(id as int).subtree_control@) == after_disable
                } else {
                    r is Ok && string_views(final(self).at(id as int).subtree_control@) == after_disable
                }
            },
    {
        let r = self.nodes[id].set_subtree_control(enable, disable);
        proof {
            assert(self.nodes() =~= old(self).nodes().update(
                id as int,
                CgroupNode { subtree_control: self.at(id as int).subtree_control, ..old(self).at(id as int) },
            ));
            assert forall|i: int| 0 <= i < self.nodes().len() implies #[trigger] self.child_names_of(i) == old(
                self,
            ).child_names_of(i) by {
                assert(self.child_names_of(i) =~= old(self).child_names_of(i));
            }
        }
        r
    }
}

// ---------------------------------------------------------------------------
// Laws
// ---------------------------------------------------------------------------

proof fn lemma_ascii_word(b: Seq<u8>, s: Seq<char>)
    requires
        b.len() > 0,
        crate::text::is_ascii_bytes(b),
        crate::text::ascii_chars(b) == s,
        !crate::text::is_ascii_ws(b[0]) && b[0] < 128,
        !crate::text::is_ascii_ws(b.last()) && b.last() < 128,
    ensures
        vstd::utf8::encode_utf8(s) == b,
        trim(b) == b,
{
    crate::text::lemma_ascii_utf8(b);
    assert(crate::text::lead_ws(b) == 0);
    assert(crate::text::trim_start(b) == b);
    assert(crate::text::trail_ws(b) == 0);
    assert(crate::text::trim_end(b) == b);
}

/// The name of a type that can be requested reads back as that type.
pub proof fn type_name_reads_back(t: CgroupType)
    requires
        t != CgroupType::DomainInvalid,
    ensures
        type_of_text(type_text(t)) == Some(t),
{
    reveal_strlit("domain");
    reveal_strlit("domain threaded");
    let d: Seq<u8> = seq![100u8, 111u8, 109u8, 97u8, 105u8, 110u8];
    let dt: Seq<u8> = seq![100u8, 111u8, 109u8, 97u8, 105u8, 110u8, 32u8, 116u8, 104u8, 114u8, 101u8, 97u8, 100u8, 101u8, 100u8];
    assert(crate::text::ascii_chars(d) =~= "domain"@);
    assert(crate::text::ascii_chars(dt) =~= "domain threaded"@);
    lemma_ascii_word(d, "domain"@);
    lemma_ascii_word(dt, "domain threaded"@);
    assert(d != dt) by {
        assert(d.len() != dt.len());
    }
}

/// Freezing and then thawing a cgroup leaves its freezer and its frozen
/// event as they were at creation: not frozen.
pub proof fn freeze_then_thaw_unfreezes(n: CgroupNode, frozen: CgroupNode, thawed: CgroupNode)
    requires
        frozen == (CgroupNode {
            freezer: FreezerState { frozen: true },
            events: CgroupEvents { frozen: true, ..n.events },
            ..n
        }),
        thawed == (CgroupNode {
            freezer: FreezerState { frozen: false },
            events: CgroupEvents { frozen: false, ..frozen.events },
            ..frozen
        }),
    ensures
        !thawed.freezer.frozen,
        !thawed.events.frozen,
        thawed.events.populated == n.events.populated,
        thawed.procs == n.procs && thawed.subtree_control == n.subtree_control && thawed.cgroup_type == n.cgroup_type,
{
}

impl CgroupTree {
    proof fn lemma_same_names(&self, other: &CgroupTree)
        requires
            self.wf(),
            other.nodes().len() == self.nodes().len(),
            forall|i: int| 0 <= i < self.nodes().len() ==> (#[trigger] other.nodes()[i]).name == self.nodes()[i].name
                && other.nodes()[i].path == self.nodes()[i].path && other.nodes()[i].children == self.nodes()[i].children
                && other.nodes()[i].parent == self.nodes()[i].parent,
        ensures
            other.wf(),
    {
        assert forall|i: int| 0 <= i < self.nodes().len() implies #[trigger] other.child_names_of(i) == self.child_names_of(i) by {
            assert(other.nodes()[i].children == self.nodes()[i].children);
            assert forall|k: int| 0 <= k < self.nodes()[i].children@.len() implies other.nodes()[
                #[trigger] self.nodes()[i].children@[k] as int].name == self.nodes()[self.nodes()[i].children@[k] as int].name by {
                let x = self.nodes()[i].children@[k] as int;
                assert(other.nodes()[x].name == self.nodes()[x].name);
            }
            assert(other.child_names_of(i) =~= self.child_names_of(i));
        }
        assert(other.nodes()[0].path == self.nodes()[0].path);
        assert forall|id: int| 0 < id < other.nodes().len() implies ((#[trigger] other.nodes()[id]).parent matches Some(p) && p < id) by {
            assert(other.nodes()[id].parent == self.nodes()[id].parent);
        }
        assert forall|id: int, k: int|
            0 <= id < other.nodes().len() && 0 <= k < other.nodes()[id].children@.len() implies (#[trigger] other.nodes()[id].children@[k])
                < other.nodes().len() && other.nodes()[other.nodes()[id].children@[k] as int].parent == Some(id as usize) by {
            assert(other.nodes()[id].children == self.nodes()[id].children);
            let x = self.nodes()[id].children@[k] as int;
            assert(other.nodes()[x].parent == self.nodes()[x].parent);
        }
    }

    /// Writes `pids.max` of `id`: `max` lifts the limit, a number sets it,
    /// anything else leaves it.
    pub fn write_pids_max(&mut self, id: usize, data: &[u8])
        requires
            old(self).wf(),
            old(self).valid(id as int),
        ensures
            final(self).wf(),
            final(self).nodes() == old(self).nodes().update(
                id as int,
                CgroupNode {
                    pids: PidsState { max: pids_max_after(old(self).at(id as int).pids.max, data@), ..old(self).at(id as int).pids },
                    ..old(self).at(id as int)
                },
            ),
    {
        write_pids_max(&mut self.nodes[id].pids, data);
        proof {
            old(self).lemma_same_names(self);
            assert(self.nodes() =~= old(self).nodes().update(id as int, self.at(id as int)));
        }
    }

    /// Writes `cpu.max` of `id`.
    pub fn write_cpu_max(&mut self, id: usize, data: &[u8])
        requires
            old(self).wf(),
            old(self).valid(id as int),
        ensures
            final(self).wf(),
            final(self).nodes() == old(self).nodes().update(
                id as int,
                CgroupNode {
                    cpu: CpuState { bandwidth: cpu_max_after(old(self).at(id as int).cpu.bandwidth, data@), ..old(self).at(id as int).cpu },
                    ..old(self).at(id as int)
                },
            ),
    {
        write_cpu_max(&mut self.nodes[id].cpu.bandwidth, data);
        proof {
            old(self).lemma_same_names(self);
            assert(self.nodes() =~= old(self).nodes().update(id as int, self.at(id as int)));
        }
    }

    /// One scheduler tick at `now_us` for a task of `id`, as
    /// [`BandwidthState::tick`] accounts it.
    pub fn tick_bandwidth(&mut self, id: usize, now_us: u64) -> (act: TickActions)
        requires
            old(self).wf(),
            old(self).valid(id as int),
            old(self).at(id as int).cpu.bandwidth.period_start <= now_us,
        ensures
            final(self).wf(),
            final(self).nodes() == old(self).nodes().update(
                id as int,
                CgroupNode {
                    cpu: CpuState { bandwidth: final(self).at(id as int).cpu.bandwidth, ..old(self).at(id as int).cpu },
                    ..old(self).at(id as int)
                },
            ),
            BandwidthState::tick_outcome(old(self).at(id as int).cpu.bandwidth, final(self).at(id as int).cpu.bandwidth, now_us, act),
    {
        let act = self.nodes[id].cpu.bandwidth.tick(now_us);
        proof {
            old(self).lemma_same_names(self);
            assert(self.nodes() =~= old(self).nodes().update(id as int, self.at(id as int)));
        }
        act
    }

    /// Admits a new process to `id` if its `pids` limit allows it.
    pub fn try_fork(&mut self, id: usize) -> (ok: bool)
        requires
            old(self).wf(),
            old(self).valid(id as int),
        ensures
            final(self).wf(),
            final(self).nodes() == old(self).nodes().update(
                id as int,
                CgroupNode { pids: final(self).at(id as int).pids, ..old(self).at(id as int) },
            ),
            PidsState::fork_outcome(old(self).at(id as int).pids, final(self).at(id as int).pids, ok),
    {
        let ok = self.nodes[id].pids.try_fork();
        proof {
            old(self).lemma_same_names(self);
            assert(self.nodes() =~= old(self).nodes().update(id as int, self.at(id as int)));
        }
        ok
    }

    /// Counts a process of `id` out.
    pub fn exit(&mut self, id: usize)
        requires
            old(self).wf(),
            old(self).valid(id as int),
        ensures
            final(self).wf(),
            final(self).nodes() == old(self).nodes().update(
                id as int,
                CgroupNode {
                    pids: PidsState {
                        current: vstd::wrapping::i64_specs::wrapping_sub(old(self).at(id as int).pids.current, 1),
                        ..old(self).at(id as int).pids
                    },
                    ..old(self).at(id as int)
                },
            ),
    {
        self.nodes[id].pids.exit();
        proof {
            old(self).lemma_same_names(self);
            assert(self.nodes() =~= old(self).nodes().update(id as int, self.at(id as int)));
        }
    }
}

/// The hierarchy the system starts with: the root cgroup alone.
pub fn init() -> (t: CgroupTree)
    ensures
        t.wf(),
        t.nodes().len() == 1,
        is_fresh_root(t.at(0)),
{
    CgroupTree::new()
}

} // verus!
