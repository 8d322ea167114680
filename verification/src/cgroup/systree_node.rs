//! The cgroup hierarchy: every cgroup's name, path and depth, its processes,
//! its controllers and the controllers it hands down, its populated count
//! and its depth limit.
//!
//! The cgroups live in one arena, a [`CgroupSystem`], and are addressed by
//! their index in it; the root is index 0. A cgroup names its parent and its
//! children by index, children sorted by name. A removed cgroup stays in the
//! arena (whoever still holds its index may read it) but is no longer among
//! its parent's children.

use vstd::prelude::*;
use vstd::string::StringExecFns;

use starry_process::Pid;

use crate::cgroup::controller::pids::{
    can_charge, charge_fits, charge_reachable_fits, first_blocked, lemma_first_blocked_bound, lemma_first_blocked_step,
    level_is, try_charge_outcome, uncharged, PidsController,
};
use crate::cgroup::controller::{
    all_attr_names, controller_attr_text, controller_write_outcome, ctrl_name, has, known_bits, names_of, spec_attr_owner, type_bit, Controller,
    SubCtrlSet, SubCtrlType,
};
use crate::cgroup::{read_outcome, CgroupError};
use crate::text::{
    append_u64, find_byte, find_byte_in, lemma_find_byte_bound, bytes_are, dec, is_utf8, lemma_str_lt_order, parse_u32, parse_u64, read_text_at, spec_parse_u32,
    spec_parse_u64, split_on, split_words, str_is, str_less, str_lt, trim, trim_bounds, words,
};

verus! {

/// A stable cgroup ID.
pub type CgroupId = u64;

/// The root cgroup's ID.
pub const ROOT_ID: CgroupId = 1;

// ---------------------------------------------------------------------------
// Attribute names
// ---------------------------------------------------------------------------

/// The `cgroup.*` files every cgroup has, in the order they are listed.
pub open spec fn builtin_attr_names() -> Seq<Seq<char>> {
    seq!["cgroup.controllers"@, "cgroup.events"@, "cgroup.procs"@, "cgroup.subtree_control"@, "cgroup.max.depth"@]
}

/// A controller attribute is offered at a cgroup: the root offers every
/// attribute of a registered controller, another cgroup those of the
/// controllers its parent hands down (`available`).
pub open spec fn attr_visible(name: Seq<char>, available: u8, is_root: bool) -> bool {
    match spec_attr_owner(name) {
        Some(t) => is_root || has(available, t),
        None => false,
    }
}

/// The names among `names` that are offered, in order.
pub open spec fn visible_attrs(names: Seq<Seq<char>>, available: u8, is_root: bool) -> Seq<Seq<char>>
    decreases names.len(),
{
    if names.len() == 0 {
        Seq::empty()
    } else {
        let rest = visible_attrs(names.drop_last(), available, is_root);
        if attr_visible(names.last(), available, is_root) {
            rest.push(names.last())
        } else {
            rest
        }
    }
}

/// The files of a cgroup: the `cgroup.*` files, then the offered
/// controller attributes in registry order.
pub open spec fn node_attr_names(available: u8, is_root: bool) -> Seq<Seq<char>> {
    builtin_attr_names() + visible_attrs(all_attr_names(), available, is_root)
}

/// Lists the files of a cgroup.
fn collect_attr_names(controller: &Controller, available: SubCtrlSet, is_root: bool) -> (v: Vec<String>)
    ensures
        v@.map_values(|s: String| s@) == node_attr_names(available.bits, is_root),
{
    let mut attrs: Vec<String> = Vec::new();
    attrs.push(String::from_str("cgroup.controllers"));
    attrs.push(String::from_str("cgroup.events"));
    attrs.push(String::from_str("cgroup.procs"));
    attrs.push(String::from_str("cgroup.subtree_control"));
    attrs.push(String::from_str("cgroup.max.depth"));
    assert(attrs@.map_values(|s: String| s@) =~= builtin_attr_names());
    let names = controller.attr_names();
    let ghost all = names@.map_values(|s: String| s@);
    let mut i: usize = 0;
    while i < names.len()
        invariant
            all == names@.map_values(|s: String| s@),
            all == all_attr_names(),
            0 <= i <= names@.len(),
            attrs@.map_values(|s: String| s@) == builtin_attr_names() + visible_attrs(all.take(i as int), available.bits, is_root),
        decreases names@.len() - i,
    {
        assert(all.take(i + 1).drop_last() =~= all.take(i as int));
        assert(all.take(i + 1).last() == names@[i as int]@);
        let ghost before = attrs@;
        let visible = match Controller::attr_owner(names[i].as_str()) {
            Some(owner) => is_root || available.contains(owner.to_set()),
            None => false,
        };
        if visible {
            attrs.push(names[i].clone());
            assert(attrs@.map_values(|s: String| s@) =~= before.map_values(|s: String| s@).push(names@[i as int]@));
        }
        i = i + 1;
    }
    assert(all.take(names@.len() as int) =~= all);
    attrs
}

// ---------------------------------------------------------------------------
// File contents
// ---------------------------------------------------------------------------

/// `cgroup.events`: whether the cgroup or a descendant has processes; this
/// implementation never freezes.
pub open spec fn events_line(populated_count: nat) -> Seq<char> {
    "populated "@ + (if populated_count > 0 { "1"@ } else { "0"@ }) + "\nfrozen 0\n"@
}

/// `cgroup.max.depth`: `max` or the limit, on a line.
pub open spec fn max_depth_line(max_depth: i64) -> Seq<char> {
    if max_depth < 0 {
        "max\n"@
    } else {
        dec(max_depth as nat) + "\n"@
    }
}

/// `cgroup.procs`: one line per process that is `shown`, in order.
pub open spec fn procs_lines(pids: Seq<Pid>, shown: Seq<bool>) -> Seq<char>
    decreases pids.len(),
{
    if pids.len() == 0 {
        Seq::empty()
    } else {
        procs_lines(pids.drop_last(), shown.drop_last()) + (if shown.last() {
            dec(pids.last() as nat) + "\n"@
        } else {
            Seq::empty()
        })
    }
}

/// The processes of `pids` for which `shown` holds, one per line.
pub fn pid_lines(pids: &Vec<Pid>, shown: &[bool]) -> (s: String)
    requires
        shown@.len() == pids@.len(),
    ensures
        s@ == procs_lines(pids@, shown@),
{
    let mut text = String::new();
    let mut i: usize = 0;
    while i < pids.len()
        invariant
            shown@.len() == pids@.len(),
            0 <= i <= pids@.len(),
            text@ == procs_lines(pids@.take(i as int), shown@.take(i as int)),
        decreases pids@.len() - i,
    {
        assert(pids@.take(i + 1).drop_last() =~= pids@.take(i as int));
        assert(shown@.take(i + 1).drop_last() =~= shown@.take(i as int));
        if shown[i] {
            append_u64(&mut text, pids[i] as u64);
            text.append("\n");
        }
        i = i + 1;
    }
    assert(pids@.take(pids@.len() as int) =~= pids@);
    assert(shown@.take(pids@.len() as int) =~= shown@);
    text
}

/// `pids` without any occurrence of `pid`, in order.
pub open spec fn without(pids: Seq<Pid>, pid: Pid) -> Seq<Pid>
    decreases pids.len(),
{
    if pids.len() == 0 {
        Seq::empty()
    } else {
        let rest = without(pids.drop_last(), pid);
        if pids.last() == pid {
            rest
        } else {
            rest.push(pids.last())
        }
    }
}

proof fn lemma_without_len(pids: Seq<Pid>, pid: Pid)
    ensures
        without(pids, pid).len() <= pids.len(),
        without(pids, pid).len() < pids.len() <==> pids.contains(pid),
    decreases pids.len(),
{
    if pids.len() > 0 {
        lemma_without_len(pids.drop_last(), pid);
        assert(pids =~= pids.drop_last().push(pids.last()));
        if pids.drop_last().contains(pid) {
            let k = choose|k: int| 0 <= k < pids.drop_last().len() && pids.drop_last()[k] == pid;
            assert(pids[k] == pid);
        }
        if pids.contains(pid) && pids.last() != pid {
            let k = choose|k: int| 0 <= k < pids.len() && pids[k] == pid;
            assert(pids.drop_last()[k] == pid);
        }
    }
}

// ---------------------------------------------------------------------------
// `cgroup.subtree_control`
// ---------------------------------------------------------------------------

/// The controller whose name the bytes `b` spell.
pub open spec fn ctrl_named(b: Seq<u8>) -> Option<SubCtrlType> {
    if b == vstd::utf8::encode_utf8(ctrl_name(SubCtrlType::CpuSet)) {
        Some(SubCtrlType::CpuSet)
    } else if b == vstd::utf8::encode_utf8(ctrl_name(SubCtrlType::Cpu)) {
        Some(SubCtrlType::Cpu)
    } else if b == vstd::utf8::encode_utf8(ctrl_name(SubCtrlType::Pids)) {
        Some(SubCtrlType::Pids)
    } else {
        None
    }
}

/// One word of a `cgroup.subtree_control` write applied to the enabled set
/// `cur`: `+name` enables a controller that is available, `-name` disables
/// one; anything else is refused.
pub open spec fn subtree_word(w: Seq<u8>, available: u8, cur: u8) -> Option<u8> {
    if w.len() > 0 && w[0] == 43 {
        match ctrl_named(w.drop_first()) {
            Some(t) => if has(available, t) {
                Some(cur | type_bit(t))
            } else {
                None
            },
            None => None,
        }
    } else if w.len() > 0 && w[0] == 45 {
        match ctrl_named(w.drop_first()) {
            Some(t) => Some(cur & !type_bit(t)),
            None => None,
        }
    } else {
        None
    }
}

/// The words of a `cgroup.subtree_control` write applied in order; one bad
/// word spoils the write.
pub open spec fn subtree_words(ws: Seq<Seq<u8>>, available: u8, cur: u8) -> Option<u8>
    decreases ws.len(),
{
    if ws.len() == 0 {
        Some(cur)
    } else {
        match subtree_word(ws[0], available, cur) {
            Some(n) => subtree_words(ws.drop_first(), available, n),
            None => None,
        }
    }
}

/// The controller named by `s[lo..hi]`.
fn ctrl_named_at(s: &[u8], lo: usize, hi: usize) -> (r: Option<SubCtrlType>)
    requires
        lo <= hi <= s@.len(),
    ensures
        r == ctrl_named(s@.subrange(lo as int, hi as int)),
{
    if bytes_are(s, lo, hi, "cpuset") {
        Some(SubCtrlType::CpuSet)
    } else if bytes_are(s, lo, hi, "cpu") {
        Some(SubCtrlType::Cpu)
    } else if bytes_are(s, lo, hi, "pids") {
        Some(SubCtrlType::Pids)
    } else {
        None
    }
}

// ---------------------------------------------------------------------------
// A cgroup
// ---------------------------------------------------------------------------

/// One cgroup of the hierarchy.
pub struct CgroupNode {
    /// Stable cgroup ID; the root's is set when the system is built, a
    /// child's when it is registered.
    pub cgroup_id: CgroupId,
    /// Name, empty for the root.
    pub name: String,
    /// Path from the root, such as `/a/b`; the root's is `/`.
    pub path: String,
    /// The parent's index, `None` for the root.
    pub parent: Option<usize>,
    /// The children's indices, sorted by name.
    pub children: Vec<usize>,
    /// The controllers of this cgroup.
    pub controller: Controller,
    /// The processes in this cgroup, without repeats; `None` once dead.
    pub processes: Option<Vec<Pid>>,
    /// Depth in the tree, 0 for the root.
    pub depth: usize,
    /// Processes in this cgroup and its descendants, as propagated.
    pub populated_count: usize,
    /// A populated transition happened since `cgroup.events` was last read.
    pub events: bool,
    /// Largest depth of descendants below this cgroup; negative means `max`.
    pub max_depth: i64,
    /// Controllers this cgroup may hand down (its parent's subtree control).
    pub available_controllers: SubCtrlSet,
    /// Controllers handed down to the children.
    pub subtree_control: SubCtrlSet,
    /// The cgroup's files.
    pub attr_names: Vec<String>,
}

impl CgroupNode {
    /// The processes of the cgroup; none once it is dead.
    pub open spec fn procs(&self) -> Seq<Pid> {
        match self.processes {
            Some(v) => v@,
            None => Seq::empty(),
        }
    }

    /// A controller attribute may be used at this cgroup.
    pub open spec fn ctrl_attr_available(&self, name: Seq<char>) -> bool {
        self.depth == 0 || attr_visible(name, self.available_controllers.bits, false)
    }

    /// The text of a file of the cgroup, `shown` saying which processes
    /// `cgroup.procs` lists.
    pub open spec fn attr_text(&self, name: Seq<char>, shown: Seq<bool>) -> Option<Seq<char>> {
        if name == "cgroup.controllers"@ {
            Some(names_of(self.available_controllers.bits))
        } else if name == "cgroup.events"@ {
            Some(events_line(self.populated_count as nat))
        } else if name == "cgroup.procs"@ {
            Some(procs_lines(self.procs(), shown))
        } else if name == "cgroup.subtree_control"@ {
            Some(names_of(self.subtree_control.bits))
        } else if name == "cgroup.max.depth"@ {
            Some(max_depth_line(self.max_depth))
        } else if self.ctrl_attr_available(name) {
            controller_attr_text(self.controller, name)
        } else {
            None
        }
    }

    /// The root cgroup: path `/`, every controller available and none
    /// handed down, no processes, no depth limit.
    pub fn new_root() -> (n: Self)
        ensures
            n.cgroup_id == ROOT_ID,
            n.name@ == Seq::<char>::empty(),
            n.path@ == "/"@,
            n.parent is None,
            n.children@.len() == 0,
            n.processes matches Some(v) && v@.len() == 0,
            n.depth == 0,
            n.populated_count == 0,
            !n.events,
            n.max_depth == -1,
            n.available_controllers.bits == known_bits(),
            n.subtree_control.bits == 0,
            n.attr_names@.map_values(|s: String| s@) == node_attr_names(known_bits(), true),
            n.controller.spec_active_bits() == 0,
            n.controller.spec_pids().spec_parent() is None,
            n.controller.spec_cpu().spec_parent() is None,
            n.controller.spec_cpuset().spec_parent() is None,
    {
        let controller = Controller::new(None);
        let all = SubCtrlSet::all_controllers();
        let attr_names = collect_attr_names(&controller, all, true);
        CgroupNode {
            cgroup_id: ROOT_ID,
            name: String::new(),
            path: String::from_str("/"),
            parent: None,
            children: Vec::new(),
            controller,
            processes: Some(Vec::new()),
            depth: 0,
            populated_count: 0,
            events: false,
            max_depth: -1,
            available_controllers: all,
            subtree_control: SubCtrlSet::empty(),
            attr_names,
        }
    }

    /// The stable cgroup ID.
    pub fn cgroup_id(&self) -> (id: CgroupId)
        ensures
            id == self.cgroup_id,
    {
        self.cgroup_id
    }

    /// The name.
    pub fn name(&self) -> (s: &str)
        ensures
            s@ == self.name@,
    {
        self.name.as_str()
    }

    /// The path from the root.
    pub fn path(&self) -> (s: &str)
        ensures
            s@ == self.path@,
    {
        self.path.as_str()
    }

    /// The depth in the tree.
    pub fn depth(&self) -> (d: usize)
        ensures
            d == self.depth,
    {
        self.depth
    }

    /// A domain controller (`cpuset` or `cpu`) is handed down to the children.
    pub fn domain_subtree_control_enabled(&self) -> (r: bool)
        ensures
            r == (self.subtree_control.bits & 3 != 0),
    {
        self.subtree_control.contains_domain_controller()
    }

    /// Processes may be attached here: the root, or a cgroup that hands no
    /// domain controller down.
    pub fn can_host_process(&self) -> (r: bool)
        ensures
            r == (self.depth == 0 || self.subtree_control.bits & 3 == 0),
    {
        self.depth == 0 || !self.domain_subtree_control_enabled()
    }

    /// A descendant at depth `descendant_depth` is within this cgroup's
    /// depth limit; `WouldBlock` when it is not.
    pub fn check_descendant_depth_allowed(&self, descendant_depth: usize) -> (r: Result<(), CgroupError>)
        ensures
            r is Ok <==> !(self.max_depth >= 0 && descendant_depth - self.depth > self.max_depth),
            r is Err ==> r == Err::<(), CgroupError>(CgroupError::WouldBlock),
    {
        let max_depth = self.max_depth;
        let distance = descendant_depth.saturating_sub(self.depth);
        if max_depth >= 0 && distance as u64 > max_depth as u64 {
            return Err(CgroupError::WouldBlock);
        }
        Ok(())
    }

    /// `cgroup.max.depth`.
    pub fn max_depth_text(&self) -> (s: String)
        ensures
            s@ == max_depth_line(self.max_depth),
    {
        let mut s = String::new();
        if self.max_depth < 0 {
            s.append("max\n");
        } else {
            append_u64(&mut s, self.max_depth as u64);
            s.append("\n");
        }
        s
    }

    /// `name` is one of the cgroup's files.
    pub fn is_controller_attr(&self, name: &str) -> (r: bool)
        ensures
            r == self.attr_names@.map_values(|s: String| s@).contains(name@),
    {
        let ghost names = self.attr_names@.map_values(|s: String| s@);
        let mut i: usize = 0;
        while i < self.attr_names.len()
            invariant
                names == self.attr_names@.map_values(|s: String| s@),
                0 <= i <= self.attr_names@.len(),
                forall|j: int| 0 <= j < i ==> names[j] != name@,
            decreases self.attr_names@.len() - i,
        {
            if str_is(self.attr_names[i].as_str(), name) {
                assert(names[i as int] == name@);
                return true;
            }
            i = i + 1;
        }
        false
    }

    /// The cgroup's files.
    pub fn all_attr_names(&self) -> (v: &[String])
        ensures
            v@ == self.attr_names@,
    {
        self.attr_names.as_slice()
    }

    /// Processes in this cgroup and its descendants.
    pub fn populated_count(&self) -> (n: usize)
        ensures
            n == self.populated_count,
    {
        self.populated_count
    }

    /// The controllers of this cgroup.
    pub fn controller(&self) -> (c: &Controller)
        ensures
            *c == self.controller,
    {
        &self.controller
    }

    /// Marks the cgroup dead: it holds no processes and takes none.
    pub fn mark_as_dead(&mut self)
        ensures
            *final(self) == (CgroupNode { processes: None, ..*old(self) }),
    {
        self.processes = None;
    }

    /// The cgroup is dead.
    pub fn is_dead(&self) -> (r: bool)
        ensures
            r == self.processes is None,
    {
        self.processes.is_none()
    }

    /// Adds `pid` unless it is there already; `NotFound` on a dead cgroup.
    pub fn add_process(&mut self, pid: Pid) -> (r: Result<(), CgroupError>)
        ensures
            match old(self).processes {
                None => r == Err::<(), CgroupError>(CgroupError::NotFound) && *final(self) == *old(self),
                Some(v) => r is Ok && final(self).procs() == (if v@.contains(pid) {
                    v@
                } else {
                    v@.push(pid)
                }) && final(self).processes is Some && *final(self) == (CgroupNode {
                    processes: final(self).processes,
                    ..*old(self)
                }),
            },
    {
        match &mut self.processes {
            Some(v) => {
                if !vec_contains(v, pid) {
                    v.push(pid);
                }
                Ok(())
            },
            None => Err(CgroupError::NotFound),
        }
    }

    /// Removes every occurrence of `pid`; returns whether there was one.
    pub fn remove_process(&mut self, pid: Pid) -> (r: bool)
        ensures
            r == old(self).procs().contains(pid),
            match old(self).processes {
                None => *final(self) == *old(self),
                Some(v) => final(self).procs() == without(v@, pid) && final(self).processes is Some && *final(self) == (
                CgroupNode { processes: final(self).processes, ..*old(self) }),
            },
    {
        match &mut self.processes {
            Some(v) => {
                let kept = vec_without(v, pid);
                proof {
                    lemma_without_len(v@, pid);
                }
                let removed = kept.len() < v.len();
                *v = kept;
                removed
            },
            None => false,
        }
    }

    /// The processes, in the order they were added.
    pub fn process_list(&self) -> (v: Vec<Pid>)
        ensures
            v@ == self.procs(),
    {
        match &self.processes {
            Some(v) => v.clone(),
            None => Vec::new(),
        }
    }

    /// How many processes the cgroup holds.
    pub fn process_count(&self) -> (n: usize)
        ensures
            n == self.procs().len(),
    {
        match &self.processes {
            Some(v) => v.len(),
            None => 0,
        }
    }

    /// The cgroup holds `pid`.
    pub fn process_contains(&self, pid: Pid) -> (r: bool)
        ensures
            r == self.procs().contains(pid),
    {
        match &self.processes {
            Some(v) => vec_contains(v, pid),
            None => false,
        }
    }

    /// A controller attribute may be used here: the root has them all,
    /// another cgroup those of the controllers handed down to it.
    fn is_ctrl_attr_available(&self, name: &str) -> (r: bool)
        ensures
            r == self.ctrl_attr_available(name@),
    {
        if self.depth == 0 {
            return true;
        }
        match Controller::attr_owner(name) {
            Some(owner) => self.available_controllers.contains(owner.to_set()),
            None => false,
        }
    }

    /// `cgroup.controllers`: the controllers this cgroup may hand down.
    pub fn controller_list_text(&self) -> (s: String)
        ensures
            s@ == names_of(self.available_controllers.bits),
    {
        self.available_controllers.names_text()
    }

    /// `cgroup.events`; reading it clears the pending event.
    pub fn events_text(&mut self) -> (s: String)
        ensures
            s@ == events_line(old(self).populated_count as nat),
            *final(self) == (CgroupNode { events: false, ..*old(self) }),
    {
        self.events = false;
        let mut s = String::new();
        s.append("populated ");
        if self.populated_count > 0 {
            s.append("1");
        } else {
            s.append("0");
        }
        s.append("\nfrozen 0\n");
        s
    }

    /// `cgroup.procs`: the processes for which `shown` holds (those that are
    /// attached and alive), one per line.
    pub fn procs_text(&self, shown: &[bool]) -> (s: String)
        requires
            shown@.len() == self.procs().len(),
        ensures
            s@ == procs_lines(self.procs(), shown@),
    {
        pid_lines(&self.process_list(), shown)
    }

    /// `cgroup.subtree_control`: the controllers handed down.
    pub fn subtree_control_text(&self) -> (s: String)
        ensures
            s@ == names_of(self.subtree_control.bits),
    {
        self.subtree_control.names_text()
    }

    /// Reads a file of the cgroup at `offset`: a `cgroup.*` file, or an
    /// attribute of a controller that may be used here; `shown` says which
    /// processes `cgroup.procs` lists. Reading `cgroup.events` clears the
    /// pending event.
    pub fn read_attr_at(&mut self, name: &str, offset: usize, buf: &mut [u8], shown: &[bool]) -> (r: Result<
        usize,
        CgroupError,
    >)
        requires
            shown@.len() == old(self).procs().len(),
        ensures
            read_outcome(old(self).attr_text(name@, shown@), offset as nat, old(buf)@, final(buf)@, r),
            *final(self) == (if name@ == "cgroup.events"@ {
                CgroupNode { events: false, ..*old(self) }
            } else {
                *old(self)
            }),
    {
        proof {
            reveal_strlit("cgroup.controllers");
            reveal_strlit("cgroup.events");
            reveal_strlit("cgroup.procs");
            reveal_strlit("cgroup.subtree_control");
            reveal_strlit("cgroup.max.depth");
            assert("cgroup.controllers"@.len() == 18);
            assert("cgroup.events"@.len() == 13);
            assert("cgroup.procs"@.len() == 12);
            assert("cgroup.subtree_control"@.len() == 22);
            assert("cgroup.max.depth"@.len() == 16);
        }
        let value = if str_is(name, "cgroup.controllers") {
            self.controller_list_text()
        } else if str_is(name, "cgroup.events") {
            self.events_text()
        } else if str_is(name, "cgroup.procs") {
            self.procs_text(shown)
        } else if str_is(name, "cgroup.subtree_control") {
            self.subtree_control_text()
        } else if str_is(name, "cgroup.max.depth") {
            self.max_depth_text()
        } else {
            if !self.is_ctrl_attr_available(name) {
                return Err(CgroupError::NotFound);
            }
            return self.controller.read_attr_at(name, offset, buf);
        };
        Ok(read_text_at(&value, offset, buf))
    }

    /// Writes `cgroup.subtree_control`: `+name` and `-name` words enable and
    /// disable controllers for the children, in order; a controller can only
    /// be enabled if it is available here. A bad word refuses the whole
    /// write (`InvalidInput`); a non-root cgroup with processes cannot hand
    /// a domain controller down (`ResourceBusy`).
    pub fn write_subtree_control(&mut self, data: &[u8]) -> (r: Result<usize, CgroupError>)
        ensures
            match subtree_write(*old(self), data@) {
                Ok(bits) => r == Ok::<usize, CgroupError>(data@.len() as usize) && *final(self) == (CgroupNode {
                    subtree_control: SubCtrlSet { bits },
                    ..*old(self)
                }),
                Err(e) => r == Err::<usize, CgroupError>(e) && *final(self) == *old(self),
            },
    {
        if !is_utf8(data) {
            return Err(CgroupError::InvalidInput);
        }
        let (lo, hi) = trim_bounds(data, 0, data.len());
        assert(data@.subrange(0, data@.len() as int) =~= data@);
        let parts = split_words(data, lo, hi);
        let ghost ws = words(data@.subrange(lo as int, hi as int));
        let available = self.available_controllers;
        let mut next = self.subtree_control;
        let mut i: usize = 0;
        assert(ws.subrange(0, ws.len() as int) =~= ws);
        while i < parts.len()
            invariant
                0 <= i <= parts@.len(),
                crate::text::pieces(data@, parts@) == ws,
                forall|k: int| 0 <= k < parts@.len() ==> lo <= (#[trigger] parts@[k]).0 <= parts@[k].1 <= hi,
                hi <= data@.len(),
                vstd::utf8::valid_utf8(data@),
                data@.subrange(lo as int, hi as int) == trim(data@),
                ws == words(data@.subrange(lo as int, hi as int)),
                available == old(self).available_controllers,
                *self == *old(self),
                subtree_words(ws, available.bits, old(self).subtree_control.bits) == subtree_words(
                    ws.subrange(i as int, ws.len() as int),
                    available.bits,
                    next.bits,
                ),
            decreases parts@.len() - i,
        {
            let (a, b) = parts[i];
            let ghost w = data@.subrange(a as int, b as int);
            assert(ws[i as int] == w);
            assert(ws.subrange(i as int, ws.len() as int).drop_first() =~= ws.subrange(i + 1, ws.len() as int));
            assert(ws.subrange(i as int, ws.len() as int)[0] == w);
            let sign = if a < b { data[a] } else { 0u8 };
            if a < b && (sign == 43 || sign == 45) {
                assert(w[0] == sign);
                assert(w.drop_first() =~= data@.subrange(a + 1, b as int));
                let t = match ctrl_named_at(data, a + 1, b) {
                    Some(t) => t,
                    None => {
                        assert(subtree_word(w, available.bits, next.bits) is None);
                        return Err(CgroupError::InvalidInput);
                    },
                };
                let flag = t.to_set();
                if sign == 43 {
                    if !available.contains(flag) {
                        return Err(CgroupError::InvalidInput);
                    }
                    next.insert(flag);
                } else {
                    next.remove(flag);
                }
            } else {
                assert(a < b ==> w[0] == sign);
                assert(subtree_word(w, available.bits, next.bits) is None);
                return Err(CgroupError::InvalidInput);
            }
            i = i + 1;
        }
        if self.depth != 0 && next.contains_domain_controller() && self.process_count() != 0 {
            return Err(CgroupError::ResourceBusy);
        }
        self.subtree_control = next;
        Ok(data.len())
    }
}

/// What a `cgroup.subtree_control` write of `data` does to `n`: the new
/// enabled set, or the error.
pub open spec fn subtree_write(n: CgroupNode, data: Seq<u8>) -> Result<u8, CgroupError> {
    if !vstd::utf8::valid_utf8(data) {
        Err(CgroupError::InvalidInput)
    } else {
        match subtree_words(words(trim(data)), n.available_controllers.bits, n.subtree_control.bits) {
            None => Err(CgroupError::InvalidInput),
            Some(bits) => if n.depth != 0 && bits & 3 != 0 && n.procs().len() != 0 {
                Err(CgroupError::ResourceBusy)
            } else {
                Ok(bits)
            },
        }
    }
}

/// `v` holds `pid`.
fn vec_contains(v: &Vec<Pid>, pid: Pid) -> (r: bool)
    ensures
        r == v@.contains(pid),
{
    let mut i: usize = 0;
    while i < v.len()
        invariant
            0 <= i <= v@.len(),
            forall|j: int| 0 <= j < i ==> v@[j] != pid,
        decreases v@.len() - i,
    {
        if v[i] == pid {
            assert(v@[i as int] == pid);
            return true;
        }
        i = i + 1;
    }
    false
}

/// `v` without `pid`.
fn vec_without(v: &Vec<Pid>, pid: Pid) -> (r: Vec<Pid>)
    ensures
        r@ == without(v@, pid),
{
    let mut r: Vec<Pid> = Vec::new();
    let mut i: usize = 0;
    while i < v.len()
        invariant
            0 <= i <= v@.len(),
            r@ == without(v@.take(i as int), pid),
        decreases v@.len() - i,
    {
        assert(v@.take(i + 1).drop_last() =~= v@.take(i as int));
        if v[i] != pid {
            r.push(v[i]);
        }
        i = i + 1;
    }
    assert(v@.take(v@.len() as int) =~= v@);
    r
}

// ---------------------------------------------------------------------------
// The hierarchy
// ---------------------------------------------------------------------------

/// The position of the first of the children `ids` from `i` on that is
/// called `name`.
pub open spec fn find_child_from(nodes: Seq<CgroupNode>, ids: Seq<usize>, name: Seq<char>, i: int) -> Option<int>
    decreases ids.len() - i,
{
    if i < 0 || i >= ids.len() {
        None
    } else if nodes[ids[i] as int].name@ == name {
        Some(i)
    } else {
        find_child_from(nodes, ids, name, i + 1)
    }
}

proof fn lemma_find_child_from(nodes: Seq<CgroupNode>, ids: Seq<usize>, name: Seq<char>, i: int)
    requires
        0 <= i,
    ensures
        find_child_from(nodes, ids, name, i) matches Some(k) ==> i <= k < ids.len() && nodes[ids[k] as int].name@ == name,
        find_child_from(nodes, ids, name, i) is None ==> forall|k: int| i <= k < ids.len() ==> nodes[#[trigger] ids[k] as int].name@ != name,
    decreases ids.len() - i,
{
    if i < ids.len() {
        lemma_find_child_from(nodes, ids, name, i + 1);
    }
}

/// Where a child called `name` goes among the sorted children `ids`
/// (searching from `i`): before the first that does not sort before it.
pub open spec fn insert_pos_from(nodes: Seq<CgroupNode>, ids: Seq<usize>, name: Seq<char>, i: int) -> int
    decreases ids.len() - i,
{
    if i < 0 || i >= ids.len() {
        ids.len() as int
    } else if !str_lt(nodes[ids[i] as int].name@, name) {
        i
    } else {
        insert_pos_from(nodes, ids, name, i + 1)
    }
}

/// Every name sorts before the next: sorted, without repeats.
pub open spec fn strictly_sorted(names: Seq<Seq<char>>) -> bool {
    forall|j: int, k: int| 0 <= j < k < names.len() ==> str_lt(#[trigger] names[j], #[trigger] names[k])
}

pub proof fn lemma_insert_sorted(names: Seq<Seq<char>>, name: Seq<char>, pos: int)
    requires
        strictly_sorted(names),
        0 <= pos <= names.len(),
        forall|j: int| 0 <= j < pos ==> str_lt(#[trigger] names[j], name),
        pos < names.len() ==> !str_lt(names[pos], name),
        forall|j: int| 0 <= j < names.len() ==> #[trigger] names[j] != name,
    ensures
        strictly_sorted(names.insert(pos, name)),
{
    let l = names.insert(pos, name);
    if pos < names.len() {
        lemma_str_lt_order(names[pos], name, name);
    }
    assert forall|j: int, k: int| 0 <= j < k < l.len() implies str_lt(#[trigger] l[j], #[trigger] l[k]) by {
        if j == pos && k - 1 > pos {
            lemma_str_lt_order(name, names[pos], names[k - 1]);
        }
        if j < pos && k > pos {
            assert(str_lt(names[j], names[k - 1]));
        }
    }
}

pub proof fn lemma_remove_sorted(names: Seq<Seq<char>>, pos: int)
    requires
        strictly_sorted(names),
        0 <= pos < names.len(),
    ensures
        strictly_sorted(names.remove(pos)),
{
    let l = names.remove(pos);
    assert forall|j: int, k: int| 0 <= j < k < l.len() implies str_lt(#[trigger] l[j], #[trigger] l[k]) by {
        let jj = if j < pos { j } else { j + 1 };
        let kk = if k < pos { k } else { k + 1 };
        assert(l[j] == names[jj] && l[k] == names[kk]);
    }
}

/// The path of a child called `name` of a cgroup at `parent_path`.
pub open spec fn child_path(parent_path: Seq<char>, name: Seq<char>) -> Seq<char> {
    if parent_path == "/"@ {
        "/"@ + name
    } else {
        parent_path + "/"@ + name
    }
}

/// `c` is the controller set a child of a cgroup with controllers `p` gets:
/// every controller fresh and linked to the parent's, the active set
/// inherited.
pub open spec fn child_controller(p: Controller, c: Controller) -> bool {
    &&& c.spec_active_bits() == p.spec_active_bits() & known_bits()
    &&& c.spec_cpuset().spec_inner() matches Some(x) && crate::cgroup::controller::fresh_cpuset(x)
    &&& c.spec_cpu().spec_inner() matches Some(x) && crate::cgroup::controller::fresh_cpu(x)
    &&& c.spec_pids().spec_inner() matches Some(x) && crate::cgroup::controller::fresh_pids(x)
    &&& c.spec_cpuset().spec_parent() == Some(p.spec_cpuset())
    &&& c.spec_cpu().spec_parent() == Some(p.spec_cpu())
    &&& c.spec_pids().spec_parent() == Some(p.spec_pids())
}

/// `c` is a new child called `name`, at index `pid`, of the cgroup `p`:
/// it takes the controllers `p` hands down as its available ones, hands
/// none down itself, holds no processes and has no depth limit.
pub open spec fn fresh_child(p: CgroupNode, pid: usize, name: Seq<char>, c: CgroupNode) -> bool {
    &&& c.cgroup_id == 0
    &&& c.name@ == name
    &&& c.path@ == child_path(p.path@, name)
    &&& c.parent == Some(pid)
    &&& c.children@.len() == 0
    &&& c.processes matches Some(v) && v@.len() == 0
    &&& c.depth == p.depth + 1
    &&& c.populated_count == 0
    &&& !c.events
    &&& c.max_depth == -1
    &&& c.available_controllers == p.subtree_control
    &&& c.subtree_control.bits == 0
    &&& c.attr_names@.map_values(|s: String| s@) == node_attr_names(p.subtree_control.bits, false)
    &&& child_controller(p.controller, c.controller)
}

/// `after` is `before` with a new child called `name` under `id`, at the
/// end of the arena and among the children of `id` where its name sorts.
pub open spec fn child_added(before: CgroupSystem, after: CgroupSystem, id: usize, name: Seq<char>) -> bool {
    let c = before.nodes().len();
    &&& after.nodes().len() == c + 1
    &&& forall|i: int| 0 <= i < c && i != id ==> #[trigger] after.at(i) == before.at(i)
    &&& after.at(id as int) == (CgroupNode { children: after.at(id as int).children, ..before.at(id as int) })
    &&& after.child_ids(id as int) == before.child_ids(id as int).insert(
        insert_pos_from(before.nodes(), before.child_ids(id as int), name, 0),
        c as usize,
    )
    &&& fresh_child(before.at(id as int), id, name, after.at(c as int))
}

/// The whole hierarchy.
pub struct CgroupSystem {
    nodes: Vec<CgroupNode>,
}

impl CgroupSystem {
    /// Every cgroup ever created, by index.
    pub closed spec fn nodes(&self) -> Seq<CgroupNode> {
        self.nodes@
    }

    /// The cgroup at `id`.
    pub open spec fn at(&self, id: int) -> CgroupNode {
        self.nodes()[id]
    }

    /// `id` names a cgroup.
    pub open spec fn valid(&self, id: int) -> bool {
        0 <= id < self.nodes().len()
    }

    /// The children of `id`, in order.
    pub open spec fn child_ids(&self, id: int) -> Seq<usize> {
        self.at(id).children@
    }

    /// The child of `id` called `name`.
    pub open spec fn child_named(&self, id: int, name: Seq<char>) -> Option<usize> {
        match find_child_from(self.nodes(), self.child_ids(id), name, 0) {
            Some(k) => Some(self.child_ids(id)[k]),
            None => None,
        }
    }

    /// The names of the children of `id`, in order.
    pub open spec fn child_names_of(&self, id: int) -> Seq<Seq<char>> {
        self.child_ids(id).map_values(|c: usize| self.at(c as int).name@)
    }

    /// The hierarchy is well formed: the root is at 0 with path `/`; every
    /// other cgroup's parent comes before it and is one level up; a
    /// cgroup's children name it as their parent and are sorted by name.
    pub open spec fn wf(&self) -> bool {
        let ns = self.nodes();
        &&& ns.len() >= 1
        &&& ns[0].parent is None
        &&& ns[0].depth == 0
        &&& ns[0].path@ == "/"@
        &&& forall|id: int| 0 < id < ns.len() ==> ((#[trigger] ns[id]).parent matches Some(p) && p < id && ns[id].depth == ns[p as int].depth + 1)
        &&& forall|id: int| 0 <= id < ns.len() ==> (#[trigger] ns[id]).depth <= id
        &&& forall|id: int, k: int|
            0 <= id < ns.len() && 0 <= k < ns[id].children@.len() ==> (#[trigger] ns[id].children@[k]) < ns.len()
                && ns[ns[id].children@[k] as int].parent == Some(id as usize)
        &&& forall|id: int| 0 <= id < ns.len() ==> strictly_sorted(#[trigger] self.child_names_of(id))
    }

    /// A hierarchy of the root cgroup alone.
    pub fn new() -> (s: Self)
        ensures
            s.wf(),
            s.nodes().len() == 1,
            s.at(0).cgroup_id == ROOT_ID,
            s.at(0).name@ == Seq::<char>::empty(),
            s.at(0).children@.len() == 0,
            s.at(0).processes matches Some(v) && v@.len() == 0,
            s.at(0).populated_count == 0,
            !s.at(0).events,
            s.at(0).max_depth == -1,
            s.at(0).available_controllers.bits == known_bits(),
            s.at(0).subtree_control.bits == 0,
            s.at(0).attr_names@.map_values(|s: String| s@) == node_attr_names(known_bits(), true),
    {
        let mut nodes = Vec::new();
        nodes.push(CgroupNode::new_root());
        CgroupSystem { nodes }
    }

    /// How many cgroups the arena holds, removed ones included.
    pub fn len(&self) -> (n: usize)
        ensures
            n == self.nodes().len(),
    {
        self.nodes.len()
    }

    /// The root cgroup's index.
    pub fn root(&self) -> (id: usize)
        ensures
            id == 0,
    {
        0
    }

    /// The cgroup at `id`.
    pub fn node(&self, id: usize) -> (n: &CgroupNode)
        requires
            self.valid(id as int),
        ensures
            *n == self.at(id as int),
    {
        &self.nodes[id]
    }

    /// The parent of `id`, `None` for the root.
    pub fn parent(&self, id: usize) -> (p: Option<usize>)
        requires
            self.valid(id as int),
        ensures
            p == self.at(id as int).parent,
    {
        self.nodes[id].parent
    }

    /// The position among the children of `id` of the one called `name`.
    fn find_child(&self, id: usize, name: &str) -> (r: Option<usize>)
        requires
            self.wf(),
            self.valid(id as int),
        ensures
            match r {
                Some(k) => find_child_from(self.nodes(), self.child_ids(id as int), name@, 0) == Some(k as int),
                None => find_child_from(self.nodes(), self.child_ids(id as int), name@, 0) is None,
            },
    {
        let ids = &self.nodes[id].children;
        let mut i: usize = 0;
        while i < ids.len()
            invariant
                self.wf(),
                self.valid(id as int),
                *ids == self.at(id as int).children,
                0 <= i <= ids@.len(),
                find_child_from(self.nodes(), ids@, name@, 0) == find_child_from(self.nodes(), ids@, name@, i as int),
            decreases ids@.len() - i,
        {
            let c = ids[i];
            assert(c < self.nodes().len());
            if str_is(self.nodes[c].name.as_str(), name) {
                return Some(i);
            }
            i = i + 1;
        }
        None
    }

    /// Where a child called `name` goes among the children of `id`.
    fn insert_pos(&self, id: usize, name: &str) -> (r: usize)
        requires
            self.wf(),
            self.valid(id as int),
        ensures
            r == insert_pos_from(self.nodes(), self.child_ids(id as int), name@, 0),
            r <= self.child_ids(id as int).len(),
            forall|j: int| 0 <= j < r ==> str_lt(#[trigger] self.at(self.child_ids(id as int)[j] as int).name@, name@),
            r < self.child_ids(id as int).len() ==> !str_lt(self.at(self.child_ids(id as int)[r as int] as int).name@, name@),
    {
        let ids = &self.nodes[id].children;
        let mut i: usize = 0;
        while i < ids.len()
            invariant
                self.wf(),
                self.valid(id as int),
                *ids == self.at(id as int).children,
                0 <= i <= ids@.len(),
                insert_pos_from(self.nodes(), ids@, name@, 0) == insert_pos_from(self.nodes(), ids@, name@, i as int),
                forall|j: int| 0 <= j < i ==> str_lt(#[trigger] self.at(ids@[j] as int).name@, name@),
            decreases ids@.len() - i,
        {
            let c = ids[i];
            assert(c < self.nodes().len());
            if !str_less(self.nodes[c].name.as_str(), name) {
                return i;
            }
            i = i + 1;
        }
        i
    }

    /// The child of `id` called `name`.
    pub fn get_child(&self, id: usize, name: &str) -> (r: Option<usize>)
        requires
            self.wf(),
            self.valid(id as int),
        ensures
            r == self.child_named(id as int, name@),
    {
        proof {
            lemma_find_child_from(self.nodes(), self.child_ids(id as int), name@, 0);
        }
        match self.find_child(id, name) {
            Some(k) => {
                let c = self.nodes[id].children[k];
                assert(c == self.child_ids(id as int)[k as int]);
                Some(c)
            },
            None => None,
        }
    }

    /// The names of the children of `id`, in sorted order.
    pub fn child_names(&self, id: usize) -> (v: Vec<String>)
        requires
            self.wf(),
            self.valid(id as int),
        ensures
            v@.map_values(|s: String| s@) == self.child_names_of(id as int),
    {
        let ids = &self.nodes[id].children;
        let mut v: Vec<String> = Vec::new();
        let mut i: usize = 0;
        while i < ids.len()
            invariant
                self.wf(),
                self.valid(id as int),
                *ids == self.at(id as int).children,
                0 <= i <= ids@.len(),
                v@.map_values(|s: String| s@) == self.child_names_of(id as int).take(i as int),
            decreases ids@.len() - i,
        {
            let c = ids[i];
            assert(c < self.nodes().len());
            let ghost before = v@;
            v.push(self.nodes[c].name.clone());
            assert(v@.map_values(|s: String| s@) =~= before.map_values(|s: String| s@).push(self.at(c as int).name@));
            assert(self.child_names_of(id as int).take(i + 1) =~= self.child_names_of(id as int).take(i as int).push(self.at(c as int).name@));
            i = i + 1;
        }
        assert(self.child_names_of(id as int).take(ids@.len() as int) =~= self.child_names_of(id as int));
        v
    }
}

impl CgroupNode {
    /// A new child called `name` of `parent`, which sits at index
    /// `parent_id`; it is not yet among the parent's children.
    pub fn new_child(name: &str, parent: &CgroupNode, parent_id: usize) -> (c: CgroupNode)
        requires
            parent.depth < usize::MAX,
        ensures
            fresh_child(*parent, parent_id, name@, c),
    {
        let mut path = String::new();
        if str_is(parent.path.as_str(), "/") {
            path.append("/");
            path.append(name);
        } else {
            path.append(parent.path.as_str());
            path.append("/");
            path.append(name);
        }
        let controller = Controller::new(Some(&parent.controller));
        let handed_down = parent.subtree_control;
        let attr_names = collect_attr_names(&controller, handed_down, false);
        CgroupNode {
            cgroup_id: 0,
            name: String::from_str(name),
            path,
            parent: Some(parent_id),
            children: Vec::new(),
            controller,
            processes: Some(Vec::new()),
            depth: parent.depth + 1,
            populated_count: 0,
            events: false,
            max_depth: -1,
            available_controllers: handed_down,
            subtree_control: SubCtrlSet::empty(),
            attr_names,
        }
    }
}

impl CgroupSystem {
    /// Creates a child called `name` under `id`; `AlreadyExists` when `id`
    /// has a child of that name. The new cgroup goes at the end of the
    /// arena and among the children of `id` where its name sorts.
    pub fn add_child(&mut self, id: usize, name: &str) -> (r: Result<usize, CgroupError>)
        requires
            old(self).wf(),
            old(self).valid(id as int),
            old(self).nodes().len() < usize::MAX,
        ensures
            final(self).wf(),
            match old(self).child_named(id as int, name@) {
                Some(_) => r == Err::<usize, CgroupError>(CgroupError::AlreadyExists) && final(self).nodes() == old(
                    self,
                ).nodes(),
                None => r == Ok::<usize, CgroupError>(old(self).nodes().len() as usize) && child_added(
                    *old(self),
                    *final(self),
                    id,
                    name@,
                ),
            },
    {
        proof {
            lemma_find_child_from(self.nodes(), self.child_ids(id as int), name@, 0);
        }
        if self.find_child(id, name).is_some() {
            return Err(CgroupError::AlreadyExists);
        }
        let pos = self.insert_pos(id, name);
        let c = self.nodes.len();
        assert(self.at(id as int).depth <= id);
        let child = CgroupNode::new_child(name, &self.nodes[id], id);
        let ghost old_nodes = self.nodes();
        let ghost names = self.child_names_of(id as int);
        self.nodes.push(child);
        self.nodes[id].children.insert(pos, c);
        proof {
            let ns = self.nodes();
            assert(forall|i: int| 0 <= i < c && i != id ==> #[trigger] ns[i] == old_nodes[i]);
            assert(ns[c as int] == child);
            assert forall|i: int| 0 <= i < ns.len() && i != id implies #[trigger] self.child_names_of(i) == if i
                == c {
                Seq::<Seq<char>>::empty()
            } else {
                old(self).child_names_of(i)
            } by {
                if i != c {
                    assert forall|k: int| 0 <= k < ns[i].children@.len() implies #[trigger] ns[ns[i].children@[k] as int].name@
                        == old_nodes[old_nodes[i].children@[k] as int].name@ by {
                        assert(old_nodes[i].children@[k] < c);
                    }
                    assert(self.child_names_of(i) =~= old(self).child_names_of(i));
                } else {
                    assert(self.child_names_of(i) =~= Seq::<Seq<char>>::empty());
                }
            }
            assert(self.child_names_of(id as int) =~= names.insert(pos as int, name@)) by {
                assert forall|k: int| 0 <= k < old_nodes[id as int].children@.len() implies #[trigger] old_nodes[
                    old_nodes[id as int].children@[k] as int] == ns[old_nodes[id as int].children@[k] as int] by {
                    assert(old_nodes[id as int].children@[k] < c);
                }
            }
            lemma_insert_sorted(names, name@, pos as int);
        }
        Ok(c)
    }

    /// Takes the child called `name` off the children of `id`; returns
    /// whether there was one. The removed cgroup stays in the arena.
    pub fn remove_child(&mut self, id: usize, name: &str) -> (r: bool)
        requires
            old(self).wf(),
            old(self).valid(id as int),
        ensures
            final(self).wf(),
            r == old(self).child_named(id as int, name@) is Some,
            match find_child_from(old(self).nodes(), old(self).child_ids(id as int), name@, 0) {
                None => final(self).nodes() == old(self).nodes(),
                Some(k) => final(self).nodes() == old(self).nodes().update(
                    id as int,
                    CgroupNode { children: final(self).at(id as int).children, ..old(self).at(id as int) },
                ) && final(self).child_ids(id as int) == old(self).child_ids(id as int).remove(k),
            },
    {
        proof {
            lemma_find_child_from(self.nodes(), self.child_ids(id as int), name@, 0);
        }
        match self.find_child(id, name) {
            None => false,
            Some(k) => {
                let ghost old_nodes = self.nodes();
                let ghost names = self.child_names_of(id as int);
                self.nodes[id].children.remove(k);
                proof {
                    let ns = self.nodes();
                    assert(ns =~= old_nodes.update(id as int, CgroupNode { children: ns[id as int].children, ..old_nodes[id as int] }));
                    assert forall|i: int| 0 <= i < ns.len() && i != id implies #[trigger] self.child_names_of(i)
                        == old(self).child_names_of(i) by {
                        assert(self.child_names_of(i) =~= old(self).child_names_of(i));
                    }
                    assert(self.child_names_of(id as int) =~= names.remove(k as int));
                    lemma_remove_sorted(names, k as int);
                }
                true
            },
        }
    }
}

// ---------------------------------------------------------------------------
// Populated counts, depth limits, paths
// ---------------------------------------------------------------------------

/// `n` and `m` have the same place in the tree: name, path, parent,
/// children and depth.
pub open spec fn same_shape(n: CgroupNode, m: CgroupNode) -> bool {
    &&& n.name@ == m.name@
    &&& n.path@ == m.path@
    &&& n.parent == m.parent
    &&& n.children@ == m.children@
    &&& n.depth == m.depth
}

/// One more process in `id` and each of its ancestors, as
/// `propagate_add_populated` counts it: a count leaving 0 raises the event.
pub open spec fn bump_up(nodes: Seq<CgroupNode>, id: int) -> Seq<CgroupNode>
    decreases id,
{
    if !(0 <= id < nodes.len()) {
        nodes
    } else {
        let n = nodes[id];
        let ns = nodes.update(
            id,
            CgroupNode {
                populated_count: vstd::wrapping::usize_specs::wrapping_add(n.populated_count, 1),
                events: if n.populated_count == 0 {
                    true
                } else {
                    n.events
                },
                ..n
            },
        );
        match n.parent {
            Some(p) => if p < id {
                bump_up(ns, p as int)
            } else {
                ns
            },
            None => ns,
        }
    }
}

/// One process fewer in `id` and its ancestors, as
/// `propagate_sub_populated` counts it: it stops at the first count that is
/// already 0, and a count reaching 0 raises the event.
pub open spec fn drop_up(nodes: Seq<CgroupNode>, id: int) -> Seq<CgroupNode>
    decreases id,
{
    if !(0 <= id < nodes.len()) || nodes[id].populated_count == 0 {
        nodes
    } else {
        let n = nodes[id];
        let ns = nodes.update(
            id,
            CgroupNode {
                populated_count: (n.populated_count - 1) as usize,
                events: if n.populated_count == 1 {
                    true
                } else {
                    n.events
                },
                ..n
            },
        );
        match n.parent {
            Some(p) => if p < id {
                drop_up(ns, p as int)
            } else {
                ns
            },
            None => ns,
        }
    }
}

/// The depth limit of `n` admits a descendant at depth `d`.
pub open spec fn depth_admits(n: CgroupNode, d: int) -> bool {
    !(n.max_depth >= 0 && d - n.depth > n.max_depth)
}

/// The depth limits of `id` and of all its ancestors admit a descendant at
/// depth `d`.
pub open spec fn depth_admitted_up(nodes: Seq<CgroupNode>, id: int, d: int) -> bool
    decreases id,
{
    if !(0 <= id < nodes.len()) {
        true
    } else {
        depth_admits(nodes[id], d) && match nodes[id].parent {
            Some(p) => if p < id {
                depth_admitted_up(nodes, p as int, d)
            } else {
                true
            },
            None => true,
        }
    }
}

/// The largest distance from `id` down to one of its descendants, through
/// the children of `id` from position `k` on.
pub open spec fn descent(nodes: Seq<CgroupNode>, id: int, k: int) -> nat
    decreases nodes.len() - id, nodes[id].children@.len() - k,
{
    if !(0 <= id < nodes.len()) || k < 0 || k >= nodes[id].children@.len() {
        0
    } else {
        let c = nodes[id].children@[k] as int;
        let here: nat = if id < c < nodes.len() {
            1 + descent(nodes, c, 0)
        } else {
            0
        };
        let rest = descent(nodes, id, k + 1);
        if here > rest {
            here
        } else {
            rest
        }
    }
}

/// What a write of `data` to `cgroup.max.depth` asks for: `max` (-1) or a
/// number up to `i64::MAX`; anything else is refused.
pub open spec fn max_depth_request(data: Seq<u8>) -> Result<i64, CgroupError> {
    if !vstd::utf8::valid_utf8(data) {
        Err(CgroupError::InvalidInput)
    } else if trim(data) == vstd::utf8::encode_utf8("max"@) {
        Ok(-1i64)
    } else {
        match spec_parse_u64(trim(data)) {
            Some(v) => if v > i64::MAX as u64 {
                Err(CgroupError::InvalidInput)
            } else {
                Ok(v as i64)
            },
            None => Err(CgroupError::InvalidInput),
        }
    }
}

/// What a write of `data` to `cgroup.procs` asks for: the process to move
/// here, its number written in decimal.
pub open spec fn procs_request(data: Seq<u8>) -> Result<Pid, CgroupError> {
    if !vstd::utf8::valid_utf8(data) {
        Err(CgroupError::InvalidInput)
    } else {
        match spec_parse_u32(trim(data)) {
            Some(pid) => Ok(pid),
            None => Err(CgroupError::InvalidInput),
        }
    }
}

/// The position of the first of the children `ids` from `i` on whose name
/// is spelled by the bytes `b`.
pub open spec fn find_child_bytes_from(nodes: Seq<CgroupNode>, ids: Seq<usize>, b: Seq<u8>, i: int) -> Option<int>
    decreases ids.len() - i,
{
    if i < 0 || i >= ids.len() {
        None
    } else if vstd::utf8::encode_utf8(nodes[ids[i] as int].name@) == b {
        Some(i)
    } else {
        find_child_bytes_from(nodes, ids, b, i + 1)
    }
}

/// Following the path components `comps` down from `cur`; empty
/// components are skipped.
pub open spec fn walk(nodes: Seq<CgroupNode>, cur: int, comps: Seq<Seq<u8>>) -> Option<int>
    decreases comps.len(),
{
    if comps.len() == 0 {
        Some(cur)
    } else if comps[0].len() == 0 {
        walk(nodes, cur, comps.drop_first())
    } else {
        let ids = nodes[cur].children@;
        match find_child_bytes_from(nodes, ids, comps[0], 0) {
            Some(k) => walk(nodes, ids[k] as int, comps.drop_first()),
            None => None,
        }
    }
}

/// The cgroup at `path` (its UTF-8 bytes): `/` is the root, and otherwise
/// the components between slashes are followed down from the root.
pub open spec fn lookup_path(nodes: Seq<CgroupNode>, path: Seq<u8>) -> Option<int> {
    if path == vstd::utf8::encode_utf8("/"@) {
        Some(0)
    } else {
        walk(nodes, 0, split_on(path, 47))
    }
}

/// What a write to a cgroup's file leads to.
#[derive(Debug, Clone, Copy, PartialEq, Eq, Structural)]
pub enum AttrWrite {
    /// The write was applied; this many bytes were taken.
    Written(usize),
    /// `cgroup.procs`: the kernel moves this process into the cgroup, if it
    /// exists, and then takes the whole write.
    Migrate(Pid),
}

impl CgroupSystem {
    proof fn lemma_same_shape(&self, other: &CgroupSystem)
        requires
            self.wf(),
            other.nodes().len() == self.nodes().len(),
            forall|i: int| 0 <= i < self.nodes().len() ==> same_shape(#[trigger] self.nodes()[i], other.nodes()[i]),
        ensures
            other.wf(),
            forall|i: int| 0 <= i < self.nodes().len() ==> #[trigger] other.child_names_of(i) == self.child_names_of(i),
    {
        let (ns, ms) = (self.nodes(), other.nodes());
        assert forall|i: int| 0 <= i < ns.len() implies #[trigger] other.child_names_of(i) == self.child_names_of(i) by {
            assert(same_shape(ns[i], ms[i]));
            assert forall|k: int| 0 <= k < ns[i].children@.len() implies #[trigger] ms[ns[i].children@[k] as int].name@
                == ns[ns[i].children@[k] as int].name@ by {
                assert(same_shape(ns[ns[i].children@[k] as int], ms[ns[i].children@[k] as int]));
            }
            assert(other.child_names_of(i) =~= self.child_names_of(i));
        }
        assert(same_shape(ns[0], ms[0]));
        assert forall|id: int| 0 < id < ms.len() implies ((#[trigger] ms[id]).parent matches Some(p) && p < id
            && ms[id].depth == ms[p as int].depth + 1) by {
            assert(same_shape(ns[id], ms[id]));
            let p = ns[id].parent->0;
            assert(same_shape(ns[p as int], ms[p as int]));
        }
        assert forall|id: int| 0 <= id < ms.len() implies (#[trigger] ms[id]).depth <= id by {
            assert(same_shape(ns[id], ms[id]));
        }
        assert forall|id: int, k: int| 0 <= id < ms.len() && 0 <= k < ms[id].children@.len() implies (
        #[trigger] ms[id].children@[k]) < ms.len() && ms[ms[id].children@[k] as int].parent == Some(id as usize) by {
            assert(same_shape(ns[id], ms[id]));
            assert(same_shape(ns[ns[id].children@[k] as int], ms[ns[id].children@[k] as int]));
        }
    }

    /// Sets the stable cgroup ID of `id`.
    pub fn set_cgroup_id(&mut self, id: usize, cgroup_id: CgroupId)
        requires
            old(self).wf(),
            old(self).valid(id as int),
        ensures
            final(self).wf(),
            final(self).nodes() == old(self).nodes().update(id as int, CgroupNode { cgroup_id, ..old(self).at(id as int) }),
    {
        self.nodes[id].cgroup_id = cgroup_id;
        proof {
            old(self).lemma_same_shape(self);
        }
    }

    /// Marks `id` dead: it holds no processes and takes none.
    pub fn mark_as_dead(&mut self, id: usize)
        requires
            old(self).wf(),
            old(self).valid(id as int),
        ensures
            final(self).wf(),
            final(self).nodes() == old(self).nodes().update(id as int, CgroupNode { processes: None, ..old(self).at(id as int) }),
    {
        self.nodes[id].mark_as_dead();
        proof {
            old(self).lemma_same_shape(self);
        }
    }

    /// Adds `pid` to `id` unless it is there already; `NotFound` on a dead
    /// cgroup.
    pub fn add_process(&mut self, id: usize, pid: Pid) -> (r: Result<(), CgroupError>)
        requires
            old(self).wf(),
            old(self).valid(id as int),
        ensures
            final(self).wf(),
            match old(self).at(id as int).processes {
                None => r == Err::<(), CgroupError>(CgroupError::NotFound) && final(self).nodes() == old(self).nodes(),
                Some(v) => r is Ok && final(self).nodes() == old(self).nodes().update(
                    id as int,
                    CgroupNode { processes: final(self).at(id as int).processes, ..old(self).at(id as int) },
                ) && final(self).at(id as int).processes is Some && final(self).at(id as int).procs() == (if v@.contains(
                    pid,
                ) {
                    v@
                } else {
                    v@.push(pid)
                }),
            },
    {
        let r = self.nodes[id].add_process(pid);
        proof {
            old(self).lemma_same_shape(self);
            assert(self.nodes() =~= old(self).nodes().update(id as int, self.at(id as int)));
        }
        r
    }

    /// Removes `pid` from `id`; returns whether it was there.
    pub fn remove_process(&mut self, id: usize, pid: Pid) -> (r: bool)
        requires
            old(self).wf(),
            old(self).valid(id as int),
        ensures
            final(self).wf(),
            r == old(self).at(id as int).procs().contains(pid),
            match old(self).at(id as int).processes {
                None => final(self).nodes() == old(self).nodes(),
                Some(v) => final(self).nodes() == old(self).nodes().update(
                    id as int,
                    CgroupNode { processes: final(self).at(id as int).processes, ..old(self).at(id as int) },
                ) && final(self).at(id as int).processes is Some && final(self).at(id as int).procs() == without(v@, pid),
            },
    {
        let r = self.nodes[id].remove_process(pid);
        proof {
            old(self).lemma_same_shape(self);
            assert(self.nodes() =~= old(self).nodes().update(id as int, self.at(id as int)));
        }
        r
    }

    /// Counts one more process in `id` and each of its ancestors; a count
    /// leaving 0 raises the cgroup's event.
    pub fn propagate_add_populated(&mut self, id: usize)
        requires
            old(self).wf(),
            old(self).valid(id as int),
        ensures
            final(self).wf(),
            final(self).nodes() == bump_up(old(self).nodes(), id as int),
        decreases id,
    {
        let count = self.nodes[id].populated_count;
        self.nodes[id].populated_count = count.wrapping_add(1);
        if count == 0 {
            self.nodes[id].events = true;
        }
        proof {
            old(self).lemma_same_shape(self);
            let n = old(self).at(id as int);
            assert(self.at(id as int) == CgroupNode {
                populated_count: vstd::wrapping::usize_specs::wrapping_add(n.populated_count, 1),
                events: if n.populated_count == 0 { true } else { n.events },
                ..n
            });
            assert(self.nodes() =~= old(self).nodes().update(id as int, self.at(id as int)));
        }
        let parent = self.nodes[id].parent;
        assert(id > 0 ==> (parent matches Some(p) && p < id));
        match parent {
            Some(p) => {
                self.propagate_add_populated(p);
            },
            None => {},
        }
    }

    /// Counts one process fewer in `id` and its ancestors, stopping at a
    /// count that is already 0; a count reaching 0 raises the event.
    pub fn propagate_sub_populated(&mut self, id: usize)
        requires
            old(self).wf(),
            old(self).valid(id as int),
        ensures
            final(self).wf(),
            final(self).nodes() == drop_up(old(self).nodes(), id as int),
        decreases id,
    {
        let count = self.nodes[id].populated_count;
        if count == 0 {
            return;
        }
        self.nodes[id].populated_count = count - 1;
        if count == 1 {
            self.nodes[id].events = true;
        }
        proof {
            old(self).lemma_same_shape(self);
            let n = old(self).at(id as int);
            assert(self.at(id as int) == CgroupNode {
                populated_count: (n.populated_count - 1) as usize,
                events: if n.populated_count == 1 { true } else { n.events },
                ..n
            });
            assert(self.nodes() =~= old(self).nodes().update(id as int, self.at(id as int)));
        }
        let parent = self.nodes[id].parent;
        assert(id > 0 ==> (parent matches Some(p) && p < id));
        match parent {
            Some(p) => {
                self.propagate_sub_populated(p);
            },
            None => {},
        }
    }

    /// A child of `id` is within the depth limits of `id` and of all its
    /// ancestors; `WouldBlock` when one of them refuses it.
    pub fn check_child_depth_allowed(&self, id: usize) -> (r: Result<(), CgroupError>)
        requires
            self.wf(),
            self.valid(id as int),
        ensures
            r is Ok <==> depth_admitted_up(self.nodes(), id as int, self.at(id as int).depth + 1),
            r is Err ==> r == Err::<(), CgroupError>(CgroupError::WouldBlock),
    {
        let len = self.nodes.len();
        assert(self.at(id as int).depth <= id);
        let child_depth = self.nodes[id].depth + 1;
        let mut cur = id;
        loop
            invariant
                self.wf(),
                self.valid(cur as int),
                len == self.nodes().len(),
                child_depth == self.at(id as int).depth + 1,
                depth_admitted_up(self.nodes(), id as int, child_depth as int) == depth_admitted_up(
                    self.nodes(),
                    cur as int,
                    child_depth as int,
                ),
            decreases cur,
        {
            if self.nodes[cur].check_descendant_depth_allowed(child_depth).is_err() {
                return Err(CgroupError::WouldBlock);
            }
            let parent = self.nodes[cur].parent;
            assert(cur > 0 ==> (parent matches Some(p) && p < cur));
            match parent {
                Some(p) => {
                    cur = p;
                },
                None => {
                    return Ok(());
                },
            }
        }
    }

    /// The largest distance from `id` down to one of its descendants.
    fn max_existing_descendant_distance(&self, id: usize) -> (d: usize)
        requires
            self.wf(),
            self.valid(id as int),
        ensures
            d == descent(self.nodes(), id as int, 0),
            d < self.nodes().len() - id,
        decreases self.nodes().len() - id,
    {
        let n = self.nodes[id].children.len();
        let len = self.nodes.len();
        let mut best: usize = 0;
        let mut i: usize = 0;
        while i < n
            invariant
                len == self.nodes().len(),
                self.wf(),
                self.valid(id as int),
                n == self.at(id as int).children@.len(),
                0 <= i <= n,
                best < self.nodes().len() - id,
                (if best > descent(self.nodes(), id as int, i as int) {
                    best as nat
                } else {
                    descent(self.nodes(), id as int, i as int)
                }) == descent(self.nodes(), id as int, 0),
            decreases n - i,
        {
            let c = self.nodes[id].children[i];
            assert(self.at(c as int).parent == Some(id));
            assert(c < self.nodes().len() && c > id);
            let here = 1 + self.max_existing_descendant_distance(c);
            if here > best {
                best = here;
            }
            i = i + 1;
        }
        best
    }

    /// Writes `cgroup.max.depth` of `id`: `max` or a number up to
    /// `i64::MAX`, else `InvalidInput`; a limit below the depth of an
    /// existing descendant is `ResourceBusy`.
    pub fn write_max_depth(&mut self, id: usize, data: &[u8]) -> (r: Result<usize, CgroupError>)
        requires
            old(self).wf(),
            old(self).valid(id as int),
        ensures
            final(self).wf(),
            match max_depth_request(data@) {
                Err(e) => r == Err::<usize, CgroupError>(e) && final(self).nodes() == old(self).nodes(),
                Ok(m) => if m >= 0 && descent(old(self).nodes(), id as int, 0) > m {
                    r == Err::<usize, CgroupError>(CgroupError::ResourceBusy) && final(self).nodes() == old(self).nodes()
                } else {
                    r == Ok::<usize, CgroupError>(data@.len() as usize) && final(self).nodes() == old(self).nodes().update(
                        id as int,
                        CgroupNode { max_depth: m, ..old(self).at(id as int) },
                    )
                },
            },
    {
        if !is_utf8(data) {
            return Err(CgroupError::InvalidInput);
        }
        let (lo, hi) = trim_bounds(data, 0, data.len());
        assert(data@.subrange(0, data@.len() as int) =~= data@);
        let max_depth: i64 = if bytes_are(data, lo, hi, "max") {
            -1
        } else {
            match parse_u64(data, lo, hi) {
                Some(v) => {
                    if v > i64::MAX as u64 {
                        return Err(CgroupError::InvalidInput);
                    }
                    v as i64
                },
                None => {
                    return Err(CgroupError::InvalidInput);
                },
            }
        };
        if max_depth >= 0 && self.max_existing_descendant_distance(id) as u64 > max_depth as u64 {
            return Err(CgroupError::ResourceBusy);
        }
        self.nodes[id].max_depth = max_depth;
        proof {
            old(self).lemma_same_shape(self);
        }
        Ok(data.len())
    }

    /// Writes `cgroup.subtree_control` of `id`.
    pub fn write_subtree_control(&mut self, id: usize, data: &[u8]) -> (r: Result<usize, CgroupError>)
        requires
            old(self).wf(),
            old(self).valid(id as int),
        ensures
            final(self).wf(),
            match subtree_write(old(self).at(id as int), data@) {
                Ok(bits) => r == Ok::<usize, CgroupError>(data@.len() as usize) && final(self).nodes() == old(self).nodes().update(
                    id as int,
                    CgroupNode { subtree_control: SubCtrlSet { bits }, ..old(self).at(id as int) },
                ),
                Err(e) => r == Err::<usize, CgroupError>(e) && final(self).nodes() == old(self).nodes(),
            },
    {
        let r = self.nodes[id].write_subtree_control(data);
        proof {
            old(self).lemma_same_shape(self);
            assert(self.nodes() =~= old(self).nodes().update(id as int, self.at(id as int)));
        }
        r
    }

    /// Reads a file of `id` at `offset`; `shown` says which of its processes
    /// `cgroup.procs` lists. Reading `cgroup.events` clears the event.
    pub fn read_attr_at(&mut self, id: usize, name: &str, offset: usize, buf: &mut [u8], shown: &[bool]) -> (r: Result<
        usize,
        CgroupError,
    >)
        requires
            old(self).wf(),
            old(self).valid(id as int),
            shown@.len() == old(self).at(id as int).procs().len(),
        ensures
            final(self).wf(),
            read_outcome(old(self).at(id as int).attr_text(name@, shown@), offset as nat, old(buf)@, final(buf)@, r),
            final(self).nodes() == (if name@ == "cgroup.events"@ {
                old(self).nodes().update(id as int, CgroupNode { events: false, ..old(self).at(id as int) })
            } else {
                old(self).nodes()
            }),
    {
        let r = self.nodes[id].read_attr_at(name, offset, buf, shown);
        proof {
            old(self).lemma_same_shape(self);
            assert(self.nodes() =~= old(self).nodes().update(id as int, self.at(id as int)));
        }
        r
    }

    /// Parses a write to `cgroup.procs`: the process to move here.
    pub fn write_procs(&self, data: &[u8]) -> (r: Result<Pid, CgroupError>)
        ensures
            r == procs_request(data@),
    {
        if !is_utf8(data) {
            return Err(CgroupError::InvalidInput);
        }
        let (lo, hi) = trim_bounds(data, 0, data.len());
        assert(data@.subrange(0, data@.len() as int) =~= data@);
        match parse_u32(data, lo, hi) {
            Some(pid) => Ok(pid),
            None => Err(CgroupError::InvalidInput),
        }
    }

    /// Writes a file of `id`: `cgroup.procs` asks for a process to be moved
    /// here, `cgroup.subtree_control` and `cgroup.max.depth` are applied, and
    /// any other name goes to the controllers, if it may be used here.
    pub fn write_attr(&mut self, id: usize, name: &str, data: &[u8]) -> (r: Result<AttrWrite, CgroupError>)
        requires
            old(self).wf(),
            old(self).valid(id as int),
        ensures
            final(self).wf(),
            if name@ == "cgroup.procs"@ {
                final(self).nodes() == old(self).nodes() && r == match procs_request(data@) {
                    Ok(pid) => Ok::<AttrWrite, CgroupError>(AttrWrite::Migrate(pid)),
                    Err(e) => Err(e),
                }
            } else if name@ == "cgroup.subtree_control"@ {
                match subtree_write(old(self).at(id as int), data@) {
                    Ok(bits) => r == Ok::<AttrWrite, CgroupError>(AttrWrite::Written(data@.len() as usize))
                        && final(self).nodes() == old(self).nodes().update(
                        id as int,
                        CgroupNode { subtree_control: SubCtrlSet { bits }, ..old(self).at(id as int) },
                    ),
                    Err(e) => r == Err::<AttrWrite, CgroupError>(e) && final(self).nodes() == old(self).nodes(),
                }
            } else if name@ == "cgroup.max.depth"@ {
                match max_depth_request(data@) {
                    Err(e) => r == Err::<AttrWrite, CgroupError>(e) && final(self).nodes() == old(self).nodes(),
                    Ok(m) => if m >= 0 && descent(old(self).nodes(), id as int, 0) > m {
                        r == Err::<AttrWrite, CgroupError>(CgroupError::ResourceBusy) && final(self).nodes() == old(
                            self,
                        ).nodes()
                    } else {
                        r == Ok::<AttrWrite, CgroupError>(AttrWrite::Written(data@.len() as usize)) && final(self).nodes()
                            == old(self).nodes().update(id as int, CgroupNode { max_depth: m, ..old(self).at(id as int) })
                    },
                }
            } else if !old(self).at(id as int).ctrl_attr_available(name@) {
                r == Err::<AttrWrite, CgroupError>(CgroupError::NotFound) && final(self).nodes() == old(self).nodes()
            } else {
                &&& final(self).nodes() == old(self).nodes().update(
                    id as int,
                    CgroupNode { controller: final(self).at(id as int).controller, ..old(self).at(id as int) },
                )
                &&& exists|w: Result<usize, CgroupError>|
                    #![trigger controller_write_outcome(old(self).at(id as int).controller, final(self).at(id as int).controller, name@, data@, w)]
                    controller_write_outcome(
                        old(self).at(id as int).controller,
                        final(self).at(id as int).controller,
                        name@,
                        data@,
                        w,
                    ) && r == match w {
                        Ok(n) => Ok::<AttrWrite, CgroupError>(AttrWrite::Written(n)),
                        Err(e) => Err(e),
                    }
            },
    {
        proof {
            reveal_strlit("cgroup.procs");
            reveal_strlit("cgroup.subtree_control");
            reveal_strlit("cgroup.max.depth");
            assert("cgroup.procs"@.len() == 12);
            assert("cgroup.subtree_control"@.len() == 22);
            assert("cgroup.max.depth"@.len() == 16);
        }
        if str_is(name, "cgroup.procs") {
            match self.write_procs(data) {
                Ok(pid) => Ok(AttrWrite::Migrate(pid)),
                Err(e) => Err(e),
            }
        } else if str_is(name, "cgroup.subtree_control") {
            match self.write_subtree_control(id, data) {
                Ok(n) => Ok(AttrWrite::Written(n)),
                Err(e) => Err(e),
            }
        } else if str_is(name, "cgroup.max.depth") {
            match self.write_max_depth(id, data) {
                Ok(n) => Ok(AttrWrite::Written(n)),
                Err(e) => Err(e),
            }
        } else {
            if !self.nodes[id].is_ctrl_attr_available(name) {
                return Err(CgroupError::NotFound);
            }
            let w = self.nodes[id].controller.write_attr(name, data);
            proof {
                old(self).lemma_same_shape(self);
                assert(self.nodes() =~= old(self).nodes().update(
                    id as int,
                    CgroupNode { controller: self.at(id as int).controller, ..old(self).at(id as int) },
                ));
            }
            match w {
                Ok(n) => Ok(AttrWrite::Written(n)),
                Err(e) => Err(e),
            }
        }
    }
}

impl CgroupSystem {
    /// The child of `id` whose name is spelled by `b[lo..hi]`.
    fn find_child_bytes(&self, id: usize, b: &[u8], lo: usize, hi: usize) -> (r: Option<usize>)
        requires
            self.wf(),
            self.valid(id as int),
            lo <= hi <= b@.len(),
        ensures
            match find_child_bytes_from(self.nodes(), self.child_ids(id as int), b@.subrange(lo as int, hi as int), 0) {
                Some(k) => r == Some(self.child_ids(id as int)[k]),
                None => r is None,
            },
    {
        let ids = &self.nodes[id].children;
        let ghost t = b@.subrange(lo as int, hi as int);
        let mut i: usize = 0;
        while i < ids.len()
            invariant
                self.wf(),
                self.valid(id as int),
                *ids == self.at(id as int).children,
                lo <= hi <= b@.len(),
                t == b@.subrange(lo as int, hi as int),
                0 <= i <= ids@.len(),
                find_child_bytes_from(self.nodes(), ids@, t, 0) == find_child_bytes_from(self.nodes(), ids@, t, i as int),
            decreases ids@.len() - i,
        {
            let c = ids[i];
            assert(c < self.nodes().len());
            if bytes_are(b, lo, hi, self.nodes[c].name.as_str()) {
                return Some(c);
            }
            i = i + 1;
        }
        None
    }

    /// The cgroup at `path`: `/` is the root; otherwise the components
    /// between slashes are followed down from the root, empty ones skipped;
    /// `NotFound` when a component names no child.
    pub fn find_by_path(&self, path: &str) -> (r: Result<usize, CgroupError>)
        requires
            self.wf(),
        ensures
            match lookup_path(self.nodes(), vstd::utf8::encode_utf8(path@)) {
                Some(id) => r == Ok::<usize, CgroupError>(id as usize) && self.valid(id),
                None => r == Err::<usize, CgroupError>(CgroupError::NotFound),
            },
    {
        proof {
            vstd::utf8::encode_utf8_decode_utf8(path@);
            vstd::utf8::encode_utf8_decode_utf8("/"@);
        }
        if str_is(path, "/") {
            return Ok(0);
        }
        let b = path.as_bytes();
        let len = b.len();
        let ghost ns = self.nodes();
        let mut cur: usize = 0;
        let mut lo: usize = 0;
        assert(b@.subrange(0, len as int) =~= b@);
        loop
            invariant
                self.wf(),
                ns == self.nodes(),
                self.valid(cur as int),
                len == b@.len(),
                lo <= len,
                b@ == vstd::utf8::encode_utf8(path@),
                b@ != vstd::utf8::encode_utf8("/"@),
                lookup_path(ns, b@) == walk(ns, cur as int, split_on(b@.subrange(lo as int, len as int), 47)),
            decreases len - lo,
        {
            let ghost t = b@.subrange(lo as int, len as int);
            proof {
                lemma_find_byte_bound(t, 47);
            }
            let (end, last) = match find_byte_in(b, lo, len, 47) {
                Some(k) => (k, false),
                None => (len, true),
            };
            let ghost first = b@.subrange(lo as int, end as int);
            let ghost rest = if last { Seq::<Seq<u8>>::empty() } else { split_on(b@.subrange(end + 1, len as int), 47) };
            proof {
                match find_byte(t, 47) {
                    Some(k) => {
                        assert(t.subrange(0, k) =~= first);
                        assert(t.subrange(k + 1, t.len() as int) =~= b@.subrange(end + 1, len as int));
                    },
                    None => {
                        assert(first =~= t);
                    },
                }
                assert(split_on(t, 47) == seq![first] + rest);
                assert((seq![first] + rest).drop_first() =~= rest);
                assert((seq![first] + rest)[0] == first);
            }
            if end > lo {
                match self.find_child_bytes(cur, b, lo, end) {
                    Some(c) => {
                        proof {
                            lemma_find_child_bytes_from(ns, ns[cur as int].children@, first, 0);
                        }
                        cur = c;
                    },
                    None => {
                        return Err(CgroupError::NotFound);
                    },
                }
            }
            assert(lookup_path(ns, b@) == walk(ns, cur as int, rest));
            if last {
                assert(walk(ns, cur as int, rest) == Some(cur as int));
                return Ok(cur);
            }
            lo = end + 1;
        }
    }
}

proof fn lemma_find_child_bytes_from(nodes: Seq<CgroupNode>, ids: Seq<usize>, b: Seq<u8>, i: int)
    requires
        0 <= i,
    ensures
        find_child_bytes_from(nodes, ids, b, i) matches Some(k) ==> i <= k < ids.len(),
    decreases ids.len() - i,
{
    if i < ids.len() {
        lemma_find_child_bytes_from(nodes, ids, b, i + 1);
    }
}

// ---------------------------------------------------------------------------
// Membership
// ---------------------------------------------------------------------------

/// The processes the `pids` controller of `id` counts, plus those of its
/// descendants through the children of `id` from position `k` on.
pub open spec fn subtree_procs(nodes: Seq<CgroupNode>, id: int, k: int) -> nat
    decreases nodes.len() - id, nodes[id].children@.len() - k,
{
    if !(0 <= id < nodes.len()) || k < 0 || k > nodes[id].children@.len() {
        0
    } else if k == nodes[id].children@.len() {
        match nodes[id].controller.spec_pids().spec_inner() {
            Some(p) => p.spec_current() as nat,
            None => 0,
        }
    } else {
        let c = nodes[id].children@[k] as int;
        let below: nat = if id < c < nodes.len() {
            subtree_procs(nodes, c, 0)
        } else {
            0
        };
        below + subtree_procs(nodes, id, k + 1)
    }
}

/// The token of the lock that serialises moves of processes between
/// cgroups; whoever holds it for writing may move processes.
pub struct CgroupMembership {
    _private: (),
}

impl CgroupMembership {
    /// The one token, guarded by the kernel's lock.
    pub fn new() -> (m: Self) {
        CgroupMembership { _private: () }
    }

    /// Superseded by the kernel's process migration: always `Unsupported`.
    pub fn move_process_to_node(&mut self, _pid: Pid, _new_cgroup: &Controller, _old_cgroup: &Controller) -> (r: Result<
        (),
        CgroupError,
    >)
        ensures
            r == Err::<(), CgroupError>(CgroupError::Unsupported),
    {
        Err(CgroupError::Unsupported)
    }

    /// Superseded by the kernel's process migration: always `Unsupported`.
    pub fn move_process_to_root(&mut self, _pid: Pid, _root_controller: &Controller, _current_controller: &Controller) -> (r:
        Result<(), CgroupError>)
        ensures
            r == Err::<(), CgroupError>(CgroupError::Unsupported),
    {
        Err(CgroupError::Unsupported)
    }

    /// The processes counted by the `pids` controllers of `id` and of all
    /// its descendants.
    pub fn count_subtree_processes(system: &CgroupSystem, id: usize) -> (n: usize)
        requires
            system.wf(),
            system.valid(id as int),
            subtree_procs(system.nodes(), id as int, 0) <= usize::MAX,
        ensures
            n == subtree_procs(system.nodes(), id as int, 0),
        decreases system.nodes().len() - id,
    {
        let ghost ns = system.nodes();
        let n = system.nodes[id].children.len();
        let mut total: usize = match system.nodes[id].controller.pids().inner() {
            Some(p) => p.current() as usize,
            None => 0,
        };
        let mut i: usize = n;
        proof {
            lemma_subtree_procs_split(ns, id as int, 0, n as int);
        }
        while i > 0
            invariant
                system.wf(),
                ns == system.nodes(),
                system.valid(id as int),
                n == ns[id as int].children@.len(),
                0 <= i <= n,
                subtree_procs(ns, id as int, 0) <= usize::MAX,
                subtree_procs(ns, id as int, 0) == subtree_procs(ns, id as int, i as int) + below_from(ns, id as int, 0, i as int),
                total == subtree_procs(ns, id as int, i as int),
            decreases i,
        {
            i = i - 1;
            let c = system.nodes[id].children[i];
            assert(ns[c as int].parent == Some(id));
            assert(c > id);
            proof {
                lemma_below_from_last(ns, id as int, 0, i as int);
            }
            let below = Self::count_subtree_processes(system, c);
            total = total + below;
        }
        total
    }
}

/// The sum of the subtree counts of the children of `id` at positions
/// `j..k`.
pub open spec fn below_from(nodes: Seq<CgroupNode>, id: int, j: int, k: int) -> nat
    decreases k - j,
{
    if !(0 <= id < nodes.len()) || j >= k || j < 0 || k > nodes[id].children@.len() {
        0
    } else {
        let c = nodes[id].children@[k - 1] as int;
        let last: nat = if id < c < nodes.len() {
            subtree_procs(nodes, c, 0)
        } else {
            0
        };
        below_from(nodes, id, j, k - 1) + last
    }
}

proof fn lemma_below_from_last(nodes: Seq<CgroupNode>, id: int, j: int, k: int)
    requires
        0 <= id < nodes.len(),
        0 <= j <= k < nodes[id].children@.len(),
    ensures
        below_from(nodes, id, j, k + 1) == below_from(nodes, id, j, k) + (if id < (nodes[id].children@[k] as int) < nodes.len() {
            subtree_procs(nodes, nodes[id].children@[k] as int, 0)
        } else {
            0
        }),
{
}

proof fn lemma_subtree_procs_split(nodes: Seq<CgroupNode>, id: int, j: int, k: int)
    requires
        0 <= id < nodes.len(),
        0 <= j <= k <= nodes[id].children@.len(),
    ensures
        subtree_procs(nodes, id, j) == below_from(nodes, id, j, k) + subtree_procs(nodes, id, k),
    decreases k - j,
{
    if j < k {
        lemma_subtree_procs_split(nodes, id, j + 1, k);
        lemma_below_first(nodes, id, j, k);
    }
}

proof fn lemma_below_first(nodes: Seq<CgroupNode>, id: int, j: int, k: int)
    requires
        0 <= id < nodes.len(),
        0 <= j < k <= nodes[id].children@.len(),
    ensures
        below_from(nodes, id, j, k) == (if id < (nodes[id].children@[j] as int) < nodes.len() {
            subtree_procs(nodes, nodes[id].children@[j] as int, 0)
        } else {
            0
        }) + below_from(nodes, id, j + 1, k),
    decreases k - j,
{
    if j + 1 < k {
        lemma_below_first(nodes, id, j, k - 1);
        assert(below_from(nodes, id, j + 1, k) == below_from(nodes, id, j + 1, k - 1) + (if id < (nodes[id].children@[k - 1] as int) < nodes.len() {
            subtree_procs(nodes, nodes[id].children@[k - 1] as int, 0)
        } else {
            0
        }));
    } else {
        assert(below_from(nodes, id, j, j) == 0);
        assert(below_from(nodes, id, j + 1, k) == 0);
    }
}

/// A cgroup of the hierarchy as the scheduler and accounting code see it.
pub trait CgroupSysNode {
    /// The cgroup's controllers.
    fn controller(&self) -> &Controller;

    /// The parent's index, `None` for the root.
    fn cgroup_parent(&self) -> Option<usize>;

    /// The depth in the tree.
    fn depth(&self) -> usize;

    /// Processes in the cgroup and its descendants.
    fn populated_count(&self) -> usize;
}

impl CgroupSysNode for CgroupNode {
    fn controller(&self) -> (c: &Controller)
        ensures
            *c == self.controller,
    {
        &self.controller
    }

    fn cgroup_parent(&self) -> (p: Option<usize>)
        ensures
            p == self.parent,
    {
        self.parent
    }

    fn depth(&self) -> (d: usize)
        ensures
            d == self.depth,
    {
        self.depth
    }

    fn populated_count(&self) -> (n: usize)
        ensures
            n == self.populated_count,
    {
        self.populated_count
    }
}

// ---------------------------------------------------------------------------
// Laws
// ---------------------------------------------------------------------------

proof fn lemma_insert_pos_from(nodes: Seq<CgroupNode>, ids: Seq<usize>, name: Seq<char>, i: int)
    requires
        0 <= i <= ids.len(),
    ensures
        i <= insert_pos_from(nodes, ids, name, i) <= ids.len(),
        forall|j: int| i <= j < insert_pos_from(nodes, ids, name, i) ==> str_lt(#[trigger] nodes[ids[j] as int].name@, name),
    decreases ids.len() - i,
{
    if i < ids.len() {
        lemma_insert_pos_from(nodes, ids, name, i + 1);
    }
}

proof fn lemma_find_first(nodes: Seq<CgroupNode>, ids: Seq<usize>, name: Seq<char>, i: int, pos: int)
    requires
        0 <= i <= pos < ids.len(),
        forall|j: int| i <= j < pos ==> #[trigger] nodes[ids[j] as int].name@ != name,
        nodes[ids[pos] as int].name@ == name,
    ensures
        find_child_from(nodes, ids, name, i) == Some(pos),
    decreases pos - i,
{
    if i < pos {
        lemma_find_first(nodes, ids, name, i + 1, pos);
    }
}

proof fn lemma_find_none(nodes: Seq<CgroupNode>, ids: Seq<usize>, name: Seq<char>, i: int)
    requires
        0 <= i,
        forall|j: int| i <= j < ids.len() ==> #[trigger] nodes[ids[j] as int].name@ != name,
    ensures
        find_child_from(nodes, ids, name, i) is None,
    decreases ids.len() - i,
{
    if i < ids.len() {
        lemma_find_none(nodes, ids, name, i + 1);
    }
}

/// A child just created under a cgroup is found there by its name.
pub proof fn added_child_is_found(before: CgroupSystem, after: CgroupSystem, id: usize, name: Seq<char>)
    requires
        before.wf(),
        before.valid(id as int),
        before.child_named(id as int, name) is None,
        before.nodes().len() < usize::MAX,
        child_added(before, after, id, name),
    ensures
        after.child_named(id as int, name) == Some(before.nodes().len() as usize),
{
    let c = before.nodes().len();
    let (bn, an) = (before.nodes(), after.nodes());
    let old_ids = before.child_ids(id as int);
    let pos = insert_pos_from(bn, old_ids, name, 0);
    lemma_insert_pos_from(bn, old_ids, name, 0);
    lemma_find_child_from(bn, old_ids, name, 0);
    let new_ids = after.child_ids(id as int);
    assert(new_ids == old_ids.insert(pos, c as usize));
    assert forall|j: int| 0 <= j < pos implies #[trigger] an[new_ids[j] as int].name@ != name by {
        assert(new_ids[j] == old_ids[j]);
        let x = old_ids[j] as int;
        assert(x < c && bn[x].parent == Some(id));
        assert(x != id as int);
        assert(after.at(x) == before.at(x));
    }
    assert(new_ids[pos] == c as usize);
    lemma_find_first(an, new_ids, name, 0, pos);
}

/// A child taken off a cgroup is no longer found there by its name.
pub proof fn removed_child_is_gone(before: CgroupSystem, after: CgroupSystem, id: usize, name: Seq<char>, k: int)
    requires
        before.wf(),
        before.valid(id as int),
        find_child_from(before.nodes(), before.child_ids(id as int), name, 0) == Some(k),
        after.nodes() == before.nodes().update(
            id as int,
            CgroupNode { children: after.at(id as int).children, ..before.at(id as int) },
        ),
        after.child_ids(id as int) == before.child_ids(id as int).remove(k),
    ensures
        after.child_named(id as int, name) is None,
{
    let (bn, an) = (before.nodes(), after.nodes());
    let old_ids = before.child_ids(id as int);
    let new_ids = after.child_ids(id as int);
    lemma_find_child_from(bn, old_ids, name, 0);
    let names = before.child_names_of(id as int);
    assert(strictly_sorted(names));
    assert forall|j: int| 0 <= j < new_ids.len() implies #[trigger] an[new_ids[j] as int].name@ != name by {
        let jj = if j < k { j } else { j + 1 };
        assert(new_ids[j] == old_ids[jj]);
        let x = old_ids[jj] as int;
        assert(bn[x].parent == Some(id));
        assert(x != id as int);
        assert(an[x] == bn[x]);
        assert(names[jj] == bn[x].name@);
        assert(names[k] == name);
        lemma_str_lt_order(names[jj], names[k], names[k]);
        if jj < k {
            assert(str_lt(names[jj], names[k]));
        } else {
            assert(str_lt(names[k], names[jj]));
        }
    }
    lemma_find_none(an, new_ids, name, 0);
}

proof fn lemma_without_absent(pids: Seq<Pid>, pid: Pid)
    requires
        !pids.contains(pid),
    ensures
        without(pids, pid) == pids,
    decreases pids.len(),
{
    if pids.len() > 0 {
        assert(!pids.drop_last().contains(pid)) by {
            if pids.drop_last().contains(pid) {
                let k = choose|k: int| 0 <= k < pids.drop_last().len() && pids.drop_last()[k] == pid;
                assert(pids[k] == pid);
            }
        }
        lemma_without_absent(pids.drop_last(), pid);
        assert(pids.last() != pid) by {
            assert(pids[pids.len() - 1] == pids.last());
        }
        assert(pids.drop_last().push(pids.last()) =~= pids);
    }
}

/// Removing a process just added to a cgroup that did not hold it gives
/// back the cgroup's process list as it was.
pub proof fn remove_undoes_add(procs: Seq<Pid>, pid: Pid)
    requires
        !procs.contains(pid),
    ensures
        without(procs.push(pid), pid) == procs,
{
    assert(procs.push(pid).drop_last() =~= procs);
    lemma_without_absent(procs, pid);
}

/// Adding a process a cgroup already holds changes nothing, so a cgroup's
/// process list never holds a process twice.
pub proof fn add_keeps_processes_distinct(procs: Seq<Pid>, pid: Pid)
    requires
        procs.no_duplicates(),
    ensures
        (if procs.contains(pid) {
            procs
        } else {
            procs.push(pid)
        }).no_duplicates(),
{
    if !procs.contains(pid) {
        let q = procs.push(pid);
        assert forall|i: int, j: int| 0 <= i < j < q.len() implies q[i] != q[j] by {
            if j == procs.len() {
                assert(q[i] == procs[i]);
            }
        }
    }
}

/// A successful write to `cgroup.subtree_control` only enables controllers
/// that were enabled before or that the cgroup may hand down.
pub proof fn subtree_write_enables_only_available(ws: Seq<Seq<u8>>, available: u8, cur: u8, bits: u8)
    requires
        subtree_words(ws, available, cur) == Some(bits),
    ensures
        bits & !(cur | available) == 0,
    decreases ws.len(),
{
    if ws.len() > 0 {
        let w = ws[0];
        let next = subtree_word(w, available, cur)->0;
        subtree_write_enables_only_available(ws.drop_first(), available, next, bits);
        if w.len() > 0 && w[0] == 43 {
            let t = ctrl_named(w.drop_first())->0;
            let tb = type_bit(t);
            assert(has(available, t));
            assert(available & tb == tb ==> ((bits & !(next | available) == 0 && next == cur | tb) ==> bits & !(cur | available) == 0)) by (bit_vector);
        } else {
            let t = ctrl_named(w.drop_first())->0;
            let tb = type_bit(t);
            assert((bits & !(next | available) == 0 && next == cur & !tb) ==> bits & !(cur | available) == 0) by (bit_vector);
        }
    } else {
        assert(cur & !(cur | available) == 0) by (bit_vector);
    }
}

/// A depth limit written to `cgroup.max.depth` reads back as written, and
/// so does `max`.
pub proof fn max_depth_reads_back(m: u64)
    requires
        m <= i64::MAX,
    ensures
        max_depth_request(crate::text::decimal(m as nat)) == Ok::<i64, CgroupError>(m as i64),
        max_depth_line(m as i64) == dec(m as nat) + "\n"@,
        max_depth_request(crate::text::max_word()) == Ok::<i64, CgroupError>(-1i64),
        max_depth_line(-1i64) == "max\n"@,
{
    crate::text::lemma_parse_decimal(m as nat);
    crate::text::lemma_parse_decimal_typed(m as nat);
    crate::text::lemma_max_word();
}

/// Every cgroup's parent comes before it.
pub open spec fn parents_before(nodes: Seq<CgroupNode>) -> bool {
    forall|i: int| 0 <= i < nodes.len() ==> ((#[trigger] nodes[i]).parent matches Some(p) ==> p < i)
}

proof fn lemma_bump_up_frame(nodes: Seq<CgroupNode>, id: int, j: int)
    requires
        id < j,
    ensures
        bump_up(nodes, id).len() == nodes.len(),
        0 <= j < nodes.len() ==> bump_up(nodes, id)[j] == nodes[j],
    decreases id,
{
    if 0 <= id < nodes.len() {
        let n = nodes[id];
        let ns = nodes.update(
            id,
            CgroupNode {
                populated_count: vstd::wrapping::usize_specs::wrapping_add(n.populated_count, 1),
                events: if n.populated_count == 0 { true } else { n.events },
                ..n
            },
        );
        if let Some(p) = n.parent {
            if p < id {
                lemma_bump_up_frame(ns, p as int, j);
            }
        }
    }
}

proof fn lemma_bump_up_update(nodes: Seq<CgroupNode>, id: int, j: int, v: CgroupNode)
    requires
        id < j < nodes.len(),
    ensures
        bump_up(nodes.update(j, v), id) == bump_up(nodes, id).update(j, v),
    decreases id,
{
    let m = nodes.update(j, v);
    if !(0 <= id < nodes.len()) {
    } else {
        let n = nodes[id];
        assert(m[id] == n);
        let n2 = CgroupNode {
            populated_count: vstd::wrapping::usize_specs::wrapping_add(n.populated_count, 1),
            events: if n.populated_count == 0 { true } else { n.events },
            ..n
        };
        let ns = nodes.update(id, n2);
        assert(m.update(id, n2) =~= ns.update(j, v));
        match n.parent {
            Some(p) => if p < id {
                lemma_bump_up_update(ns, p as int, j, v);
            } else {
            },
            None => {},
        }
    }
}

/// Counting a process into a cgroup and its ancestors and then counting it
/// out again leaves every populated count as it was (counts short of the
/// largest `usize`).
pub proof fn populated_add_then_sub_restores_counts(nodes: Seq<CgroupNode>, id: int)
    requires
        parents_before(nodes),
        0 <= id < nodes.len(),
        forall|i: int| 0 <= i < nodes.len() ==> (#[trigger] nodes[i]).populated_count < usize::MAX,
    ensures
        drop_up(bump_up(nodes, id), id).len() == nodes.len(),
        forall|i: int| 0 <= i < nodes.len() ==> #[trigger] drop_up(bump_up(nodes, id), id)[i].populated_count == nodes[i].populated_count,
    decreases id,
{
    let n = nodes[id];
    let n2 = CgroupNode {
        populated_count: vstd::wrapping::usize_specs::wrapping_add(n.populated_count, 1),
        events: if n.populated_count == 0 { true } else { n.events },
        ..n
    };
    assert(n2.populated_count == n.populated_count + 1);
    let ns1 = nodes.update(id, n2);
    let b = bump_up(nodes, id);
    let d = CgroupNode {
        populated_count: (n2.populated_count - 1) as usize,
        events: if n2.populated_count == 1 { true } else { n2.events },
        ..n2
    };
    match n.parent {
        None => {
            assert(b == ns1);
            assert(drop_up(b, id) == ns1.update(id, d));
        },
        Some(p) => {
            assert(p < id);
            assert(b == bump_up(ns1, p as int));
            lemma_bump_up_frame(ns1, p as int, id);
            assert(b[id] == n2);
            let nsd = nodes.update(id, d);
            assert(ns1.update(id, d) =~= nsd);
            lemma_bump_up_update(ns1, p as int, id, d);
            assert(b.update(id, d) == bump_up(nsd, p as int));
            assert(drop_up(b, id) == drop_up(bump_up(nsd, p as int), p as int));
            assert(parents_before(nsd)) by {
                assert forall|i: int| 0 <= i < nsd.len() implies ((#[trigger] nsd[i]).parent matches Some(q) ==> q < i) by {
                    assert(nodes[i].parent matches Some(q) ==> q < i);
                }
            }
            assert forall|i: int| 0 <= i < nsd.len() implies (#[trigger] nsd[i]).populated_count < usize::MAX by {
                assert(nodes[i].populated_count < usize::MAX);
            }
            populated_add_then_sub_restores_counts(nsd, p as int);
            assert forall|i: int| 0 <= i < nodes.len() implies #[trigger] drop_up(bump_up(nodes, id), id)[i].populated_count
                == nodes[i].populated_count by {
                assert(drop_up(bump_up(nsd, p as int), p as int)[i].populated_count == nsd[i].populated_count);
            }
        },
    }
}


// ---------------------------------------------------------------------------
// Hierarchical `pids` accounting
// ---------------------------------------------------------------------------

/// The `pids` state of `id` and of each of its ancestors, from `id` up to
/// the root.
pub open spec fn pids_chain(nodes: Seq<CgroupNode>, id: int) -> Seq<Option<PidsController>>
    decreases id,
{
    if !(0 <= id < nodes.len()) {
        Seq::empty()
    } else {
        let here = seq![nodes[id].controller.spec_pids().spec_inner()];
        match nodes[id].parent {
            Some(p) => if p < id {
                here + pids_chain(nodes, p as int)
            } else {
                here
            },
            None => here,
        }
    }
}

/// `a` is `id` or one of its ancestors.
pub open spec fn on_path(nodes: Seq<CgroupNode>, a: int, id: int) -> bool
    decreases id,
{
    0 <= id < nodes.len() && (a == id || (nodes[id].parent matches Some(p) && p < id && on_path(nodes, a, p as int)))
}

/// `after` differs from `before` only in the `pids` counters of `id` and
/// its ancestors.
pub open spec fn only_pids_on_path(before: Seq<CgroupNode>, after: Seq<CgroupNode>, id: int) -> bool {
    &&& after.len() == before.len()
    &&& forall|i: int|
        0 <= i < before.len() ==> {
            &&& #[trigger] after[i] == CgroupNode { controller: after[i].controller, ..before[i] }
            &&& after[i].controller.spec_active_bits() == before[i].controller.spec_active_bits()
            &&& after[i].controller.spec_cpuset() == before[i].controller.spec_cpuset()
            &&& after[i].controller.spec_cpu() == before[i].controller.spec_cpu()
            &&& after[i].controller.spec_pids().spec_parent() == before[i].controller.spec_pids().spec_parent()
            &&& !on_path(before, i, id) ==> after[i] == before[i]
        }
}

proof fn lemma_on_path_below(nodes: Seq<CgroupNode>, a: int, id: int)
    ensures
        on_path(nodes, a, id) ==> a <= id,
    decreases id,
{
    if 0 <= id < nodes.len() && a != id {
        if let Some(p) = nodes[id].parent {
            if p < id {
                lemma_on_path_below(nodes, a, p as int);
            }
        }
    }
}

proof fn lemma_on_path_frame(nodes: Seq<CgroupNode>, a: int, id: int, j: int, v: CgroupNode)
    requires
        id < j < nodes.len(),
    ensures
        on_path(nodes.update(j, v), a, id) == on_path(nodes, a, id),
    decreases id,
{
    if 0 <= id < nodes.len() && a != id {
        if let Some(p) = nodes[id].parent {
            if p < id {
                lemma_on_path_frame(nodes, a, p as int, j, v);
            }
        }
    }
}

proof fn lemma_pids_chain_frame(nodes: Seq<CgroupNode>, id: int, j: int, v: CgroupNode)
    requires
        id < j < nodes.len(),
    ensures
        pids_chain(nodes.update(j, v), id) == pids_chain(nodes, id),
    decreases id,
{
    let m = nodes.update(j, v);
    if 0 <= id < nodes.len() {
        assert(m[id] == nodes[id]);
        if let Some(p) = nodes[id].parent {
            if p < id {
                lemma_pids_chain_frame(nodes, p as int, j, v);
            }
        }
    }
}

impl CgroupSystem {
    /// Charges one task to `id` and to every ancestor, all or nothing: when
    /// some level is at its limit, the levels charged before it are
    /// uncharged again (keeping their raised high-water marks) and
    /// `WouldBlock` is returned.
    #[verifier::spinoff_prover]
    #[verifier::rlimit(40)]
    pub fn try_charge_pids(&mut self, id: usize) -> (r: Result<(), CgroupError>)
        requires
            old(self).wf(),
            old(self).valid(id as int),
            charge_reachable_fits(pids_chain(old(self).nodes(), id as int)),
        ensures
            final(self).wf(),
            only_pids_on_path(old(self).nodes(), final(self).nodes(), id as int),
            try_charge_outcome(pids_chain(old(self).nodes(), id as int), pids_chain(final(self).nodes(), id as int), r),
        decreases id,
    {
        let ghost ns = self.nodes();
        let ghost b = pids_chain(ns, id as int);
        let parent = self.nodes[id].parent;
        assert(id > 0 ==> (parent matches Some(p) && p < id));
        proof {
            lemma_first_blocked_step(b);
            lemma_first_blocked_bound(b.drop_first());
            assert(b[0] == ns[id as int].controller.spec_pids().spec_inner());
            match ns[id as int].controller.spec_pids().spec_inner() {
                Some(p) => {
                    if can_charge(p) {
                        assert(0 < (match first_blocked(b) { Some(k) => k, None => b.len() as int }));
                    }
                },
                None => {},
            }
        }
        let local = self.nodes[id].controller.try_charge_pids_local();
        proof {
            old(self).lemma_same_shape(self);
        }
        if local.is_err() {
            proof {
                assert(first_blocked(b) == Some(0int));
                assert(self.nodes() =~= ns);
            }
            return local;
        }
        let ghost n1 = self.nodes();
        proof {
            assert(n1 =~= ns.update(id as int, n1[id as int]));
        }
        let up = match parent {
            Some(p) => {
                proof {
                    lemma_pids_chain_frame(ns, p as int, id as int, n1[id as int]);
                    let tail = pids_chain(ns, p as int);
                    assert(b.drop_first() =~= tail);
                    lemma_first_blocked_bound(tail);
                    assert forall|i: int| 0 <= i < (match first_blocked(tail) { Some(k) => k, None => tail.len() as int }) implies (
                    #[trigger] tail[i] matches Some(q) ==> charge_fits(q)) by {
                        assert(tail[i] == b[i + 1]);
                    }
                }
                self.try_charge_pids(p)
            },
            None => Ok(()),
        };
        let ghost n2 = self.nodes();
        if up.is_err() {
            self.nodes[id].controller.uncharge_pids_local();
        }
        proof {
            let nf = self.nodes();
            old(self).lemma_same_shape(self);
            let a = pids_chain(nf, id as int);
            match parent {
                None => {
                    assert(id == 0);
                    assert(n2 == n1);
                    assert(nf == n1);
                    assert(b =~= seq![ns[0].controller.spec_pids().spec_inner()]);
                    assert(a =~= seq![nf[0].controller.spec_pids().spec_inner()]);
                    assert(first_blocked(b.drop_first()) is None);
                    assert forall|i: int| 0 <= i < ns.len() && !on_path(ns, i, id as int) implies #[trigger] nf[i] == ns[i] by {
                        if i != id {
                            assert(nf[i] == n1[i]);
                        }
                    }
                },
                Some(p) => {
                    let pi = p as int;
                    lemma_pids_chain_frame(ns, pi, id as int, n1[id as int]);
                    assert(only_pids_on_path(n1, n2, pi));
                    lemma_on_path_below(n1, id as int, pi);
                    assert(!on_path(n1, id as int, pi));
                    assert(n2[id as int] == n1[id as int]);
                    let tail = pids_chain(ns, pi);
                    assert(b =~= seq![b[0]] + tail);
                    assert(nf[id as int].parent == Some(p));
                    lemma_pids_chain_frame(n2, pi, id as int, nf[id as int]);
                    if up.is_err() {
                        assert(nf =~= n2.update(id as int, nf[id as int]));
                    } else {
                        assert(nf == n2);
                    }
                    assert(pids_chain(nf, pi) == pids_chain(n2, pi));
                    assert(a =~= seq![a[0]] + pids_chain(n2, pi));
                    assert(a[0] == nf[id as int].controller.spec_pids().spec_inner());
                    assert forall|i: int| 0 <= i < ns.len() && !on_path(ns, i, id as int) implies #[trigger] nf[i] == ns[i] by {
                        {
                            assert(i != id);
                            lemma_on_path_frame(ns, i, pi, id as int, n1[id as int]);
                            assert(!on_path(n1, i, pi));
                            assert(n2[i] == n1[i]);
                            assert(nf[i] == n2[i]);
                            assert(n1[i] == ns[i]);
                        }
                    }
                    assert forall|i: int| 1 <= i < b.len() implies #[trigger] b[i] == tail[i - 1] && a[i] == pids_chain(n2, pi)[i - 1] by {}
                },
            }
        }
        up
    }
}


impl CgroupSystem {
    /// Takes one task off `id` and off every ancestor (a task leaving the
    /// cgroup); counts already at zero stay at zero.
    pub fn uncharge_pids(&mut self, id: usize)
        requires
            old(self).wf(),
            old(self).valid(id as int),
        ensures
            final(self).wf(),
            only_pids_on_path(old(self).nodes(), final(self).nodes(), id as int),
            pids_chain(final(self).nodes(), id as int).len() == pids_chain(old(self).nodes(), id as int).len(),
            forall|i: int| 0 <= i < pids_chain(old(self).nodes(), id as int).len() ==> level_is(
                #[trigger] pids_chain(old(self).nodes(), id as int)[i],
                pids_chain(final(self).nodes(), id as int)[i],
                |x, y| uncharged(x, y),
            ),
        decreases id,
    {
        let ghost ns = self.nodes();
        let ghost b = pids_chain(ns, id as int);
        let parent = self.nodes[id].parent;
        assert(id > 0 ==> (parent matches Some(p) && p < id));
        self.nodes[id].controller.uncharge_pids_local();
        proof {
            old(self).lemma_same_shape(self);
        }
        let ghost n1 = self.nodes();
        proof {
            assert(n1 =~= ns.update(id as int, n1[id as int]));
        }
        match parent {
            Some(p) => {
                proof {
                    lemma_pids_chain_frame(ns, p as int, id as int, n1[id as int]);
                }
                self.uncharge_pids(p);
            },
            None => {},
        }
        proof {
            let nf = self.nodes();
            old(self).lemma_same_shape(self);
            let a = pids_chain(nf, id as int);
            assert(b[0] == ns[id as int].controller.spec_pids().spec_inner());
            match parent {
                None => {
                    assert(nf == n1);
                    assert(b =~= seq![ns[id as int].controller.spec_pids().spec_inner()]);
                    assert(a =~= seq![nf[id as int].controller.spec_pids().spec_inner()]);
                    assert forall|i: int| 0 <= i < ns.len() && !on_path(ns, i, id as int) implies #[trigger] nf[i] == ns[i] by {
                        assert(i != id);
                    }
                },
                Some(p) => {
                    let pi = p as int;
                    lemma_pids_chain_frame(ns, pi, id as int, n1[id as int]);
                    lemma_on_path_below(n1, id as int, pi);
                    assert(!on_path(n1, id as int, pi));
                    assert(nf[id as int] == n1[id as int]);
                    let tail = pids_chain(ns, pi);
                    assert(b =~= seq![b[0]] + tail);
                    assert(a =~= seq![a[0]] + pids_chain(nf, pi));
                    assert forall|i: int| 0 <= i < ns.len() && !on_path(ns, i, id as int) implies #[trigger] nf[i] == ns[i] by {
                        assert(i != id);
                        lemma_on_path_frame(ns, i, pi, id as int, n1[id as int]);
                        assert(!on_path(n1, i, pi));
                        assert(nf[i] == n1[i]);
                        assert(n1[i] == ns[i]);
                    }
                    assert forall|i: int| 1 <= i < b.len() implies #[trigger] b[i] == tail[i - 1] && a[i] == pids_chain(nf, pi)[i - 1] by {}
                },
            }
        }
    }
}

proof fn lemma_descent_from(s: CgroupSystem, id: usize, k: int)
    requires
        s.wf(),
        s.valid(id as int),
        0 <= k,
    ensures
        forall|j: int| k <= j < s.at(id as int).children@.len() ==> descent(s.nodes(), id as int, k) >= 1 + descent(
            s.nodes(),
            #[trigger] s.at(id as int).children@[j] as int,
            0,
        ),
        k >= s.at(id as int).children@.len() ==> descent(s.nodes(), id as int, k) == 0,
        k < s.at(id as int).children@.len() ==> exists|j: int|
            k <= j < s.at(id as int).children@.len() && descent(s.nodes(), id as int, k) == 1 + descent(
                s.nodes(),
                #[trigger] s.at(id as int).children@[j] as int,
                0,
            ),
    decreases s.at(id as int).children@.len() - k,
{
    let ns = s.nodes();
    let cs = s.at(id as int).children@;
    if k < cs.len() {
        let c = cs[k] as int;
        assert(c < ns.len() && ns[c].parent == Some(id as usize));
        assert(c != 0);
        assert(ns[c].parent matches Some(p) && p < c);
        assert(id < c);
        lemma_descent_from(s, id, k + 1);
        if k + 1 < cs.len() {
            let j = choose|j: int| k + 1 <= j < cs.len() && descent(ns, id as int, k + 1) == 1 + descent(ns, #[trigger] cs[j] as int, 0);
            assert(k + 1 <= j < cs.len());
        }
    }
}

/// How far `cgroup.max.depth` looks down from a cgroup is the length of
/// its longest downward path: one more than that of each of its children,
/// reached through one of them, and nothing for a cgroup without children.
pub proof fn descent_is_longest_path_down(s: CgroupSystem, id: usize)
    requires
        s.wf(),
        s.valid(id as int),
    ensures
        forall|j: int| 0 <= j < s.at(id as int).children@.len() ==> descent(s.nodes(), id as int, 0) >= 1 + descent(
            s.nodes(),
            #[trigger] s.at(id as int).children@[j] as int,
            0,
        ),
        s.at(id as int).children@.len() == 0 ==> descent(s.nodes(), id as int, 0) == 0,
        s.at(id as int).children@.len() > 0 ==> exists|j: int|
            0 <= j < s.at(id as int).children@.len() && descent(s.nodes(), id as int, 0) == 1 + descent(
                s.nodes(),
                #[trigger] s.at(id as int).children@[j] as int,
                0,
            ),
{
    lemma_descent_from(s, id, 0);
}

/// Each controller's name, as a `cgroup.subtree_control` word spells it,
/// names that same controller: `cpuset`, `cpu` and `pids`.
pub proof fn controller_names_name_their_controller(t: SubCtrlType)
    ensures
        ctrl_named(vstd::utf8::encode_utf8(ctrl_name(t))) == Some(t),
        ctrl_named(seq![99u8, 112u8, 117u8, 115u8, 101u8, 116u8]) == Some(SubCtrlType::CpuSet),
        ctrl_named(seq![99u8, 112u8, 117u8]) == Some(SubCtrlType::Cpu),
        ctrl_named(seq![112u8, 105u8, 100u8, 115u8]) == Some(SubCtrlType::Pids),
{
    let cpuset = seq![99u8, 112u8, 117u8, 115u8, 101u8, 116u8];
    let cpu = seq![99u8, 112u8, 117u8];
    let pids = seq![112u8, 105u8, 100u8, 115u8];
    reveal_strlit("cpuset");
    reveal_strlit("cpu");
    reveal_strlit("pids");
    assert(crate::text::is_ascii_bytes(cpuset));
    assert(crate::text::is_ascii_bytes(cpu));
    assert(crate::text::is_ascii_bytes(pids));
    crate::text::lemma_ascii_utf8(cpuset);
    crate::text::lemma_ascii_utf8(cpu);
    crate::text::lemma_ascii_utf8(pids);
    assert(crate::text::ascii_chars(cpuset) =~= "cpuset"@);
    assert(crate::text::ascii_chars(cpu) =~= "cpu"@);
    assert(crate::text::ascii_chars(pids) =~= "pids"@);
    assert(vstd::utf8::encode_utf8(ctrl_name(SubCtrlType::CpuSet)) == cpuset);
    assert(vstd::utf8::encode_utf8(ctrl_name(SubCtrlType::Cpu)) == cpu);
    assert(vstd::utf8::encode_utf8(ctrl_name(SubCtrlType::Pids)) == pids);
    assert(cpu != cpuset);
    assert(pids != cpuset);
    assert(pids != cpu);
}

} // verus!
