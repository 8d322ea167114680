//! The cgroup v2 controller framework: controller identities and sets, the
//! registry of controllers and their attributes, per-controller wrappers
//! that link a controller to its parent's, and the composite controller each
//! cgroup owns.

use vstd::prelude::*;
use vstd::std_specs::ops::BitOrSpecImpl;
use vstd::std_specs::ops::NotSpecImpl;
use vstd::string::StringExecFns;

use crate::cgroup::{read_outcome, CgroupError};
use crate::text::str_is;

use self::cpu::{cpu_attr_text, cpu_write_outcome, BandwidthState, CpuController};
use self::cpuset::{cpuset_attr_text, CpuSetController};
use self::pids::{
    can_charge, charge_fits, charged, pids_attr_text, pids_write_outcome, uncharged, PidsController, PIDS_MAX_UNLIMITED,
};

pub mod cpu;
pub mod cpuset;
pub mod pids;

verus! {

// ---------------------------------------------------------------------------
// Controller identities
// ---------------------------------------------------------------------------

/// Identifies one registered cgroup v2 controller. Each has a distinct bit
/// in a [`SubCtrlSet`].
#[derive(Debug, Clone, Copy, PartialEq, Eq, Hash, Structural)]
pub enum SubCtrlType {
    /// `cpuset`: CPU and memory node affinity (read-only here).
    CpuSet,
    /// `cpu`: CPU bandwidth controller.
    Cpu,
    /// `pids`: process count limiting.
    Pids,
}

/// The bit of a controller: 1 for `cpuset`, 2 for `cpu`, 8 for `pids`.
pub open spec fn type_bit(t: SubCtrlType) -> u8 {
    match t {
        SubCtrlType::CpuSet => 1,
        SubCtrlType::Cpu => 2,
        SubCtrlType::Pids => 8,
    }
}

/// The name of a controller.
pub open spec fn ctrl_name(t: SubCtrlType) -> Seq<char> {
    match t {
        SubCtrlType::CpuSet => "cpuset"@,
        SubCtrlType::Cpu => "cpu"@,
        SubCtrlType::Pids => "pids"@,
    }
}

/// Every bit that names a controller.
pub open spec fn known_bits() -> u8 {
    11
}

impl SubCtrlType {
    /// The controller's bit value.
    pub fn as_u8(self) -> (b: u8)
        ensures
            b == type_bit(self),
    {
        match self {
            SubCtrlType::CpuSet => 1,
            SubCtrlType::Cpu => 2,
            SubCtrlType::Pids => 8,
        }
    }

    /// The set holding just this controller.
    pub fn to_set(self) -> (s: SubCtrlSet)
        ensures
            s.bits == type_bit(self),
    {
        SubCtrlSet { bits: self.as_u8() }
    }

    /// Whether this controller has cgroup v2 domain semantics: `cpuset` and
    /// `cpu` do, `pids` does not.
    pub fn is_domain(self) -> (d: bool)
        ensures
            d == (self is CpuSet || self is Cpu),
    {
        match self {
            SubCtrlType::CpuSet => true,
            SubCtrlType::Cpu => true,
            SubCtrlType::Pids => false,
        }
    }
}

// ---------------------------------------------------------------------------
// Controller sets
// ---------------------------------------------------------------------------

/// Bit-set of controllers; bit `type_bit(t)` stands for controller `t`.
#[derive(Debug, Clone, Copy, PartialEq, Eq, Hash, Structural)]
pub struct SubCtrlSet {
    pub bits: u8,
}

/// Whether the set with bits `b` holds controller `t`.
pub open spec fn has(b: u8, t: SubCtrlType) -> bool {
    b & type_bit(t) == type_bit(t)
}

/// The controllers of a set in registry order: `cpuset`, `cpu`, `pids`.
pub open spec fn members(b: u8) -> Seq<SubCtrlType> {
    let s0 = if has(b, SubCtrlType::CpuSet) { seq![SubCtrlType::CpuSet] } else { Seq::empty() };
    let s1 = if has(b, SubCtrlType::Cpu) { s0.push(SubCtrlType::Cpu) } else { s0 };
    if has(b, SubCtrlType::Pids) { s1.push(SubCtrlType::Pids) } else { s1 }
}

/// The names of a set's controllers, in registry order, separated by spaces.
pub open spec fn names_of(b: u8) -> Seq<char> {
    crate::text::join(members(b).map_values(|t: SubCtrlType| ctrl_name(t)), " "@)
}

impl SubCtrlSet {
    pub fn empty() -> (s: Self)
        ensures
            s.bits == 0,
    {
        SubCtrlSet { bits: 0 }
    }

    pub fn cpuset() -> (s: Self)
        ensures
            s.bits == 1,
    {
        SubCtrlSet { bits: 1 }
    }

    pub fn cpu() -> (s: Self)
        ensures
            s.bits == 2,
    {
        SubCtrlSet { bits: 2 }
    }

    pub fn pids() -> (s: Self)
        ensures
            s.bits == 8,
    {
        SubCtrlSet { bits: 8 }
    }

    /// Every known controller.
    pub fn all() -> (s: Self)
        ensures
            s.bits == known_bits(),
    {
        SubCtrlSet { bits: 11 }
    }

    pub fn bits(self) -> (b: u8)
        ensures
            b == self.bits,
    {
        self.bits
    }

    /// The set of the known bits of `b`; unknown bits are dropped.
    pub fn from_bits_truncate(b: u8) -> (s: Self)
        ensures
            s.bits == b & known_bits(),
    {
        SubCtrlSet { bits: b & 11 }
    }

    pub fn is_empty(self) -> (e: bool)
        ensures
            e == (self.bits == 0),
    {
        self.bits == 0
    }

    /// Every bit of `other` is in `self`.
    pub fn contains(self, other: Self) -> (r: bool)
        ensures
            r == (self.bits & other.bits == other.bits),
    {
        self.bits & other.bits == other.bits
    }

    /// `self` and `other` share a bit.
    pub fn intersects(self, other: Self) -> (r: bool)
        ensures
            r == (self.bits & other.bits != 0),
    {
        self.bits & other.bits != 0
    }

    pub fn insert(&mut self, other: Self)
        ensures
            final(self).bits == old(self).bits | other.bits,
    {
        self.bits = self.bits | other.bits;
    }

    pub fn remove(&mut self, other: Self)
        ensures
            final(self).bits == old(self).bits & !other.bits,
    {
        self.bits = self.bits & !other.bits;
    }

    /// The known controllers that are not in the set (what `!` gives).
    pub fn complement(self) -> (s: Self)
        ensures
            s.bits == !self.bits & known_bits(),
    {
        SubCtrlSet { bits: !self.bits & 11 }
    }

    /// Every controller of the registry.
    pub fn all_controllers() -> (s: Self)
        ensures
            s.bits == known_bits(),
    {
        let mut set = SubCtrlSet::empty();
        let descs = controller_descriptors();
        let mut i: usize = 0;
        assert(descriptor_table()[0] == SubCtrlType::CpuSet);
        assert(descriptor_table()[1] == SubCtrlType::Cpu);
        assert(descriptor_table()[2] == SubCtrlType::Pids);
        while i < descs.len()
            invariant
                descriptor_table()[0] == SubCtrlType::CpuSet,
                descriptor_table()[1] == SubCtrlType::Cpu,
                descriptor_table()[2] == SubCtrlType::Pids,
                descriptor_table().len() == 3,
                descs@.map_values(|d: ControllerDescriptor| d.ty) == descriptor_table(),
                0 <= i <= descs@.len(),
                set.bits == (if i == 0 { 0u8 } else if i == 1 { 1u8 } else if i == 2 { 3u8 } else { 11u8 }),
            decreases descs@.len() - i,
        {
            assert(descs@.map_values(|d: ControllerDescriptor| d.ty)[i as int] == descs@[i as int].ty);
            let b = descs[i].ty.to_set();
            let ghost before = set.bits;
            set.insert(b);
            proof {
                if i == 0 {
                    assert(0u8 | 1u8 == 1u8) by (bit_vector);
                } else if i == 1 {
                    assert(1u8 | 2u8 == 3u8) by (bit_vector);
                } else {
                    assert(3u8 | 8u8 == 11u8) by (bit_vector);
                }
            }
            i = i + 1;
        }
        set
    }

    /// The controllers that make a non-root cgroup a domain distributor.
    pub fn domain_controllers() -> (s: Self)
        ensures
            s.bits == 3,
    {
        let mut set = SubCtrlSet::empty();
        let descs = controller_descriptors();
        let mut i: usize = 0;
        assert(descriptor_table()[0] == SubCtrlType::CpuSet);
        assert(descriptor_table()[1] == SubCtrlType::Cpu);
        assert(descriptor_table()[2] == SubCtrlType::Pids);
        while i < descs.len()
            invariant
                descriptor_table()[0] == SubCtrlType::CpuSet,
                descriptor_table()[1] == SubCtrlType::Cpu,
                descriptor_table()[2] == SubCtrlType::Pids,
                descriptor_table().len() == 3,
                descs@.map_values(|d: ControllerDescriptor| d.ty) == descriptor_table(),
                0 <= i <= descs@.len(),
                set.bits == (if i == 0 { 0u8 } else if i == 1 { 1u8 } else { 3u8 }),
            decreases descs@.len() - i,
        {
            assert(descs@.map_values(|d: ControllerDescriptor| d.ty)[i as int] == descs@[i as int].ty);
            if descs[i].ty.is_domain() {
                set.insert(descs[i].ty.to_set());
                proof {
                    if i == 0 {
                        assert(0u8 | 1u8 == 1u8) by (bit_vector);
                    } else {
                        assert(1u8 | 2u8 == 3u8) by (bit_vector);
                    }
                }
            }
            i = i + 1;
        }
        set
    }

    /// The set holds `cpuset` or `cpu`.
    pub fn contains_domain_controller(self) -> (r: bool)
        ensures
            r == (self.bits & 3 != 0),
    {
        self.intersects(SubCtrlSet::domain_controllers())
    }

    /// The names of the set's controllers in registry order, separated by
    /// single spaces.
    pub fn names_text(self) -> (s: String)
        ensures
            s@ == names_of(self.bits),
    {
        let mut s = String::new();
        let mut first = true;
        let ghost mut done: Seq<SubCtrlType> = Seq::empty();
        if self.bits & 1 == 1 {
            s.append("cpuset");
            first = false;
            proof { done = done.push(SubCtrlType::CpuSet); }
        }
        proof {
            assert(done =~= (if has(self.bits, SubCtrlType::CpuSet) { seq![SubCtrlType::CpuSet] } else { Seq::empty() }));
            assert(s@ =~= crate::text::join(done.map_values(|t: SubCtrlType| ctrl_name(t)), " "@));
        }
        if self.bits & 2 == 2 {
            if !first {
                s.append(" ");
            }
            s.append("cpu");
            first = false;
            proof {
                crate::text::lemma_join_push(done.map_values(|t: SubCtrlType| ctrl_name(t)), "cpu"@, " "@);
                assert(done.push(SubCtrlType::Cpu).map_values(|t: SubCtrlType| ctrl_name(t)) =~= done.map_values(|t: SubCtrlType| ctrl_name(t)).push("cpu"@));
                done = done.push(SubCtrlType::Cpu);
            }
        }
        if self.bits & 8 == 8 {
            if !first {
                s.append(" ");
            }
            s.append("pids");
            proof {
                crate::text::lemma_join_push(done.map_values(|t: SubCtrlType| ctrl_name(t)), "pids"@, " "@);
                assert(done.push(SubCtrlType::Pids).map_values(|t: SubCtrlType| ctrl_name(t)) =~= done.map_values(|t: SubCtrlType| ctrl_name(t)).push("pids"@));
                done = done.push(SubCtrlType::Pids);
            }
        }
        proof {
            assert(done =~= members(self.bits));
        }
        s
    }
}

impl core::ops::BitOr for SubCtrlSet {
    type Output = SubCtrlSet;

    fn bitor(self, rhs: SubCtrlSet) -> (r: SubCtrlSet) {
        SubCtrlSet { bits: self.bits | rhs.bits }
    }
}

impl BitOrSpecImpl for SubCtrlSet {
    open spec fn obeys_bitor_spec() -> bool {
        true
    }

    open spec fn bitor_req(self, rhs: SubCtrlSet) -> bool {
        true
    }

    open spec fn bitor_spec(self, rhs: SubCtrlSet) -> SubCtrlSet {
        SubCtrlSet { bits: self.bits | rhs.bits }
    }
}

impl core::ops::Not for SubCtrlSet {
    type Output = SubCtrlSet;

    /// The known controllers that are not in the set.
    fn not(self) -> (r: SubCtrlSet) {
        self.complement()
    }
}

impl NotSpecImpl for SubCtrlSet {
    open spec fn obeys_not_spec() -> bool {
        true
    }

    open spec fn not_req(self) -> bool {
        true
    }

    open spec fn not_spec(self) -> SubCtrlSet {
        SubCtrlSet { bits: !self.bits & 11 }
    }
}

/// A controller set with load, store and read-modify-write access; a
/// loaded value keeps only the known controller bits.
#[derive(Debug)]
pub struct AtomicSubCtrlSet {
    bits: u8,
}

impl AtomicSubCtrlSet {
    /// The raw bits held.
    pub closed spec fn spec_bits(&self) -> u8 {
        self.bits
    }

    pub fn empty() -> (s: Self)
        ensures
            s.spec_bits() == 0,
    {
        AtomicSubCtrlSet { bits: 0 }
    }

    pub fn from(val: SubCtrlSet) -> (s: Self)
        ensures
            s.spec_bits() == val.bits,
    {
        AtomicSubCtrlSet { bits: val.bits }
    }

    pub fn load(&self) -> (v: SubCtrlSet)
        ensures
            v.bits == self.spec_bits() & known_bits(),
    {
        SubCtrlSet::from_bits_truncate(self.bits)
    }

    pub fn store(&mut self, val: SubCtrlSet)
        ensures
            final(self).spec_bits() == val.bits,
    {
        self.bits = val.bits;
    }

    /// Sets the bits of `val` and returns the previous set.
    pub fn fetch_or(&mut self, val: SubCtrlSet) -> (prev: SubCtrlSet)
        ensures
            prev.bits == old(self).spec_bits() & known_bits(),
            final(self).spec_bits() == old(self).spec_bits() | val.bits,
    {
        let prev = SubCtrlSet::from_bits_truncate(self.bits);
        self.bits = self.bits | val.bits;
        prev
    }

    /// Keeps only the bits of `val` and returns the previous set.
    pub fn fetch_and(&mut self, val: SubCtrlSet) -> (prev: SubCtrlSet)
        ensures
            prev.bits == old(self).spec_bits() & known_bits(),
            final(self).spec_bits() == old(self).spec_bits() & val.bits,
    {
        let prev = SubCtrlSet::from_bits_truncate(self.bits);
        self.bits = self.bits & val.bits;
        prev
    }
}


// ---------------------------------------------------------------------------
// Sub-controller chains
// ---------------------------------------------------------------------------

/// A controller's state together with the sub-controller of the parent
/// cgroup, for hierarchy-aware operations such as `pids` charging. A
/// sub-controller may hold no state (`inner` is `None`).
pub struct SubController<T> {
    inner: Option<T>,
    parent: Option<Box<SubController<T>>>,
}

impl<T> SubController<T> {
    pub closed spec fn spec_inner(&self) -> Option<T> {
        self.inner
    }

    pub closed spec fn spec_parent(&self) -> Option<SubController<T>> {
        match self.parent {
            Some(b) => Some(*b),
            None => None,
        }
    }

    /// The states from this sub-controller up to the root, this one first.
    pub closed spec fn chain(&self) -> Seq<Option<T>>
        decreases self,
    {
        match self.parent {
            Some(b) => seq![self.inner] + b.chain(),
            None => seq![self.inner],
        }
    }

    pub proof fn lemma_chain(&self)
        ensures
            self.chain() == match self.spec_parent() {
                Some(p) => seq![self.spec_inner()] + p.chain(),
                None => seq![self.spec_inner()],
            },
            self.chain().len() >= 1,
    {
    }

    /// A sub-controller over `inner`, linked to `parent`.
    pub fn new(inner: Option<T>, parent: Option<Box<SubController<T>>>) -> (s: Self)
        ensures
            s.spec_inner() == inner,
            s.spec_parent() == match parent {
                Some(b) => Some(*b),
                None => None::<SubController<T>>,
            },
    {
        SubController { inner, parent }
    }

    /// The state, if present.
    pub fn inner(&self) -> (r: Option<&T>)
        ensures
            r == match self.spec_inner() {
                Some(t) => Some(&t),
                None => None::<&T>,
            },
    {
        match &self.inner {
            Some(t) => Some(t),
            None => None,
        }
    }

    /// The parent's sub-controller, if linked.
    pub fn parent(&self) -> (r: Option<&SubController<T>>)
        ensures
            r == match self.spec_parent() {
                Some(p) => Some(&p),
                None => None::<&SubController<T>>,
            },
    {
        match &self.parent {
            Some(b) => Some(&**b),
            None => None,
        }
    }
}

impl<T: Copy> SubController<T> {
    /// A copy of the whole chain.
    pub fn duplicate(&self) -> (r: Self)
        ensures
            r == *self,
        decreases self,
    {
        let parent = match &self.parent {
            Some(b) => Some(Box::new(b.duplicate())),
            None => None,
        };
        SubController { inner: self.inner, parent }
    }
}

// ---------------------------------------------------------------------------
// The registry of controllers and attributes
// ---------------------------------------------------------------------------

/// Static metadata for a controller attribute.
#[derive(Debug, Clone, Copy)]
pub struct AttrDescriptor {
    pub name: &'static str,
    pub read_only: bool,
}

/// Static metadata for a cgroup controller.
#[derive(Debug, Clone, Copy)]
pub struct ControllerDescriptor {
    pub ty: SubCtrlType,
    pub name: &'static str,
}

/// The registered controllers, in order.
pub open spec fn descriptor_table() -> Seq<SubCtrlType> {
    seq![SubCtrlType::CpuSet, SubCtrlType::Cpu, SubCtrlType::Pids]
}

/// The attributes of a controller: names with whether they are read-only.
pub open spec fn attr_table(t: SubCtrlType) -> Seq<(Seq<char>, bool)> {
    match t {
        SubCtrlType::CpuSet => seq![
            ("cpuset.cpus"@, true),
            ("cpuset.cpus.effective"@, true),
            ("cpuset.mems"@, true),
            ("cpuset.mems.effective"@, true),
        ],
        SubCtrlType::Cpu => seq![("cpu.stat"@, true), ("cpu.weight"@, false), ("cpu.max"@, false)],
        SubCtrlType::Pids => seq![("pids.max"@, false), ("pids.current"@, true), ("pids.peak"@, true)],
    }
}

/// The first index in `table` whose name is `name`, if any.
pub open spec fn find_attr(table: Seq<(Seq<char>, bool)>, name: Seq<char>) -> Option<int>
    decreases table.len(),
{
    if table.len() == 0 {
        None
    } else if table[0].0 == name {
        Some(0)
    } else {
        match find_attr(table.drop_first(), name) {
            Some(i) => Some(i + 1),
            None => None,
        }
    }
}

/// The owner and read-only flag of an attribute, looked up controller by
/// controller in registry order.
pub open spec fn spec_attr_descriptor(name: Seq<char>) -> Option<(SubCtrlType, bool)> {
    let c = attr_table(SubCtrlType::CpuSet);
    let u = attr_table(SubCtrlType::Cpu);
    let p = attr_table(SubCtrlType::Pids);
    if find_attr(c, name) is Some {
        Some((SubCtrlType::CpuSet, c[find_attr(c, name)->0].1))
    } else if find_attr(u, name) is Some {
        Some((SubCtrlType::Cpu, u[find_attr(u, name)->0].1))
    } else if find_attr(p, name) is Some {
        Some((SubCtrlType::Pids, p[find_attr(p, name)->0].1))
    } else {
        None
    }
}

/// The owner of an attribute, if any controller has it.
pub open spec fn spec_attr_owner(name: Seq<char>) -> Option<SubCtrlType> {
    match spec_attr_descriptor(name) {
        Some(d) => Some(d.0),
        None => None,
    }
}

/// The controller called `name`, if any.
pub open spec fn spec_controller_by_name(name: Seq<char>) -> Option<SubCtrlType> {
    if name == ctrl_name(SubCtrlType::CpuSet) {
        Some(SubCtrlType::CpuSet)
    } else if name == ctrl_name(SubCtrlType::Cpu) {
        Some(SubCtrlType::Cpu)
    } else if name == ctrl_name(SubCtrlType::Pids) {
        Some(SubCtrlType::Pids)
    } else {
        None
    }
}

fn descriptor(t: SubCtrlType) -> (d: ControllerDescriptor)
    ensures
        d.ty == t,
        d.name@ == ctrl_name(t),
{
    match t {
        SubCtrlType::CpuSet => ControllerDescriptor { ty: t, name: "cpuset" },
        SubCtrlType::Cpu => ControllerDescriptor { ty: t, name: "cpu" },
        SubCtrlType::Pids => ControllerDescriptor { ty: t, name: "pids" },
    }
}

/// The registered controllers: `cpuset`, `cpu`, `pids`.
pub fn controller_descriptors() -> (v: Vec<ControllerDescriptor>)
    ensures
        v@.map_values(|d: ControllerDescriptor| d.ty) == descriptor_table(),
        forall|i: int| 0 <= i < v@.len() ==> (#[trigger] v@[i]).name@ == ctrl_name(v@[i].ty),
{
    let mut v = Vec::new();
    v.push(descriptor(SubCtrlType::CpuSet));
    v.push(descriptor(SubCtrlType::Cpu));
    v.push(descriptor(SubCtrlType::Pids));
    assert(v@.map_values(|d: ControllerDescriptor| d.ty) =~= descriptor_table());
    v
}

/// The attributes of controller `t`, in registry order.
pub fn controller_attrs(t: SubCtrlType) -> (v: Vec<AttrDescriptor>)
    ensures
        v@.map_values(|a: AttrDescriptor| (a.name@, a.read_only)) == attr_table(t),
{
    let mut v = Vec::new();
    match t {
        SubCtrlType::CpuSet => {
            v.push(AttrDescriptor { name: "cpuset.cpus", read_only: true });
            v.push(AttrDescriptor { name: "cpuset.cpus.effective", read_only: true });
            v.push(AttrDescriptor { name: "cpuset.mems", read_only: true });
            v.push(AttrDescriptor { name: "cpuset.mems.effective", read_only: true });
        },
        SubCtrlType::Cpu => {
            v.push(AttrDescriptor { name: "cpu.stat", read_only: true });
            v.push(AttrDescriptor { name: "cpu.weight", read_only: false });
            v.push(AttrDescriptor { name: "cpu.max", read_only: false });
        },
        SubCtrlType::Pids => {
            v.push(AttrDescriptor { name: "pids.max", read_only: false });
            v.push(AttrDescriptor { name: "pids.current", read_only: true });
            v.push(AttrDescriptor { name: "pids.peak", read_only: true });
        },
    }
    assert(v@.map_values(|a: AttrDescriptor| (a.name@, a.read_only)) =~= attr_table(t));
    v
}

/// The controller called `name`.
pub fn controller_by_name(name: &str) -> (r: Option<ControllerDescriptor>)
    ensures
        match spec_controller_by_name(name@) {
            Some(t) => r matches Some(d) && d.ty == t && d.name@ == ctrl_name(t),
            None => r is None,
        },
{
    let descs = controller_descriptors();
    assert(descs@.len() == descs@.map_values(|d: ControllerDescriptor| d.ty).len());
    assert(descriptor_table()[0] == SubCtrlType::CpuSet);
    assert(descriptor_table()[1] == SubCtrlType::Cpu);
    assert(descriptor_table()[2] == SubCtrlType::Pids);
    let mut i: usize = 0;
    while i < descs.len()
        invariant
            descriptor_table()[0] == SubCtrlType::CpuSet,
            descriptor_table()[1] == SubCtrlType::Cpu,
            descriptor_table()[2] == SubCtrlType::Pids,
            descs@.map_values(|d: ControllerDescriptor| d.ty) == descriptor_table(),
            descs@.len() == 3,
            forall|j: int| 0 <= j < descs@.len() ==> (#[trigger] descs@[j]).name@ == ctrl_name(descs@[j].ty),
            0 <= i <= descs@.len(),
            forall|j: int| 0 <= j < i ==> name@ != ctrl_name(#[trigger] descriptor_table()[j]),
        decreases descs@.len() - i,
    {
        assert(descs@.map_values(|d: ControllerDescriptor| d.ty)[i as int] == descs@[i as int].ty);
        if str_is(name, descs[i].name) {
            return Some(descs[i]);
        }
        i = i + 1;
    }
    assert(name@ != ctrl_name(descriptor_table()[0]));
    assert(name@ != ctrl_name(descriptor_table()[1]));
    assert(name@ != ctrl_name(descriptor_table()[2]));
    None
}

/// Finds `name` among the attributes of `t`, with its position.
fn find_in_attrs(t: SubCtrlType, name: &str) -> (r: Option<AttrDescriptor>)
    ensures
        match find_attr(attr_table(t), name@) {
            Some(k) => r matches Some(a) && a.name@ == name@ && a.read_only == attr_table(t)[k].1,
            None => r is None,
        },
{
    let attrs = controller_attrs(t);
    let ghost table = attr_table(t);
    assert(table.skip(0) =~= table);
    let mut i: usize = 0;
    while i < attrs.len()
        invariant
            attrs@.map_values(|a: AttrDescriptor| (a.name@, a.read_only)) == table,
            table == attr_table(t),
            0 <= i <= attrs@.len(),
            find_attr(table, name@) == (match find_attr(table.skip(i as int), name@) {
                Some(k) => Some(k + i),
                None => None::<int>,
            }),
        decreases attrs@.len() - i,
    {
        assert(table.skip(i as int)[0] == table[i as int]);
        assert(table[i as int] == (attrs@[i as int].name@, attrs@[i as int].read_only));
        if str_is(name, attrs[i].name) {
            return Some(attrs[i]);
        }
        assert(table.skip(i as int).drop_first() =~= table.skip(i + 1));
        i = i + 1;
    }
    assert(table.skip(i as int).len() == 0);
    None
}

/// The controller owning attribute `name`, and the attribute's metadata.
pub fn attr_descriptor(name: &str) -> (r: Option<(ControllerDescriptor, AttrDescriptor)>)
    ensures
        match spec_attr_descriptor(name@) {
            Some(d) => r matches Some(p) && p.0.ty == d.0 && p.0.name@ == ctrl_name(d.0)
                && p.1.name@ == name@ && p.1.read_only == d.1,
            None => r is None,
        },
{
    match find_in_attrs(SubCtrlType::CpuSet, name) {
        Some(a) => { return Some((descriptor(SubCtrlType::CpuSet), a)); },
        None => {},
    }
    match find_in_attrs(SubCtrlType::Cpu, name) {
        Some(a) => { return Some((descriptor(SubCtrlType::Cpu), a)); },
        None => {},
    }
    match find_in_attrs(SubCtrlType::Pids, name) {
        Some(a) => Some((descriptor(SubCtrlType::Pids), a)),
        None => None,
    }
}


// ---------------------------------------------------------------------------
// The composite controller of a cgroup
// ---------------------------------------------------------------------------

/// The controllers of one cgroup, with the set of those currently active.
pub struct Controller {
    active_set: AtomicSubCtrlSet,
    cpuset: SubController<CpuSetController>,
    cpu: SubController<CpuController>,
    pids: SubController<PidsController>,
}

/// Every attribute name of the registry, controller by controller in order.
pub open spec fn all_attr_names() -> Seq<Seq<char>> {
    attr_table(SubCtrlType::CpuSet).map_values(|a: (Seq<char>, bool)| a.0) + attr_table(
        SubCtrlType::Cpu,
    ).map_values(|a: (Seq<char>, bool)| a.0) + attr_table(SubCtrlType::Pids).map_values(
        |a: (Seq<char>, bool)| a.0,
    )
}

/// The text of any controller attribute of `c`, if the registry has the
/// name and the owning controller holds state.
pub open spec fn controller_attr_text(c: Controller, name: Seq<char>) -> Option<Seq<char>> {
    match spec_attr_owner(name) {
        None => None,
        Some(SubCtrlType::CpuSet) => match c.spec_cpuset().spec_inner() {
            Some(x) => cpuset_attr_text(x, name),
            None => None,
        },
        Some(SubCtrlType::Cpu) => match c.spec_cpu().spec_inner() {
            Some(x) => cpu_attr_text(x, name),
            None => None,
        },
        Some(SubCtrlType::Pids) => match c.spec_pids().spec_inner() {
            Some(x) => pids_attr_text(x, name),
            None => None,
        },
    }
}

/// What a write of `data` to attribute `name` does to controllers `c`,
/// leaving `d` and returning `r`: the owning controller handles it (a
/// `cpuset` attribute is read-only) and everything else stays.
pub open spec fn controller_write_outcome(
    c: Controller,
    d: Controller,
    name: Seq<char>,
    data: Seq<u8>,
    r: Result<usize, CgroupError>,
) -> bool {
    &&& d.spec_active_bits() == c.spec_active_bits()
    &&& d.spec_cpuset() == c.spec_cpuset()
    &&& d.spec_cpu().spec_parent() == c.spec_cpu().spec_parent()
    &&& d.spec_pids().spec_parent() == c.spec_pids().spec_parent()
    &&& match spec_attr_owner(name) {
        None => r == Err::<usize, CgroupError>(CgroupError::NotFound) && d.spec_cpu() == c.spec_cpu() && d.spec_pids()
            == c.spec_pids(),
        Some(SubCtrlType::CpuSet) => d.spec_cpu() == c.spec_cpu() && d.spec_pids() == c.spec_pids() && match c.spec_cpuset().spec_inner() {
            Some(x) => r == Err::<usize, CgroupError>(CgroupError::PermissionDenied),
            None => r == Err::<usize, CgroupError>(CgroupError::NotFound),
        },
        Some(SubCtrlType::Cpu) => d.spec_pids() == c.spec_pids() && match c.spec_cpu().spec_inner() {
            Some(x) => d.spec_cpu().spec_inner() matches Some(y) && cpu_write_outcome(x, y, name, data, r),
            None => d.spec_cpu() == c.spec_cpu() && r == Err::<usize, CgroupError>(CgroupError::NotFound),
        },
        Some(SubCtrlType::Pids) => d.spec_cpu() == c.spec_cpu() && match c.spec_pids().spec_inner() {
            Some(x) => d.spec_pids().spec_inner() matches Some(y) && pids_write_outcome(x, y, name, data, r),
            None => d.spec_pids() == c.spec_pids() && r == Err::<usize, CgroupError>(CgroupError::NotFound),
        },
    }
}

/// A `pids` controller as a new cgroup gets it.
pub open spec fn fresh_pids(p: PidsController) -> bool {
    p.spec_max_raw() == PIDS_MAX_UNLIMITED && p.spec_current() == 0 && p.spec_peak() == 0
}

/// A `cpu` controller as a new cgroup gets it.
pub open spec fn fresh_cpu(c: CpuController) -> bool {
    c.weight == 100 && c.bandwidth == BandwidthState::new_spec()
}

/// A `cpuset` controller as a new cgroup gets it.
pub open spec fn fresh_cpuset(c: CpuSetController) -> bool {
    c.spec_cpus_mask() == 1 && c.spec_mems_mask() == 1
}

impl Controller {
    pub closed spec fn spec_active_bits(&self) -> u8 {
        self.active_set.spec_bits()
    }

    pub closed spec fn spec_cpuset(&self) -> SubController<CpuSetController> {
        self.cpuset
    }

    pub closed spec fn spec_cpu(&self) -> SubController<CpuController> {
        self.cpu
    }

    pub closed spec fn spec_pids(&self) -> SubController<PidsController> {
        self.pids
    }

    /// A root controller (no parent) or a child one: every controller
    /// starts fresh and is linked to the parent's, and the child inherits
    /// the parent's active set.
    pub fn new(parent: Option<&Controller>) -> (c: Self)
        ensures
            c.spec_active_bits() == match parent {
                Some(p) => p.spec_active_bits() & known_bits(),
                None => 0u8,
            },
            c.spec_cpuset().spec_inner() matches Some(x) && fresh_cpuset(x),
            c.spec_cpu().spec_inner() matches Some(x) && fresh_cpu(x),
            c.spec_pids().spec_inner() matches Some(x) && fresh_pids(x),
            c.spec_cpuset().spec_parent() == match parent {
                Some(p) => Some(p.spec_cpuset()),
                None => None::<SubController<CpuSetController>>,
            },
            c.spec_cpu().spec_parent() == match parent {
                Some(p) => Some(p.spec_cpu()),
                None => None::<SubController<CpuController>>,
            },
            c.spec_pids().spec_parent() == match parent {
                Some(p) => Some(p.spec_pids()),
                None => None::<SubController<PidsController>>,
            },
    {
        let is_root = parent.is_none();
        let inherited = match parent {
            Some(p) => p.active_set.load(),
            None => SubCtrlSet::empty(),
        };
        let parent_cpuset = match parent {
            Some(p) => Some(Box::new(p.cpuset.duplicate())),
            None => None,
        };
        let parent_cpu = match parent {
            Some(p) => Some(Box::new(p.cpu.duplicate())),
            None => None,
        };
        let parent_pids = match parent {
            Some(p) => Some(Box::new(p.pids.duplicate())),
            None => None,
        };
        Controller {
            active_set: AtomicSubCtrlSet::from(inherited),
            cpuset: SubController::new(Some(CpuSetController::new(is_root, true)), parent_cpuset),
            cpu: SubController::new(Some(CpuController::new(is_root, true)), parent_cpu),
            pids: SubController::new(Some(PidsController::new(is_root, true)), parent_pids),
        }
    }

    /// The currently active controllers.
    pub fn active_set(&self) -> (s: SubCtrlSet)
        ensures
            s.bits == self.spec_active_bits() & known_bits(),
    {
        self.active_set.load()
    }

    /// Marks a controller active.
    pub fn activate(&mut self, ctrl_type: SubCtrlType)
        ensures
            final(self).spec_active_bits() == old(self).spec_active_bits() | type_bit(ctrl_type),
            final(self).spec_cpuset() == old(self).spec_cpuset(),
            final(self).spec_cpu() == old(self).spec_cpu(),
            final(self).spec_pids() == old(self).spec_pids(),
    {
        self.active_set.fetch_or(ctrl_type.to_set());
    }

    /// Marks a controller inactive.
    pub fn deactivate(&mut self, ctrl_type: SubCtrlType)
        ensures
            final(self).spec_active_bits() == old(self).spec_active_bits() & (!type_bit(ctrl_type) & known_bits()),
            final(self).spec_cpuset() == old(self).spec_cpuset(),
            final(self).spec_cpu() == old(self).spec_cpu(),
            final(self).spec_pids() == old(self).spec_pids(),
    {
        self.active_set.fetch_and(ctrl_type.to_set().complement());
    }

    /// No controller has an attribute called `name`.
    pub fn is_attr_absent(&self, name: &str) -> (r: bool)
        ensures
            r == (spec_attr_owner(name@) is None),
    {
        Self::attr_owner(name).is_none()
    }

    /// Reads any controller attribute, through the owning controller.
    pub fn read_attr_at(&self, name: &str, offset: usize, buf: &mut [u8]) -> (r: Result<usize, CgroupError>)
        ensures
            read_outcome(controller_attr_text(*self, name@), offset as nat, old(buf)@, final(buf)@, r),
    {
        match attr_descriptor(name) {
            None => Err(CgroupError::NotFound),
            Some((desc, _)) => match desc.ty {
                SubCtrlType::CpuSet => self.cpuset.read_attr_at(name, offset, buf),
                SubCtrlType::Cpu => self.cpu.read_attr_at(name, offset, buf),
                SubCtrlType::Pids => self.pids.read_attr_at(name, offset, buf),
            },
        }
    }

    /// Writes any controller attribute, through the owning controller; the
    /// other controllers and the active set are left as they were.
    pub fn write_attr(&mut self, name: &str, data: &[u8]) -> (r: Result<usize, CgroupError>)
        ensures
            controller_write_outcome(*old(self), *final(self), name@, data@, r),
    {
        match attr_descriptor(name) {
            None => Err(CgroupError::NotFound),
            Some((desc, _)) => match desc.ty {
                SubCtrlType::CpuSet => {
                    proof {
                        lemma_cpuset_owner_has_text(name@);
                    }
                    self.cpuset.write_attr(name, data)
                },
                SubCtrlType::Cpu => {
                    let r = self.cpu.write_attr(name, data);
                    proof {
                        if self.cpu.spec_inner() is None {
                            assert(self.cpu == old(self).cpu);
                        }
                    }
                    r
                },
                SubCtrlType::Pids => {
                    let r = self.pids.write_attr(name, data);
                    proof {
                        if self.pids.spec_inner() is None {
                            assert(self.pids == old(self).pids);
                        }
                    }
                    r
                },
            },
        }
    }

    /// Every attribute name of the registry, controller by controller.
    pub fn attr_names(&self) -> (v: Vec<String>)
        ensures
            v@.map_values(|s: String| s@) == all_attr_names(),
    {
        let mut v: Vec<String> = Vec::new();
        let descs = controller_descriptors();
        assert(descs@.len() == descs@.map_values(|d: ControllerDescriptor| d.ty).len());
        let mut i: usize = 0;
        while i < descs.len()
            invariant
                descs@.map_values(|d: ControllerDescriptor| d.ty) == descriptor_table(),
                descs@.len() == 3,
                0 <= i <= 3,
                v@.map_values(|s: String| s@) == (if i == 0 {
                    Seq::<Seq<char>>::empty()
                } else if i == 1 {
                    attr_table(SubCtrlType::CpuSet).map_values(|a: (Seq<char>, bool)| a.0)
                } else if i == 2 {
                    attr_table(SubCtrlType::CpuSet).map_values(|a: (Seq<char>, bool)| a.0) + attr_table(
                        SubCtrlType::Cpu,
                    ).map_values(|a: (Seq<char>, bool)| a.0)
                } else {
                    all_attr_names()
                }),
            decreases 3 - i,
        {
            assert(descs@.map_values(|d: ControllerDescriptor| d.ty)[i as int] == descs@[i as int].ty);
            let ty = descs[i].ty;
            let attrs = controller_attrs(ty);
            let ghost before = v@.map_values(|s: String| s@);
            let mut j: usize = 0;
            while j < attrs.len()
                invariant
                    attrs@.map_values(|a: AttrDescriptor| (a.name@, a.read_only)) == attr_table(ty),
                    0 <= j <= attrs@.len(),
                    v@.map_values(|s: String| s@) == before + attr_table(ty).take(j as int).map_values(|a: (Seq<char>, bool)| a.0),
                decreases attrs@.len() - j,
            {
                assert(attrs@.map_values(|a: AttrDescriptor| (a.name@, a.read_only))[j as int] == (attrs@[j as int].name@, attrs@[j as int].read_only));
                let ghost prev = v@;
                v.push(String::from_str(attrs[j].name));
                assert(v@.map_values(|s: String| s@) =~= prev.map_values(|s: String| s@).push(attrs@[j as int].name@));
                assert(attr_table(ty).take(j + 1).map_values(|a: (Seq<char>, bool)| a.0) =~= attr_table(ty).take(j as int).map_values(|a: (Seq<char>, bool)| a.0).push(attr_table(ty)[j as int].0));
                j = j + 1;
            }
            assert(attr_table(ty).take(attrs@.len() as int) =~= attr_table(ty));
            proof {
                assert(descriptor_table()[0] == SubCtrlType::CpuSet);
                assert(descriptor_table()[1] == SubCtrlType::Cpu);
                assert(descriptor_table()[2] == SubCtrlType::Pids);
                assert(attrs@.len() == attr_table(ty).len());
            }
            i = i + 1;
        }
        v
    }

    /// The controller that owns attribute `name`.
    pub fn attr_owner(name: &str) -> (r: Option<SubCtrlType>)
        ensures
            r == spec_attr_owner(name@),
    {
        match attr_descriptor(name) {
            Some((c, _)) => Some(c.ty),
            None => None,
        }
    }

    /// Whether attribute `name` is read-only, if it exists.
    pub fn attr_is_read_only(name: &str) -> (r: Option<bool>)
        ensures
            r == match spec_attr_descriptor(name@) {
                Some(d) => Some(d.1),
                None => None::<bool>,
            },
    {
        match attr_descriptor(name) {
            Some((_, a)) => Some(a.read_only),
            None => None,
        }
    }

    /// Charges one task to this cgroup's own `pids` counter if its limit
    /// allows it; without `pids` state there is nothing to charge.
    pub fn try_charge_pids_local(&mut self) -> (r: Result<(), CgroupError>)
        requires
            old(self).spec_pids().spec_inner() matches Some(p) ==> (can_charge(p) ==> charge_fits(p)),
        ensures
            final(self).spec_active_bits() == old(self).spec_active_bits(),
            final(self).spec_cpuset() == old(self).spec_cpuset(),
            final(self).spec_cpu() == old(self).spec_cpu(),
            final(self).spec_pids().spec_parent() == old(self).spec_pids().spec_parent(),
            r is Err ==> *final(self) == *old(self),
            match old(self).spec_pids().spec_inner() {
                None => r is Ok && final(self).spec_pids() == old(self).spec_pids(),
                Some(p) => if can_charge(p) {
                    r is Ok && (final(self).spec_pids().spec_inner() matches Some(q) && charged(p, q))
                } else {
                    r == Err::<(), CgroupError>(CgroupError::WouldBlock) && final(self).spec_pids() == old(self).spec_pids()
                },
            },
    {
        match &mut self.pids.inner {
            Some(p) => p.try_charge_local(),
            None => Ok(()),
        }
    }

    /// Takes one task off this cgroup's own `pids` counter.
    pub fn uncharge_pids_local(&mut self)
        ensures
            final(self).spec_active_bits() == old(self).spec_active_bits(),
            final(self).spec_cpuset() == old(self).spec_cpuset(),
            final(self).spec_cpu() == old(self).spec_cpu(),
            final(self).spec_pids().spec_parent() == old(self).spec_pids().spec_parent(),
            match old(self).spec_pids().spec_inner() {
                None => final(self).spec_pids() == old(self).spec_pids(),
                Some(p) => final(self).spec_pids().spec_inner() matches Some(q) && uncharged(p, q),
            },
    {
        match &mut self.pids.inner {
            Some(p) => p.uncharge_local(),
            None => {},
        }
    }

    /// The `pids` sub-controller.
    pub fn pids(&self) -> (r: &SubController<PidsController>)
        ensures
            *r == self.spec_pids(),
    {
        &self.pids
    }

    /// The `cpuset` sub-controller.
    pub fn cpuset(&self) -> (r: &SubController<CpuSetController>)
        ensures
            *r == self.spec_cpuset(),
    {
        &self.cpuset
    }

    /// The `cpu` sub-controller.
    pub fn cpu(&self) -> (r: &SubController<CpuController>)
        ensures
            *r == self.spec_cpu(),
    {
        &self.cpu
    }
}

proof fn lemma_cpuset_owner_has_text(name: Seq<char>)
    ensures
        spec_attr_owner(name) == Some(SubCtrlType::CpuSet) ==> forall|c: CpuSetController| #[trigger] cpuset_attr_text(c, name) is Some,
{
    if spec_attr_owner(name) == Some(SubCtrlType::CpuSet) {
        let t = attr_table(SubCtrlType::CpuSet);
        assert(find_attr(t, name) is Some);
        reveal_with_fuel(find_attr, 5);
    }
}

} // verus!
