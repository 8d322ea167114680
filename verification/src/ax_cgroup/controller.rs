//! Attribute conventions shared by the controllers: attribute metadata,
//! splitting `controller.attribute` names, and reading a rendered value at
//! an offset.

use vstd::prelude::*;
use vstd::string::StrSliceExecFns;

use crate::cgroup::cgroup_core::{find_name_from, sorted_pos_from, string_views};
use crate::cgroup::systree_node::{lemma_insert_sorted, strictly_sorted};
use crate::text::{copy_window, str_is, str_less, str_lt, window_read};

verus! {

/// Metadata of one attribute of a controller.
#[derive(Debug, Clone, Copy)]
pub struct AttrInfo {
    /// Attribute name without the controller prefix (`max`, not `pids.max`).
    pub name: &'static str,
    /// Whether the attribute is read-only.
    pub read_only: bool,
}

/// Why an attribute access was refused; each variant stands for the file
/// system error the access reports.
#[derive(Debug, Clone, Copy, PartialEq, Eq, Structural)]
pub enum AttrError {
    /// No such attribute.
    NotFound,
    /// The written text does not parse or is out of range.
    InvalidInput,
    /// The attribute is read-only.
    OperationNotPermitted,
}

/// What a read of an attribute at `offset` leaves and returns: `NotFound`
/// with the buffer untouched when there is no such attribute, else the
/// bytes of its text from `offset` on, as many as fit.
pub open spec fn attr_read_outcome(
    text: Option<Seq<char>>,
    offset: nat,
    before: Seq<u8>,
    after: Seq<u8>,
    r: Result<usize, AttrError>,
) -> bool {
    match text {
        None => r == Err::<usize, AttrError>(AttrError::NotFound) && after == before,
        Some(t) => r matches Ok(n) && window_read(vstd::utf8::encode_utf8(t), offset, before, after, n as nat),
    }
}

/// The position of the first `.` in `s`.
pub open spec fn first_dot(s: Seq<char>) -> Option<int>
    decreases s.len(),
{
    if s.len() == 0 {
        None
    } else if s[0] == '.' {
        Some(0)
    } else {
        match first_dot(s.drop_first()) {
            Some(k) => Some(k + 1),
            None => None,
        }
    }
}

proof fn lemma_first_dot(s: Seq<char>, i: int)
    requires
        0 <= i <= s.len(),
        forall|k: int| 0 <= k < i ==> s[k] != '.',
    ensures
        first_dot(s) == match first_dot(s.subrange(i, s.len() as int)) {
            Some(k) => Some(k + i),
            None => None::<int>,
        },
    decreases i,
{
    if i > 0 {
        lemma_first_dot(s.drop_first(), i - 1);
        assert(s.drop_first().subrange(i - 1, s.drop_first().len() as int) =~= s.subrange(i, s.len() as int));
    } else {
        assert(s.subrange(0, s.len() as int) =~= s);
    }
}

/// Where the first dot stands: a dot, with none before it.
proof fn lemma_first_dot_found(s: Seq<char>)
    ensures
        first_dot(s) matches Some(k) ==> 0 <= k < s.len() && s[k] == '.' && forall|j: int| 0 <= j < k ==> #[trigger] s[j] != '.',
        first_dot(s) is None ==> forall|j: int| 0 <= j < s.len() ==> #[trigger] s[j] != '.',
    decreases s.len(),
{
    if s.len() > 0 && s[0] != '.' {
        lemma_first_dot_found(s.drop_first());
        assert forall|j: int| 1 <= j < s.len() implies #[trigger] s[j] == s.drop_first()[j - 1] by {}
    }
}

/// An attribute name splits into a controller name without a dot and the
/// rest, which joined again by a dot give the name back; a name without a
/// dot names no controller attribute.
pub proof fn attr_name_split_rejoins(name: Seq<char>)
    ensures
        first_dot(name) matches Some(k) ==> {
            let ctrl = name.subrange(0, k);
            let attr = name.subrange(k + 1, name.len() as int);
            &&& ctrl + seq!['.'] + attr == name
            &&& forall|j: int| 0 <= j < ctrl.len() ==> #[trigger] ctrl[j] != '.'
        },
        first_dot(name) is None ==> forall|j: int| 0 <= j < name.len() ==> #[trigger] name[j] != '.',
{
    lemma_first_dot_found(name);
    if let Some(k) = first_dot(name) {
        assert(name.subrange(0, k) + seq!['.'] + name.subrange(k + 1, name.len() as int) =~= name);
    }
}

/// Splits an attribute name at its first `.` into controller and
/// attribute: `pids.max` gives (`pids`, `max`), `cpu.stat.periods` gives
/// (`cpu`, `stat.periods`); a name without a dot gives nothing.
pub fn parse_attr_name(name: &str) -> (r: Option<(&str, &str)>)
    ensures
        match first_dot(name@) {
            Some(k) => r matches Some(p) && p.0@ == name@.subrange(0, k) && p.1@ == name@.subrange(k + 1, name@.len() as int),
            None => r is None,
        },
{
    let n = name.unicode_len();
    let mut i: usize = 0;
    while i < n
        invariant
            n == name@.len(),
            i <= n,
            forall|k: int| 0 <= k < i ==> name@[k] != '.',
        decreases n - i,
    {
        if name.get_char(i) == '.' {
            proof {
                lemma_first_dot(name@, i as int);
            }
            let ctrl = name.substring_char(0, i);
            let attr = name.substring_char(i + 1, n);
            return Some((ctrl, attr));
        }
        i = i + 1;
    }
    proof {
        lemma_first_dot(name@, i as int);
    }
    None
}

/// Copies `value[offset..]` into `buf`, as much as fits; nothing past the end.
pub fn write_to_buf(value: &str, offset: usize, buf: &mut [u8]) -> (r: Result<usize, AttrError>)
    ensures
        r matches Ok(n) && window_read(vstd::utf8::encode_utf8(value@), offset as nat, old(buf)@, final(buf)@, n as nat),
{
    Ok(copy_window(value.as_bytes(), offset, buf))
}

// ---------------------------------------------------------------------------
// The factory registry
// ---------------------------------------------------------------------------

/// The controller factories, by controller name, sorted by name. The map
/// is a vector of names kept strictly sorted beside a vector of factories:
/// std's ordered map says nothing to the verifier about what it does with
/// `String` keys, so the order and the one-factory-per-name rule are kept
/// here as the invariant `wf`.
pub struct FactoryRegistry<F> {
    names: Vec<String>,
    factories: Vec<F>,
}

impl<F> FactoryRegistry<F> {
    /// The registered names, in sorted order.
    pub closed spec fn keys(&self) -> Seq<Seq<char>> {
        string_views(self.names@)
    }

    /// The factories, in the order of their names.
    pub closed spec fn values(&self) -> Seq<F> {
        self.factories@
    }

    /// One factory per name, names sorted without repeats.
    pub open spec fn wf(&self) -> bool {
        &&& self.keys().len() == self.values().len()
        &&& strictly_sorted(self.keys())
    }

    /// The factory registered under `name`.
    pub open spec fn lookup(&self, name: Seq<char>) -> Option<F> {
        match find_name_from(self.keys(), name, 0) {
            Some(k) => Some(self.values()[k]),
            None => None,
        }
    }

    proof fn lemma_find(&self, name: Seq<char>, i: int)
        requires
            0 <= i,
        ensures
            find_name_from(self.keys(), name, i) matches Some(k) ==> i <= k < self.keys().len() && self.keys()[k] == name,
            find_name_from(self.keys(), name, i) is None ==> forall|k: int| i <= k < self.keys().len() ==> #[trigger] self.keys()[k] != name,
        decreases self.keys().len() - i,
    {
        if i < self.keys().len() {
            self.lemma_find(name, i + 1);
        }
    }

    /// The position of `name` among the registered names.
    fn position(&self, name: &str) -> (r: Option<usize>)
        requires
            self.wf(),
        ensures
            match r {
                Some(k) => find_name_from(self.keys(), name@, 0) == Some(k as int),
                None => find_name_from(self.keys(), name@, 0) is None,
            },
    {
        let mut i: usize = 0;
        while i < self.names.len()
            invariant
                0 <= i <= self.names@.len(),
                find_name_from(self.keys(), name@, 0) == find_name_from(self.keys(), name@, i as int),
            decreases self.names@.len() - i,
        {
            assert(self.keys()[i as int] == self.names@[i as int]@);
            if str_is(self.names[i].as_str(), name) {
                return Some(i);
            }
            i = i + 1;
        }
        None
    }
}

/// What registering `factory` under `name` makes of `before`: a name
/// already there keeps its place and gets the new factory; a new name goes
/// in at its sorted place with its factory.
pub open spec fn register_outcome<F>(before: FactoryRegistry<F>, after: FactoryRegistry<F>, name: Seq<char>, factory: F) -> bool {
    match find_name_from(before.keys(), name, 0) {
        Some(k) => after.keys() == before.keys() && after.values() == before.values().update(k, factory),
        None => {
            let pos = sorted_pos_from(before.keys(), name, 0);
            &&& after.keys() == before.keys().insert(pos, name)
            &&& after.values() == before.values().insert(pos, factory)
        },
    }
}

/// An empty registry.
pub fn init_registry<F>() -> (r: FactoryRegistry<F>)
    ensures
        r.wf(),
        r.keys().len() == 0,
{
    let r = FactoryRegistry { names: Vec::new(), factories: Vec::new() };
    assert(r.keys() =~= Seq::<Seq<char>>::empty());
    r
}

/// Registers `factory` under `name` (the factory's own name), replacing the
/// one registered under it before, if any.
pub fn register_factory<F>(registry: &mut FactoryRegistry<F>, name: &str, factory: F)
    requires
        old(registry).wf(),
    ensures
        final(registry).wf(),
        register_outcome(*old(registry), *final(registry), name@, factory),
{
    proof {
        registry.lemma_find(name@, 0);
    }
    match registry.position(name) {
        Some(k) => {
            registry.factories.set(k, factory);
        },
        None => {
            let ghost keys = registry.keys();
            let mut pos: usize = 0;
            while pos < registry.names.len() && str_less(registry.names[pos].as_str(), name)
                invariant
                    keys == registry.keys(),
                    0 <= pos <= keys.len(),
                    sorted_pos_from(keys, name@, 0) == sorted_pos_from(keys, name@, pos as int),
                    forall|j: int| 0 <= j < pos ==> str_lt(#[trigger] keys[j], name@),
                decreases keys.len() - pos,
            {
                assert(keys[pos as int] == registry.names@[pos as int]@);
                pos = pos + 1;
            }
            proof {
                if pos < keys.len() {
                    assert(keys[pos as int] == registry.names@[pos as int]@);
                }
                lemma_insert_sorted(keys, name@, pos as int);
            }
            registry.names.insert(pos, String::from_str(name));
            registry.factories.insert(pos, factory);
            assert(registry.keys() =~= keys.insert(pos as int, name@));
        },
    }
}

/// The factory registered under `name`.
pub fn get_factory<'a, F>(registry: &'a FactoryRegistry<F>, name: &str) -> (r: Option<&'a F>)
    requires
        registry.wf(),
    ensures
        match registry.lookup(name@) {
            Some(f) => r matches Some(g) && *g == f,
            None => r is None,
        },
{
    proof {
        registry.lemma_find(name@, 0);
    }
    match registry.position(name) {
        Some(k) => Some(&registry.factories[k]),
        None => None,
    }
}

/// The names of all registered factories, in sorted order.
pub fn all_factory_names<F>(registry: &FactoryRegistry<F>) -> (v: Vec<String>)
    requires
        registry.wf(),
    ensures
        string_views(v@) == registry.keys(),
{
    let mut v: Vec<String> = Vec::new();
    let mut i: usize = 0;
    while i < registry.names.len()
        invariant
            0 <= i <= registry.names@.len(),
            string_views(v@) == registry.keys().take(i as int),
        decreases registry.names@.len() - i,
    {
        let ghost before = v@;
        v.push(registry.names[i].clone());
        assert(string_views(v@) =~= string_views(before).push(registry.names@[i as int]@));
        assert(registry.keys().take(i + 1) =~= registry.keys().take(i as int).push(registry.names@[i as int]@));
        i = i + 1;
    }
    assert(registry.keys().take(registry.names@.len() as int) =~= registry.keys());
    v
}

/// Registering a factory under `name` adds `name` to the registered names;
/// no other name joins or leaves.
pub proof fn registering_adds_the_name<F>(before: FactoryRegistry<F>, after: FactoryRegistry<F>, name: Seq<char>, factory: F)
    requires
        before.wf(),
        register_outcome(before, after, name, factory),
    ensures
        after.keys().to_set() == before.keys().to_set().insert(name),
{
    let ks = before.keys();
    before.lemma_find(name, 0);
    match find_name_from(ks, name, 0) {
        Some(k) => {
            assert(ks.to_set().contains(name)) by {
                assert(ks[k] == name);
            }
            assert(ks.to_set().insert(name) =~= ks.to_set());
        },
        None => {
            let pos = sorted_pos_from(ks, name, 0);
            lemma_sorted_pos_bound(ks, name, 0);
            let ns = ks.insert(pos, name);
            assert forall|x: Seq<char>| ns.to_set().contains(x) implies ks.to_set().insert(name).contains(x) by {
                let i = choose|i: int| 0 <= i < ns.len() && ns[i] == x;
                if i < pos {
                    assert(ks[i] == x);
                } else if i > pos {
                    assert(ks[i - 1] == x);
                }
            }
            assert forall|x: Seq<char>| ks.to_set().insert(name).contains(x) implies ns.to_set().contains(x) by {
                if x == name {
                    assert(ns[pos] == x);
                } else {
                    let i = choose|i: int| 0 <= i < ks.len() && ks[i] == x;
                    if i < pos {
                        assert(ns[i] == x);
                    } else {
                        assert(ns[i + 1] == x);
                    }
                }
            }
            assert(ns.to_set() =~= ks.to_set().insert(name));
        },
    }
}

proof fn lemma_registered_prefix<F>(regs: Seq<FactoryRegistry<F>>, names: Seq<Seq<char>>, factories: Seq<F>, j: int)
    requires
        regs.len() == names.len() + 1,
        factories.len() == names.len(),
        0 <= j <= names.len(),
        regs[0].keys().len() == 0,
        forall|i: int| 0 <= i < regs.len() ==> (#[trigger] regs[i]).wf(),
        forall|i: int| 0 <= i < names.len() ==> register_outcome(#[trigger] regs[i], regs[i + 1], names[i], factories[i]),
    ensures
        regs[j].keys().to_set() == names.take(j).to_set(),
    decreases j,
{
    if j == 0 {
        assert(regs[0].keys() =~= Seq::<Seq<char>>::empty());
        assert(names.take(0) =~= Seq::<Seq<char>>::empty());
        assert(regs[0].keys().to_set() =~= names.take(0).to_set());
    } else {
        lemma_registered_prefix(regs, names, factories, j - 1);
        let i = j - 1;
        assert(regs[i].wf());
        registering_adds_the_name(regs[i], regs[i + 1], names[i], factories[i]);
        assert(names.take(j) =~= names.take(i).push(names[i]));
        names.take(i).lemma_push_to_set_commute(names[i]);
    }
}

/// After registering factories under `names`, one after another, starting
/// from an empty registry, the registered names (which `all_factory_names`
/// lists) are exactly those names, sorted and without repeats.
pub proof fn registry_names_are_those_registered<F>(regs: Seq<FactoryRegistry<F>>, names: Seq<Seq<char>>, factories: Seq<F>)
    requires
        regs.len() == names.len() + 1,
        factories.len() == names.len(),
        regs[0].keys().len() == 0,
        forall|i: int| 0 <= i < regs.len() ==> (#[trigger] regs[i]).wf(),
        forall|i: int| 0 <= i < names.len() ==> register_outcome(#[trigger] regs[i], regs[i + 1], names[i], factories[i]),
    ensures
        strictly_sorted(regs.last().keys()),
        regs.last().keys().to_set() == names.to_set(),
{
    lemma_registered_prefix(regs, names, factories, names.len() as int);
    assert(names.take(names.len() as int) =~= names);
    assert(regs[regs.len() - 1].wf());
}

/// A factory just registered under a name is the one found under it.
pub proof fn registered_factory_is_found<F>(before: FactoryRegistry<F>, after: FactoryRegistry<F>, name: Seq<char>, factory: F)
    requires
        before.wf(),
        after.wf(),
        register_outcome(before, after, name, factory),
    ensures
        after.lookup(name) == Some(factory),
{
    before.lemma_find(name, 0);
    match find_name_from(before.keys(), name, 0) {
        Some(k) => {},
        None => {
            let pos = sorted_pos_from(before.keys(), name, 0);
            lemma_sorted_pos_bound(before.keys(), name, 0);
            lemma_find_name_first(after.keys(), name, 0, pos);
        },
    }
}

proof fn lemma_sorted_pos_bound(names: Seq<Seq<char>>, name: Seq<char>, i: int)
    requires
        0 <= i <= names.len(),
    ensures
        i <= sorted_pos_from(names, name, i) <= names.len(),
    decreases names.len() - i,
{
    if i < names.len() {
        lemma_sorted_pos_bound(names, name, i + 1);
    }
}

proof fn lemma_find_name_first(names: Seq<Seq<char>>, name: Seq<char>, i: int, pos: int)
    requires
        0 <= i <= pos < names.len(),
        forall|j: int| i <= j < pos ==> #[trigger] names[j] != name,
        names[pos] == name,
    ensures
        find_name_from(names, name, i) == Some(pos),
    decreases pos - i,
{
    if i < pos {
        lemma_find_name_first(names, name, i + 1, pos);
    }
}

} // verus!
