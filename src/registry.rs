use vstd::prelude::*;

use crate::extension::{DirtyLevel, ExtensionEntry};
use crate::system::{contains_string, ExtensionSystem, SystemSpec};
use crate::workload::{compile_group, is_cycle_witness, is_dep_list, is_layering, names_of, specs_of, WorkloadError};

verus! {

/// Where a system descriptor sits in the registry.
#[derive(Clone, Copy, Debug, PartialEq, Eq, Structural)]
pub enum SystemIndex {
    /// A statically linked host system.
    Core(usize),
    /// System `.1` of native extension `.0`.
    External(usize, usize),
    /// System `.1` of scripted extension `.0`.
    Lua(usize, usize),
}

/// The systems of one group, their dependency lists, and the stages they run in.
pub struct Workload {
    pub group: String,
    pub systems: Vec<SystemIndex>,
    pub deps: Vec<Vec<usize>>,
    pub stages: Vec<Vec<usize>>,
}

/// A system declared by a scripted extension; it has the shape of a native one.
pub type LuaExtensionSystem = ExtensionSystem;

/// A scripted extension module as loaded: when it was read, its systems and the names of
/// the commands it handles.
pub struct LuaExtensionLibrary {
    pub read_at: u64,
    pub systems: Vec<ExtensionSystem>,
    pub commands: Vec<String>,
}

/// A scripted extension, named after its file stem.
pub struct LuaExtensionEntry {
    pub name: String,
    pub file_path: String,
    pub library: Option<LuaExtensionLibrary>,
}

impl LuaExtensionEntry {
    /// Whether the module must be (re)loaded, given its file's modification time.
    pub fn dirty(&self, modified: u64) -> (r: bool)
        ensures
            r == (self.library matches Some(l) ==> modified > l.read_at),
    {
        match &self.library {
            Some(l) => modified > l.read_at,
            None => true,
        }
    }

    pub fn active(&self) -> (r: bool)
        ensures
            r == self.library is Some,
    {
        self.library.is_some()
    }

    /// Records a freshly loaded module.
    pub fn activate(&mut self, library: LuaExtensionLibrary)
        requires
            old(self).library is None,
        ensures
            final(self).library == Some(library),
            final(self).name == old(self).name,
            final(self).file_path == old(self).file_path,
    {
        self.library = Some(library);
    }

    /// Replaces the loaded module, if any, with a fresh one.
    pub fn reload(&mut self, library: LuaExtensionLibrary)
        ensures
            final(self).library == Some(library),
            final(self).name == old(self).name,
            final(self).file_path == old(self).file_path,
    {
        self.library = None;
        self.activate(library);
    }
}

/// The order in which descriptors are gathered.
pub open spec fn comes_before(x: SystemIndex, y: SystemIndex) -> bool {
    match (x, y) {
        (SystemIndex::External(a, b), SystemIndex::External(c, d)) => a < c || (a == c && b < d),
        (SystemIndex::External(_, _), _) => true,
        (SystemIndex::Core(a), SystemIndex::Core(c)) => a < c,
        (SystemIndex::Core(_), SystemIndex::Lua(_, _)) => true,
        (SystemIndex::Lua(a, b), SystemIndex::Lua(c, d)) => a < c || (a == c && b < d),
        _ => false,
    }
}

/// The registry of extensions, host systems and compiled workloads.
pub struct ExtensionRegistry {
    pub extensions: Vec<ExtensionEntry>,
    pub core_paths: Vec<String>,
    pub core_systems: Vec<ExtensionSystem>,
    pub lua_extensions: Vec<LuaExtensionEntry>,
    pub workloads: Vec<Workload>,
}

impl ExtensionRegistry {
    pub fn new() -> (r: Self)
        ensures
            r.extensions@.len() == 0,
            r.core_paths@.len() == 0,
            r.core_systems@.len() == 0,
            r.lua_extensions@.len() == 0,
            r.workloads@.len() == 0,
    {
        ExtensionRegistry {
            extensions: Vec::new(),
            core_paths: Vec::new(),
            core_systems: Vec::new(),
            lua_extensions: Vec::new(),
            workloads: Vec::new(),
        }
    }

    /// Every active native extension has its storages recorded.
    pub open spec fn well_formed(&self) -> bool {
        forall|i: int| 0 <= i < self.extensions@.len() ==> (#[trigger] self.extensions@[i]).well_formed()
    }

    /// The descriptor at `si`, if one is there.
    pub open spec fn located(&self, si: SystemIndex) -> Option<SystemSpec> {
        match si {
            SystemIndex::Core(i) => if i < self.core_systems@.len() {
                Some(self.core_systems@[i as int]@)
            } else {
                None
            },
            SystemIndex::External(e, j) => if e < self.extensions@.len()
                && self.extensions@[e as int].library is Some
                && j < self.extensions@[e as int].library.unwrap().systems@.len() {
                Some(self.extensions@[e as int].library.unwrap().systems@[j as int]@)
            } else {
                None
            },
            SystemIndex::Lua(e, j) => if e < self.lua_extensions@.len()
                && self.lua_extensions@[e as int].library is Some
                && j < self.lua_extensions@[e as int].library.unwrap().systems@.len() {
                Some(self.lua_extensions@[e as int].library.unwrap().systems@[j as int]@)
            } else {
                None
            },
        }
    }

    /// No two descriptors share an id.
    pub open spec fn ids_distinct(&self) -> bool {
        forall|a: SystemIndex, b: SystemIndex| a != b && (#[trigger] self.located(a)) is Some
            && (#[trigger] self.located(b)) is Some ==> self.located(a).unwrap().id != self.located(b).unwrap().id
    }

    /// The workloads are those of a successful compile: one per group of the registry's
    /// systems, each listing that group's systems once in gathered order, with their
    /// dependency lists and layered stages.
    pub open spec fn workloads_compiled(&self) -> bool {
        &&& forall|q: int| 0 <= q < self.workloads@.len() ==> {
                let w = #[trigger] self.workloads@[q];
                &&& self.workload_valid(w)
                &&& self.is_group_sequence(w.group@, w.systems@)
                &&& w.systems@.len() > 0
            }
        &&& forall|q1: int, q2: int| 0 <= q1 < q2 < self.workloads@.len() ==>
                (#[trigger] self.workloads@[q1]).group@ != (#[trigger] self.workloads@[q2]).group@
        &&& forall|si: SystemIndex| (#[trigger] self.located(si)) is Some ==>
                exists|q: int| 0 <= q < self.workloads@.len()
                    && (#[trigger] self.workloads@[q]).systems@.contains(si)
                    && self.workloads@[q].group@ == self.located(si).unwrap().group
        &&& self.ids_distinct()
    }

    /// `ms` lists exactly the descriptors of `group`, each once, in gathered order.
    pub open spec fn is_group_sequence(&self, group: Seq<char>, ms: Seq<SystemIndex>) -> bool {
        &&& forall|a: int, b: int| 0 <= a < b < ms.len() ==> #[trigger] comes_before(ms[a], ms[b])
        &&& forall|si: SystemIndex| #[trigger] ms.contains(si) <==>
                (self.located(si) is Some && self.located(si).unwrap().group == group)
    }

    /// Some descriptor of `group` is named `id`.
    pub open spec fn group_has_id(&self, group: Seq<char>, id: Seq<char>) -> bool {
        exists|si: SystemIndex| (#[trigger] self.located(si)) is Some && self.located(si).unwrap().group == group
            && self.located(si).unwrap().id == id
    }

    pub open spec fn member_specs(&self, systems: Seq<SystemIndex>) -> Seq<SystemSpec> {
        systems.map_values(|si: SystemIndex| self.located(si).unwrap())
    }

    /// A compiled workload: its members are located systems of its group, each with its
    /// dependency list, layered into stages.
    pub open spec fn workload_valid(&self, w: Workload) -> bool {
        &&& w.systems@.len() == w.deps@.len()
        &&& forall|k: int| 0 <= k < w.systems@.len() ==>
                (#[trigger] self.located(w.systems@[k])) is Some && self.located(w.systems@[k]).unwrap().group == w.group@
        &&& forall|k: int| 0 <= k < w.systems@.len() ==>
                is_dep_list(self.member_specs(w.systems@), k, #[trigger] w.deps@[k]@)
        &&& is_layering(w.deps.deep_view(), w.stages.deep_view())
    }

    /// Every descriptor, with where it sits: native extensions in order, then the host's,
    /// then the scripted extensions'.
    fn gather(&self) -> (r: (Vec<SystemIndex>, Vec<&ExtensionSystem>))
        ensures
            r.0@.len() == r.1@.len(),
            forall|k: int| 0 <= k < r.0@.len() ==> #[trigger] self.located(r.0@[k]) == Some(r.1@[k]@),
            forall|si: SystemIndex| #[trigger] self.located(si) is Some ==> r.0@.contains(si),
            forall|a: int, b: int| 0 <= a < b < r.0@.len() ==> #[trigger] comes_before(r.0@[a], r.0@[b]),
    {
        let mut idx: Vec<SystemIndex> = Vec::new();
        let mut refs: Vec<&ExtensionSystem> = Vec::new();
        let mut e: usize = 0;
        while e < self.extensions.len()
            invariant
                e <= self.extensions@.len(),
                idx@.len() == refs@.len(),
                forall|k: int| 0 <= k < idx@.len() ==> #[trigger] self.located(idx@[k]) == Some(refs@[k]@),
                forall|a: usize, b: usize| a < e && #[trigger] self.located(SystemIndex::External(a, b)) is Some
                    ==> idx@.contains(SystemIndex::External(a, b)),
                forall|a: int, b: int| 0 <= a < b < idx@.len() ==> #[trigger] comes_before(idx@[a], idx@[b]),
                forall|k: int| 0 <= k < idx@.len() ==> comes_before(#[trigger] idx@[k], SystemIndex::External(e, 0)),
            decreases self.extensions@.len() - e,
        {
            match &self.extensions[e].library {
                Some(lib) => {
                    let mut j: usize = 0;
                    while j < lib.systems.len()
                        invariant
                            e < self.extensions@.len(),
                            self.extensions@[e as int].library == Some(*lib),
                            j <= lib.systems@.len(),
                            idx@.len() == refs@.len(),
                            forall|k: int| 0 <= k < idx@.len() ==> #[trigger] self.located(idx@[k]) == Some(refs@[k]@),
                            forall|a: usize, b: usize| (a < e || (a == e && b < j))
                                && #[trigger] self.located(SystemIndex::External(a, b)) is Some
                                ==> idx@.contains(SystemIndex::External(a, b)),
                            forall|a: int, b: int| 0 <= a < b < idx@.len() ==> #[trigger] comes_before(idx@[a], idx@[b]),
                            forall|k: int| 0 <= k < idx@.len() ==> comes_before(#[trigger] idx@[k], SystemIndex::External(e, j)),
                        decreases lib.systems@.len() - j,
                    {
                        let ghost prev = idx@;
                        idx.push(SystemIndex::External(e, j));
                        refs.push(&lib.systems[j]);
                        proof {
                            assert(idx@.last() == SystemIndex::External(e, j));
                            assert forall|a: usize, b: usize| (a < e || (a == e && b < j + 1))
                                && #[trigger] self.located(SystemIndex::External(a, b)) is Some
                                implies idx@.contains(SystemIndex::External(a, b)) by {
                                if a == e && b == j {
                                    assert(idx@[idx@.len() - 1] == SystemIndex::External(a, b));
                                } else {
                                    let t = choose|t: int| 0 <= t < prev.len() && prev[t] == SystemIndex::External(a, b);
                                    assert(idx@[t] == prev[t]);
                                }
                            }
                        }
                        j = j + 1;
                    }
                },
                None => {},
            }
            e = e + 1;
        }
        assert forall|k: int| 0 <= k < idx@.len() implies comes_before(#[trigger] idx@[k], SystemIndex::Core(0)) by {
            assert(comes_before(idx@[k], SystemIndex::External(e, 0)));
        }
        let mut c: usize = 0;
        while c < self.core_systems.len()
            invariant
                c <= self.core_systems@.len(),
                idx@.len() == refs@.len(),
                forall|k: int| 0 <= k < idx@.len() ==> #[trigger] self.located(idx@[k]) == Some(refs@[k]@),
                forall|a: usize, b: usize| #[trigger] self.located(SystemIndex::External(a, b)) is Some
                    ==> idx@.contains(SystemIndex::External(a, b)),
                forall|a: usize| a < c ==> idx@.contains(SystemIndex::Core(a)),
                forall|a: int, b: int| 0 <= a < b < idx@.len() ==> #[trigger] comes_before(idx@[a], idx@[b]),
                forall|k: int| 0 <= k < idx@.len() ==> comes_before(#[trigger] idx@[k], SystemIndex::Core(c)),
            decreases self.core_systems@.len() - c,
        {
            let ghost prev = idx@;
            idx.push(SystemIndex::Core(c));
            refs.push(&self.core_systems[c]);
            proof {
                lemma_push_keeps(prev, SystemIndex::Core(c));
                assert(idx@[idx@.len() - 1] == SystemIndex::Core(c));
            }
            c = c + 1;
        }
        assert forall|k: int| 0 <= k < idx@.len() implies comes_before(#[trigger] idx@[k], SystemIndex::Lua(0, 0)) by {
            assert(comes_before(idx@[k], SystemIndex::Core(c)));
        }
        let mut e: usize = 0;
        while e < self.lua_extensions.len()
            invariant
                e <= self.lua_extensions@.len(),
                idx@.len() == refs@.len(),
                forall|k: int| 0 <= k < idx@.len() ==> #[trigger] self.located(idx@[k]) == Some(refs@[k]@),
                forall|a: usize, b: usize| #[trigger] self.located(SystemIndex::External(a, b)) is Some
                    ==> idx@.contains(SystemIndex::External(a, b)),
                forall|a: usize| a < self.core_systems@.len() ==> idx@.contains(SystemIndex::Core(a)),
                forall|a: usize, b: usize| a < e && #[trigger] self.located(SystemIndex::Lua(a, b)) is Some
                    ==> idx@.contains(SystemIndex::Lua(a, b)),
                forall|a: int, b: int| 0 <= a < b < idx@.len() ==> #[trigger] comes_before(idx@[a], idx@[b]),
                forall|k: int| 0 <= k < idx@.len() ==> comes_before(#[trigger] idx@[k], SystemIndex::Lua(e, 0)),
            decreases self.lua_extensions@.len() - e,
        {
            match &self.lua_extensions[e].library {
                Some(lib) => {
                    let mut j: usize = 0;
                    while j < lib.systems.len()
                        invariant
                            e < self.lua_extensions@.len(),
                            self.lua_extensions@[e as int].library == Some(*lib),
                            j <= lib.systems@.len(),
                            idx@.len() == refs@.len(),
                            forall|k: int| 0 <= k < idx@.len() ==> #[trigger] self.located(idx@[k]) == Some(refs@[k]@),
                            forall|a: usize, b: usize| #[trigger] self.located(SystemIndex::External(a, b)) is Some
                                ==> idx@.contains(SystemIndex::External(a, b)),
                            forall|a: usize| a < self.core_systems@.len() ==> idx@.contains(SystemIndex::Core(a)),
                            forall|a: usize, b: usize| (a < e || (a == e && b < j))
                                && #[trigger] self.located(SystemIndex::Lua(a, b)) is Some
                                ==> idx@.contains(SystemIndex::Lua(a, b)),
                            forall|a: int, b: int| 0 <= a < b < idx@.len() ==> #[trigger] comes_before(idx@[a], idx@[b]),
                            forall|k: int| 0 <= k < idx@.len() ==> comes_before(#[trigger] idx@[k], SystemIndex::Lua(e, j)),
                        decreases lib.systems@.len() - j,
                    {
                        let ghost prev = idx@;
                        idx.push(SystemIndex::Lua(e, j));
                        refs.push(&lib.systems[j]);
                        proof {
                            lemma_push_keeps(prev, SystemIndex::Lua(e, j));
                            assert(idx@[idx@.len() - 1] == SystemIndex::Lua(e, j));
                        }
                        j = j + 1;
                    }
                },
                None => {},
            }
            e = e + 1;
        }
        (idx, refs)
    }
}

/// The first position whose id repeats an earlier one.
fn first_duplicate(refs: &Vec<&ExtensionSystem>) -> (r: Option<usize>)
    ensures
        match r {
            Some(b) => b < refs@.len() && exists|a: int| 0 <= a < b && refs@[a]@.id == #[trigger] refs@[b as int]@.id,
            None => forall|a: int, b: int| 0 <= a < b < refs@.len() ==> #[trigger] refs@[a]@.id != #[trigger] refs@[b]@.id,
        },
{
    let mut b: usize = 0;
    while b < refs.len()
        invariant
            b <= refs@.len(),
            forall|a: int, c: int| 0 <= a < c < b ==> #[trigger] refs@[a]@.id != #[trigger] refs@[c]@.id,
        decreases refs@.len() - b,
    {
        let mut a: usize = 0;
        while a < b
            invariant
                a <= b < refs@.len(),
                forall|x: int| 0 <= x < a ==> refs@[x]@.id != refs@[b as int]@.id,
            decreases b - a,
        {
            if refs[a].id == refs[b].id {
                return Some(b);
            }
            a = a + 1;
        }
        b = b + 1;
    }
    None
}

/// Some descriptor of `refs` belongs to `g`.
pub open spec fn some_in_group(refs: Seq<&ExtensionSystem>, g: Seq<char>) -> bool {
    exists|k: int| 0 <= k < refs.len() && #[trigger] refs[k]@.group == g
}

/// The distinct groups of the descriptors, in order of first appearance.
fn collect_groups(refs: &Vec<&ExtensionSystem>) -> (r: Vec<String>)
    ensures
        forall|k: int| 0 <= k < refs@.len() ==> r.deep_view().contains(#[trigger] refs@[k]@.group),
        forall|a: int, b: int| 0 <= a < b < r.deep_view().len() ==> #[trigger] r.deep_view()[a] != #[trigger] r.deep_view()[b],
        forall|p: int| 0 <= p < r.deep_view().len() ==> some_in_group(refs@, #[trigger] r.deep_view()[p]),
{
    let mut groups: Vec<String> = Vec::new();
    let mut k: usize = 0;
    while k < refs.len()
        invariant
            k <= refs@.len(),
            forall|t: int| 0 <= t < k ==> groups.deep_view().contains(#[trigger] refs@[t]@.group),
            forall|a: int, b: int| 0 <= a < b < groups.deep_view().len() ==> #[trigger] groups.deep_view()[a] != #[trigger] groups.deep_view()[b],
            forall|p: int| 0 <= p < groups.deep_view().len() ==> some_in_group(refs@, #[trigger] groups.deep_view()[p]),
        decreases refs@.len() - k,
    {
        if !contains_string(&groups, &refs[k].group) {
            let ghost prev = groups.deep_view();
            groups.push(refs[k].group.clone());
            proof {
                assert(groups.deep_view() =~= prev.push(refs@[k as int]@.group));
                lemma_push_keeps(prev, refs@[k as int]@.group);
                let g = refs@[k as int]@.group;
                assert forall|a: int, b: int| 0 <= a < b < groups.deep_view().len() implies #[trigger] groups.deep_view()[a] != #[trigger] groups.deep_view()[b] by {
                    if b == prev.len() {
                        assert(prev[a] == groups.deep_view()[a]);
                        if prev[a] == g {
                            assert(prev.contains(g));
                        }
                    } else {
                        assert(prev[a] == groups.deep_view()[a] && prev[b] == groups.deep_view()[b]);
                    }
                }
                assert forall|p: int| 0 <= p < groups.deep_view().len() implies some_in_group(refs@, #[trigger] groups.deep_view()[p]) by {
                    if p < prev.len() {
                        assert(prev[p] == groups.deep_view()[p]);
                    } else {
                        assert(refs@[k as int]@.group == groups.deep_view()[p]);
                    }
                }
            }
        }
        k = k + 1;
    }
    groups
}

impl ExtensionRegistry {
    /// The gathered descriptors of `group`, with where they sit, in gathered order.
    fn filter_group<'a>(&self, group: &String, idx: &Vec<SystemIndex>, refs: &Vec<&'a ExtensionSystem>) -> (r: (Vec<SystemIndex>, Vec<&'a ExtensionSystem>))
        requires
            idx@.len() == refs@.len(),
            forall|k: int| 0 <= k < idx@.len() ==> #[trigger] self.located(idx@[k]) == Some(refs@[k]@),
            forall|a: int, b: int| 0 <= a < b < idx@.len() ==> #[trigger] comes_before(idx@[a], idx@[b]),
        ensures
            forall|a: int, b: int| 0 <= a < b < r.0@.len() ==> #[trigger] comes_before(r.0@[a], r.0@[b]),
            r.0@.len() == r.1@.len(),
            forall|t: int| 0 <= t < r.0@.len() ==> #[trigger] self.located(r.0@[t]) == Some(r.1@[t]@),
            forall|t: int| 0 <= t < r.1@.len() ==> (#[trigger] r.1@[t])@.group == group@,
            forall|k: int| 0 <= k < refs@.len() && (#[trigger] refs@[k])@.group == group@ ==> r.0@.contains(idx@[k]),
    {
        let mut mi: Vec<SystemIndex> = Vec::new();
        let mut mr: Vec<&'a ExtensionSystem> = Vec::new();
        let mut k: usize = 0;
        while k < refs.len()
            invariant
                k <= refs@.len(),
                idx@.len() == refs@.len(),
                forall|k: int| 0 <= k < idx@.len() ==> #[trigger] self.located(idx@[k]) == Some(refs@[k]@),
                mi@.len() == mr@.len(),
                forall|t: int| 0 <= t < mi@.len() ==> #[trigger] self.located(mi@[t]) == Some(mr@[t]@),
                forall|t: int| 0 <= t < mr@.len() ==> (#[trigger] mr@[t])@.group == group@,
                forall|j: int| 0 <= j < k && (#[trigger] refs@[j])@.group == group@ ==> mi@.contains(idx@[j]),
                forall|a: int, b: int| 0 <= a < b < idx@.len() ==> #[trigger] comes_before(idx@[a], idx@[b]),
                forall|a: int, b: int| 0 <= a < b < mi@.len() ==> #[trigger] comes_before(mi@[a], mi@[b]),
                forall|t: int, j: int| 0 <= t < mi@.len() && k <= j < idx@.len() ==> #[trigger] comes_before(mi@[t], idx@[j]),
            decreases refs@.len() - k,
        {
            if refs[k].group == *group {
                let ghost prev = mi@;
                mi.push(idx[k]);
                mr.push(refs[k]);
                proof {
                    lemma_push_keeps(prev, idx@[k as int]);
                    assert forall|a: int, b: int| 0 <= a < b < mi@.len() implies #[trigger] comes_before(mi@[a], mi@[b]) by {
                        if b == prev.len() {
                            assert(comes_before(prev[a], idx@[k as int]));
                        } else {
                            assert(comes_before(prev[a], prev[b]));
                        }
                    }
                    assert forall|t: int, j: int| 0 <= t < mi@.len() && k + 1 <= j < idx@.len() implies #[trigger] comes_before(mi@[t], idx@[j]) by {
                        if t == prev.len() {
                            assert(comes_before(idx@[k as int], idx@[j]));
                        } else {
                            assert(comes_before(prev[t], idx@[j]));
                        }
                    }
                }
            }
            k = k + 1;
        }
        (mi, mr)
    }

    /// Recompiles every workload from the systems of the active extensions, the host and the
    /// loaded scripted modules. On failure the previous workloads stay.
    pub fn rebuild_workloads(&mut self) -> (r: Result<(), WorkloadError>)
        ensures
            final(self).extensions == old(self).extensions,
            final(self).core_paths == old(self).core_paths,
            final(self).core_systems == old(self).core_systems,
            final(self).lua_extensions == old(self).lua_extensions,
            r is Err ==> final(self).workloads == old(self).workloads,
            r is Ok ==> forall|q: int| 0 <= q < final(self).workloads@.len() ==>
                final(self).workload_valid(#[trigger] final(self).workloads@[q]),
            r is Ok ==> forall|si: SystemIndex| (#[trigger] final(self).located(si)) is Some ==>
                exists|q: int| 0 <= q < final(self).workloads@.len()
                    && (#[trigger] final(self).workloads@[q]).systems@.contains(si)
                    && final(self).workloads@[q].group@ == final(self).located(si).unwrap().group,
            r is Ok ==> forall|a: SystemIndex, b: SystemIndex| a != b && (#[trigger] final(self).located(a)) is Some
                && (#[trigger] final(self).located(b)) is Some ==>
                final(self).located(a).unwrap().id != final(self).located(b).unwrap().id,
            r matches Err(WorkloadError::DuplicateSystem { id }) ==> exists|a: SystemIndex, b: SystemIndex|
                a != b && (#[trigger] old(self).located(a)) is Some && old(self).located(a).unwrap().id == id@
                && (#[trigger] old(self).located(b)) is Some && old(self).located(b).unwrap().id == id@,
            (r matches Err(WorkloadError::DuplicateSystem { .. })) <==> !old(self).ids_distinct(),
            r matches Err(WorkloadError::MissingDependency { system, dependency }) ==> exists|si: SystemIndex|
                (#[trigger] old(self).located(si)) is Some && old(self).located(si).unwrap().id == system@
                && old(self).located(si).unwrap().run_after.contains(dependency@)
                && !old(self).group_has_id(old(self).located(si).unwrap().group, dependency@),
            r matches Err(WorkloadError::CycleInWorkload { group, systems, .. }) ==> systems@.len() > 0
                && forall|a: int| 0 <= a < systems@.len() ==> old(self).group_has_id(group@, (#[trigger] systems@[a])@),
            r matches Err(WorkloadError::CycleInWorkload { group, systems, waiting_on }) ==>
                exists|ms: Seq<SystemIndex>, deps: Seq<Seq<usize>>, rest: Seq<usize>|
                    #[trigger] old(self).is_group_sequence(group@, ms)
                    && deps.len() == ms.len()
                    && (forall|i: int| 0 <= i < ms.len() ==> is_dep_list(old(self).member_specs(ms), i, #[trigger] deps[i]))
                    && #[trigger] is_cycle_witness(deps, rest)
                    && systems@.len() == rest.len()
                    && (forall|a: int| 0 <= a < rest.len() ==> #[trigger] systems@[a]@ == old(self).member_specs(ms)[rest[a] as int].id)
                    && waiting_on@.len() == rest.len()
                    && forall|a: int| 0 <= a < rest.len() ==>
                        (#[trigger] waiting_on@[a]).deep_view() == names_of(old(self).member_specs(ms), deps[rest[a] as int]),
            r is Ok ==> forall|q: int| 0 <= q < final(self).workloads@.len() ==>
                final(self).is_group_sequence((#[trigger] final(self).workloads@[q]).group@, final(self).workloads@[q].systems@)
                && final(self).workloads@[q].systems@.len() > 0,
            r is Ok ==> forall|q1: int, q2: int| 0 <= q1 < q2 < final(self).workloads@.len() ==>
                (#[trigger] final(self).workloads@[q1]).group@ != (#[trigger] final(self).workloads@[q2]).group@,
            r is Ok ==> final(self).workloads_compiled(),
    {
        let (idx, refs) = self.gather();
        match first_duplicate(&refs) {
            Some(b) => {
                proof {
                    let a = choose|a: int| 0 <= a < b && refs@[a]@.id == #[trigger] refs@[b as int]@.id;
                    assert(self.located(idx@[a]) == Some(refs@[a]@));
                    assert(self.located(idx@[b as int]) == Some(refs@[b as int]@));
                    assert(comes_before(idx@[a], idx@[b as int]));
                }
                return Err(WorkloadError::DuplicateSystem { id: refs[b].id.clone() });
            },
            None => {},
        }
        proof {
            assert forall|a: SystemIndex, b: SystemIndex| a != b && (#[trigger] self.located(a)) is Some
                && (#[trigger] self.located(b)) is Some implies
                self.located(a).unwrap().id != self.located(b).unwrap().id by {
                let ka = choose|k: int| 0 <= k < idx@.len() && idx@[k] == a;
                let kb = choose|k: int| 0 <= k < idx@.len() && idx@[k] == b;
                assert(self.located(idx@[ka]) == Some(refs@[ka]@));
                assert(self.located(idx@[kb]) == Some(refs@[kb]@));
                assert(ka != kb);
                if ka < kb {
                    assert(refs@[ka]@.id != refs@[kb]@.id);
                } else {
                    assert(refs@[kb]@.id != refs@[ka]@.id);
                }
            }
            assert(self.ids_distinct());
        }
        let groups = collect_groups(&refs);
        let mut workloads: Vec<Workload> = Vec::new();
        let mut q: usize = 0;
        while q < groups.len()
            invariant
                q <= groups@.len(),
                workloads@.len() == q,
                *self == *old(self),
                self.ids_distinct(),
                forall|si: SystemIndex| #[trigger] self.located(si) is Some ==> idx@.contains(si),
                idx@.len() == refs@.len(),
                forall|k: int| 0 <= k < idx@.len() ==> #[trigger] self.located(idx@[k]) == Some(refs@[k]@),
                forall|p: int| 0 <= p < q ==> self.workload_valid(#[trigger] workloads@[p]),
                forall|p: int| 0 <= p < q ==> (#[trigger] workloads@[p]).group@ == groups.deep_view()[p],
                forall|p: int, k: int| 0 <= p < q && 0 <= k < refs@.len() && refs@[k]@.group == groups.deep_view()[p]
                    ==> (#[trigger] workloads@[p]).systems@.contains(#[trigger] idx@[k]),
                forall|a: int, b: int| 0 <= a < b < idx@.len() ==> #[trigger] comes_before(idx@[a], idx@[b]),
                forall|a: int, b: int| 0 <= a < b < groups.deep_view().len() ==> #[trigger] groups.deep_view()[a] != #[trigger] groups.deep_view()[b],
                forall|p: int| 0 <= p < groups.deep_view().len() ==> some_in_group(refs@, #[trigger] groups.deep_view()[p]),
                forall|p: int| 0 <= p < q ==> self.is_group_sequence((#[trigger] workloads@[p]).group@, workloads@[p].systems@)
                    && workloads@[p].systems@.len() > 0,
            decreases groups@.len() - q,
        {
            let group = &groups[q];
            let (mi, mr) = self.filter_group(group, &idx, &refs);
            proof {
                lemma_filter_is_group_sequence(*self, idx@, refs@, group@, mi@, mr@);
                assert(self.member_specs(mi@) =~= specs_of(mr@)) by {
                    assert forall|t: int| 0 <= t < mi@.len() implies self.member_specs(mi@)[t] == specs_of(mr@)[t] by {
                        assert(self.located(mi@[t]) == Some(mr@[t]@));
                    }
                }
                assert(some_in_group(refs@, groups.deep_view()[q as int]));
                let k = choose|k: int| 0 <= k < refs@.len() && #[trigger] refs@[k]@.group == groups.deep_view()[q as int];
                assert(mi@.contains(idx@[k]));
            }
            let compiled = compile_group(group, &mr);
            let (deps, stages) = match compiled {
                Ok(v) => v,
                Err(e) => {
                    proof {
                        match &e {
                            WorkloadError::MissingDependency { system, dependency } => {
                                lemma_missing_error(*self, idx@, refs@, group@, mi@, mr@, system@, dependency@);
                            },
                            WorkloadError::CycleInWorkload { systems, waiting_on, .. } => {
                                lemma_cycle_error(*self, group@, mi@, mr@, systems@);
                                let (deps, rest) = choose|deps: Seq<Seq<usize>>, rest: Seq<usize>|
                                    deps.len() == mr@.len()
                                    && (forall|i: int| 0 <= i < mr@.len() ==> is_dep_list(specs_of(mr@), i, #[trigger] deps[i]))
                                    && #[trigger] is_cycle_witness(deps, rest)
                                    && systems.len() == rest.len()
                                    && (forall|a: int| 0 <= a < rest.len() ==> #[trigger] systems@[a]@ == specs_of(mr@)[rest[a] as int].id)
                                    && waiting_on.len() == rest.len()
                                    && forall|a: int| 0 <= a < rest.len() ==>
                                        (#[trigger] waiting_on@[a]).deep_view() == names_of(specs_of(mr@), deps[rest[a] as int]);
                                assert(self.is_group_sequence(group@, mi@));
                            },
                            WorkloadError::DuplicateSystem { .. } => {},
                        }
                    }
                    return Err(e);
                },
            };
            let w = Workload { group: group.clone(), systems: mi, deps, stages };
            proof {
                assert forall|k: int| 0 <= k < w.systems@.len() implies
                    (#[trigger] self.located(w.systems@[k])) is Some && self.located(w.systems@[k]).unwrap().group == w.group@ by {
                    assert(self.located(mi@[k]) == Some(mr@[k]@));
                }
                assert(self.workload_valid(w));
            }
            workloads.push(w);
            q = q + 1;
        }
        proof {
            assert forall|si: SystemIndex| (#[trigger] self.located(si)) is Some implies
                exists|p: int| 0 <= p < workloads@.len()
                    && (#[trigger] workloads@[p]).systems@.contains(si)
                    && workloads@[p].group@ == self.located(si).unwrap().group by {
                let k = choose|k: int| 0 <= k < idx@.len() && idx@[k] == si;
                assert(self.located(idx@[k]) == Some(refs@[k]@));
                assert(groups.deep_view().contains(refs@[k]@.group));
                let p = choose|p: int| 0 <= p < groups.deep_view().len() && groups.deep_view()[p] == refs@[k]@.group;
                assert(workloads@[p].systems@.contains(idx@[k]));
            }
        }
        let ghost before = *self;
        self.workloads = workloads;
        proof {
            lemma_same_systems(before, *self);
            assert forall|q: int| 0 <= q < self.workloads@.len() implies
                self.is_group_sequence((#[trigger] self.workloads@[q]).group@, self.workloads@[q].systems@) by {
                assert(self.workloads@[q] == workloads@[q]);
                assert(before.is_group_sequence(workloads@[q].group@, workloads@[q].systems@));
            }
            assert forall|si: SystemIndex| (#[trigger] self.located(si)) is Some implies
                exists|q: int| 0 <= q < self.workloads@.len()
                    && (#[trigger] self.workloads@[q]).systems@.contains(si)
                    && self.workloads@[q].group@ == self.located(si).unwrap().group by {
                assert(before.located(si) == self.located(si));
                let q = choose|q: int| 0 <= q < workloads@.len()
                    && (#[trigger] workloads@[q]).systems@.contains(si)
                    && workloads@[q].group@ == before.located(si).unwrap().group;
                assert(self.workloads@[q] == workloads@[q]);
            }
        }
        Ok(())
    }
}

/// A progress snapshot of a reload pass: the extensions still to load, each with whether
/// it is a hard reload, and the names of the others.
pub struct LoadStatus {
    pub to_load: Vec<(String, bool)>,
    pub loaded: Vec<String>,
}

/// Where a command goes.
#[derive(Clone, Copy, Debug, PartialEq, Eq, Structural)]
pub enum CommandRoute {
    /// To the world's own command handler.
    World,
    /// To the handler of the scripted extension at this index.
    Script(usize),
}

/// Why a command could not be routed.
#[derive(Clone, Copy, Debug, PartialEq, Eq, Structural)]
pub enum CommandError {
    /// The command has no keyword.
    Empty,
    /// No loaded scripted extension declares the keyword.
    NotFound,
}

/// Why a registry operation failed.
pub enum RegistryError {
    /// No extension is built to the given file.
    NotFound,
    /// These extensions' declared load dependencies form a cycle.
    DependencyCycle { names: Vec<String> },
    /// A surrendered storage was not registered again by the reloaded extension.
    MissingStorage { id: String },
}

pub open spec fn is_world_keyword(k: Seq<char>) -> bool {
    k == seq!['c', 'o', 'm', 'p', 'o', 'n', 'e', 'n', 't'] || k == seq!['r', 'e', 's', 'o', 'u', 'r', 'c', 'e']
}

/// Whether the scripted extension declares the command `k`.
pub open spec fn handles(e: LuaExtensionEntry, k: Seq<char>) -> bool {
    e.library is Some && e.library.unwrap().commands.deep_view().contains(k)
}

/// Whether a file name ends in a `.`-separated extension equal to `ext`.
pub open spec fn has_extension(name: Seq<char>, ext: Seq<char>) -> bool {
    let k = ext.len() + 1;
    &&& name.len() > k
    &&& name.subrange(name.len() - k, name.len() as int) == seq!['.'] + ext
    &&& name[name.len() - k - 1] != '/'
}

impl ExtensionRegistry {
    /// The names of the queued extensions, each marked as a hard reload, and of the others.
    pub fn load_status(&self, pending: &Vec<usize>) -> (r: LoadStatus)
        requires
            forall|p: int| 0 <= p < pending@.len() ==> #[trigger] pending@[p] < self.extensions@.len(),
        ensures
            r.to_load@.len() == pending@.len(),
            forall|p: int| 0 <= p < pending@.len() ==>
                (#[trigger] r.to_load@[p]).0@ == self.extensions@[pending@[p] as int].name@ && r.to_load@[p].1,
            r.loaded.deep_view() == Seq::new(self.extensions@.len(), |i: int| i)
                .filter(|i: int| !pending@.contains(i as usize))
                .map_values(|i: int| self.extensions@[i].name@),
    {
        let mut to_load: Vec<(String, bool)> = Vec::new();
        let mut p: usize = 0;
        while p < pending.len()
            invariant
                p <= pending@.len(),
                to_load@.len() == p,
                forall|p: int| 0 <= p < pending@.len() ==> #[trigger] pending@[p] < self.extensions@.len(),
                forall|q: int| 0 <= q < p ==>
                    (#[trigger] to_load@[q]).0@ == self.extensions@[pending@[q] as int].name@ && to_load@[q].1,
            decreases pending@.len() - p,
        {
            to_load.push((self.extensions[pending[p]].name.clone(), true));
            p = p + 1;
        }
        let ghost all = Seq::new(self.extensions@.len(), |i: int| i);
        let ghost keep = |i: int| !pending@.contains(i as usize);
        let ghost name_of = |i: int| self.extensions@[i].name@;
        let mut loaded: Vec<String> = Vec::new();
        let mut i: usize = 0;
        while i < self.extensions.len()
            invariant
                i <= self.extensions@.len(),
                all == Seq::new(self.extensions@.len(), |i: int| i),
                keep == (|i: int| !pending@.contains(i as usize)),
                name_of == (|i: int| self.extensions@[i].name@),
                loaded.deep_view() == all.subrange(0, i as int).filter(keep).map_values(name_of),
            decreases self.extensions@.len() - i,
        {
            let ghost before = all.subrange(0, i as int);
            assert(all.subrange(0, i + 1) =~= before.push(i as int));
            proof {
                before.lemma_filter_push(i as int, keep);
            }
            let queued = contains_index(pending, i);
            if !queued {
                let ghost prev = loaded.deep_view();
                loaded.push(self.extensions[i].name.clone());
                assert(loaded.deep_view() =~= prev.push(name_of(i as int)));
                assert(before.push(i as int).filter(keep) == before.filter(keep).push(i as int));
                assert(before.filter(keep).push(i as int).map_values(name_of) =~= before.filter(keep).map_values(name_of).push(name_of(i as int)));
            } else {
                assert(before.push(i as int).filter(keep) == before.filter(keep));
            }
            i = i + 1;
        }
        assert(all.subrange(0, i as int) =~= all);
        LoadStatus { to_load, loaded }
    }

    /// Where the command whose tokens are `command` goes: the storage commands to the
    /// world, any other keyword to the first loaded scripted extension that declares it.
    pub fn route_command(&self, command: &Vec<String>) -> (r: Result<CommandRoute, CommandError>)
        ensures
            command@.len() == 0 <==> r == Err::<CommandRoute, CommandError>(CommandError::Empty),
            command@.len() > 0 && is_world_keyword(command@[0]@) ==> r == Ok::<CommandRoute, CommandError>(CommandRoute::World),
            command@.len() > 0 && !is_world_keyword(command@[0]@) ==> match r {
                Ok(CommandRoute::Script(e)) => e < self.lua_extensions@.len()
                    && handles(self.lua_extensions@[e as int], command@[0]@)
                    && forall|f: int| 0 <= f < e ==> !handles(#[trigger] self.lua_extensions@[f], command@[0]@),
                Err(CommandError::NotFound) => forall|f: int| 0 <= f < self.lua_extensions@.len()
                    ==> !handles(#[trigger] self.lua_extensions@[f], command@[0]@),
                _ => false,
            },
    {
        if command.len() == 0 {
            return Err(CommandError::Empty);
        }
        let keyword = &command[0];
        let component = String::from_str("component");
        let resource = String::from_str("resource");
        proof {
            reveal_strlit("component");
            reveal_strlit("resource");
            assert(component@ =~= seq!['c', 'o', 'm', 'p', 'o', 'n', 'e', 'n', 't']);
            assert(resource@ =~= seq!['r', 'e', 's', 'o', 'u', 'r', 'c', 'e']);
        }
        if *keyword == component || *keyword == resource {
            assert(is_world_keyword(keyword@));
            return Ok(CommandRoute::World);
        }
        assert(!is_world_keyword(keyword@));
        let mut e: usize = 0;
        while e < self.lua_extensions.len()
            invariant
                e <= self.lua_extensions@.len(),
                command@.len() > 0,
                keyword@ == command@[0]@,
                !is_world_keyword(keyword@),
                forall|f: int| 0 <= f < e ==> !handles(#[trigger] self.lua_extensions@[f], keyword@),
            decreases self.lua_extensions@.len() - e,
        {
            match &self.lua_extensions[e].library {
                Some(l) => {
                    if contains_string(&l.commands, keyword) {
                        return Ok(CommandRoute::Script(e));
                    }
                },
                None => {},
            }
            e = e + 1;
        }
        Err(CommandError::NotFound)
    }

    /// Takes out the extension built to `path`, returning the storages that must be
    /// withdrawn from the world if it was active.
    pub fn remove(&mut self, path: &String) -> (r: Result<(Option<crate::extension::ExtensionStorages>, Result<(), WorkloadError>), RegistryError>)
        ensures
            final(self).core_systems == old(self).core_systems,
            final(self).lua_extensions == old(self).lua_extensions,
            match r {
                Ok((st, _)) => exists|i: int| 0 <= i < old(self).extensions@.len()
                    && old(self).extensions@[i].file_path@ == path@
                    && (forall|j: int| 0 <= j < i ==> (#[trigger] old(self).extensions@[j]).file_path@ != path@)
                    && final(self).extensions@ == old(self).extensions@.remove(i)
                    && st == (match old(self).extensions@[i].library { Some(l) => l.storages, None => None }),
                Err(RegistryError::NotFound) => final(self).extensions == old(self).extensions
                    && final(self).workloads == old(self).workloads
                    && forall|j: int| 0 <= j < old(self).extensions@.len() ==> (#[trigger] old(self).extensions@[j]).file_path@ != path@,
                Err(_) => false,
            },
            r matches Ok((_, Ok(()))) ==> final(self).workloads_compiled(),
            r matches Ok((_, Err(e))) ==> final(self).workloads@.len() == 0
                && ((e matches WorkloadError::DuplicateSystem { .. }) <==> !final(self).ids_distinct()),
    {
        let mut i: usize = 0;
        while i < self.extensions.len()
            invariant
                i <= self.extensions@.len(),
                *self == *old(self),
                forall|j: int| 0 <= j < i ==> (#[trigger] self.extensions@[j]).file_path@ != path@,
            decreases self.extensions@.len() - i,
        {
            if self.extensions[i].file_path == *path {
                let e = self.extensions.remove(i);
                let st = match e.library {
                    Some(l) => l.storages,
                    None => None,
                };
                // Recompile without the removed extension; if that fails, keep no workloads
                // rather than ones naming stale entries.
                let ghost removed = *self;
                let compiled = self.rebuild_workloads();
                match &compiled {
                    Ok(()) => {},
                    Err(_) => {
                        let ghost before = *self;
                        self.workloads = Vec::new();
                        proof {
                            lemma_same_systems(before, *self);
                            lemma_same_systems(removed, *self);
                        }
                    },
                }
                return Ok((st, compiled));
            }
            i = i + 1;
        }
        Err(RegistryError::NotFound)
    }

    /// Takes out the library of extension `i` ahead of a hard reload, returning the
    /// storages that must be withdrawn from the world if it was active.
    pub fn begin_hard_reload(&mut self, i: usize) -> (r: Option<crate::extension::ExtensionStorages>)
        requires
            i < old(self).extensions@.len(),
            old(self).well_formed(),
        ensures
            final(self).well_formed(),
            final(self).extensions@.len() == old(self).extensions@.len(),
            final(self).extensions@[i as int].library is None,
            final(self).extensions@[i as int].name == old(self).extensions@[i as int].name,
            final(self).extensions@[i as int].file_path == old(self).extensions@[i as int].file_path,
            final(self).extensions@[i as int].crate_path == old(self).extensions@[i as int].crate_path,
            forall|j: int| 0 <= j < old(self).extensions@.len() && j != i ==>
                #[trigger] final(self).extensions@[j] == old(self).extensions@[j],
            final(self).core_systems == old(self).core_systems,
            final(self).lua_extensions == old(self).lua_extensions,
            final(self).workloads == old(self).workloads,
            final(self).core_paths == old(self).core_paths,
            r == (match old(self).extensions@[i as int].library { Some(l) => l.storages, None => None }),
            old(self).extensions@[i as int].library is Some ==> r is Some,
    {
        assert(self.extensions@[i as int].well_formed());
        let mut e = self.extensions.remove(i);
        let lib = e.library.take();
        self.extensions.insert(i, e);
        assert forall|j: int| 0 <= j < self.extensions@.len() implies (#[trigger] self.extensions@[j]).well_formed() by {
            if j != i {
                assert(self.extensions@[j] == old(self).extensions@[j]);
            }
        }
        match lib {
            Some(l) => l.storages,
            None => None,
        }
    }

    /// Records the library that extension `i` was activated and loaded with.
    pub fn finish_activation(&mut self, i: usize, library: crate::extension::ExtensionLibrary)
        requires
            i < old(self).extensions@.len(),
            old(self).well_formed(),
            old(self).extensions@[i as int].library is None,
            library.storages is Some,
        ensures
            final(self).well_formed(),
            final(self).extensions@.len() == old(self).extensions@.len(),
            final(self).extensions@[i as int].library == Some(library),
            final(self).extensions@[i as int].name == old(self).extensions@[i as int].name,
            final(self).extensions@[i as int].file_path == old(self).extensions@[i as int].file_path,
            final(self).extensions@[i as int].crate_path == old(self).extensions@[i as int].crate_path,
            forall|j: int| 0 <= j < old(self).extensions@.len() && j != i ==>
                #[trigger] final(self).extensions@[j] == old(self).extensions@[j],
            final(self).core_systems == old(self).core_systems,
            final(self).lua_extensions == old(self).lua_extensions,
            final(self).workloads == old(self).workloads,
            final(self).core_paths == old(self).core_paths,
    {
        let mut e = self.extensions.remove(i);
        e.activate(library);
        self.extensions.insert(i, e);
        assert forall|j: int| 0 <= j < self.extensions@.len() implies (#[trigger] self.extensions@[j]).well_formed() by {
            if j != i {
                assert(self.extensions@[j] == old(self).extensions@[j]);
            }
        }
    }
}

/// What a reload pass will do: which extensions it reloads (all hard), in what order,
/// whether one workspace-wide build replaces their individual builds, and which scripted
/// modules it reloads.
pub struct ReloadPlan {
    pub queue: Vec<usize>,
    /// Positions in `queue`, layered so that an extension comes after those it names as
    /// load dependencies.
    pub order: Vec<Vec<usize>>,
    pub batch_build: bool,
    pub lua_queue: Vec<usize>,
}

/// Extension `a` declares extension `b` as a load dependency.
pub open spec fn loads_after(reg: ExtensionRegistry, a: usize, b: usize) -> bool {
    &&& reg.extensions@[a as int].library is Some
    &&& reg.extensions@[a as int].library.unwrap().load_dependencies.deep_view().contains(reg.extensions@[b as int].name@)
}

/// The load-dependency list of queue position `p`: the positions, in increasing order,
/// of the queued extensions that it declares as load dependencies.
pub open spec fn is_queue_dep_list(reg: ExtensionRegistry, queue: Seq<usize>, p: int, d: Seq<usize>) -> bool {
    &&& crate::workload::strictly_increasing(d)
    &&& forall|x: usize| d.contains(x) <==> (x < queue.len() && loads_after(reg, queue[p], queue[x as int]))
}

/// The extensions that a workspace-wide build can serve: members of the host workspace
/// that need a rebuild, among the first `n`.
pub open spec fn batchable(reg: ExtensionRegistry, levels: Seq<DirtyLevel>, n: int) -> nat
    decreases n,
{
    if n <= 0 {
        0
    } else {
        batchable(reg, levels, n - 1) + if levels[n - 1] == DirtyLevel::Rebuild
            && reg.extensions@[n - 1].crate_path matches Some((_, true)) { 1nat } else { 0nat }
    }
}

/// `queue` lists, in increasing order, the extensions whose level is not clean.
pub open spec fn is_reload_queue(levels: Seq<DirtyLevel>, queue: Seq<usize>) -> bool {
    &&& crate::workload::strictly_increasing(queue)
    &&& forall|x: usize| queue.contains(x) <==> (x < levels.len() && levels[x as int] != DirtyLevel::Clean)
}

/// A plan for the given dirty levels and scripted-module dirtiness.
pub open spec fn plans(reg: ExtensionRegistry, levels: Seq<DirtyLevel>, lua_dirty: Seq<bool>, batched: bool, plan: ReloadPlan) -> bool {
    &&& crate::workload::strictly_increasing(plan.queue@)
    &&& forall|x: usize| plan.queue@.contains(x) <==> (x < levels.len() && levels[x as int] != DirtyLevel::Clean)
    &&& plan.batch_build == (batched && batchable(reg, levels, levels.len() as int) > 1)
    &&& crate::workload::strictly_increasing(plan.lua_queue@)
    &&& forall|x: usize| plan.lua_queue@.contains(x) <==> (x < lua_dirty.len() && lua_dirty[x as int])
    &&& exists|deps: Seq<Seq<usize>>|
            deps.len() == plan.queue@.len()
            && (forall|p: int| 0 <= p < deps.len() ==> is_queue_dep_list(reg, plan.queue@, p, #[trigger] deps[p]))
            && is_layering(deps, plan.order.deep_view())
}

/// `n` names an extension that the pass reloads.
pub open spec fn names_queued(reg: ExtensionRegistry, levels: Seq<DirtyLevel>, n: Seq<char>) -> bool {
    exists|i: int| 0 <= i < reg.extensions@.len() && levels[i] != DirtyLevel::Clean && #[trigger] reg.extensions@[i].name@ == n
}

/// A pass in which every extension and module is clean builds nothing and reloads nothing.
pub proof fn lemma_clean_pass_plans_nothing(reg: ExtensionRegistry, levels: Seq<DirtyLevel>, lua_dirty: Seq<bool>, batched: bool, plan: ReloadPlan)
    requires
        plans(reg, levels, lua_dirty, batched, plan),
        forall|i: int| 0 <= i < levels.len() ==> levels[i] == DirtyLevel::Clean,
        forall|j: int| 0 <= j < lua_dirty.len() ==> !lua_dirty[j],
    ensures
        plan.queue@.len() == 0,
        !plan.batch_build,
        plan.lua_queue@.len() == 0,
{
    if plan.queue@.len() > 0 {
        assert(plan.queue@.contains(plan.queue@[0]));
        assert(levels[plan.queue@[0] as int] == DirtyLevel::Clean);
    }
    if plan.lua_queue@.len() > 0 {
        assert(plan.lua_queue@.contains(plan.lua_queue@[0]));
        assert(!lua_dirty[plan.lua_queue@[0] as int]);
    }
    lemma_batchable_clean(reg, levels, levels.len() as int);
}

proof fn lemma_batchable_clean(reg: ExtensionRegistry, levels: Seq<DirtyLevel>, n: int)
    requires
        n <= levels.len(),
        forall|i: int| 0 <= i < levels.len() ==> levels[i] == DirtyLevel::Clean,
    ensures
        batchable(reg, levels, n) == 0,
    decreases n,
{
    if n > 0 {
        lemma_batchable_clean(reg, levels, n - 1);
    }
}

/// The indices `i < v.len()` with `v[i]`, in increasing order.
fn marked(v: &Vec<bool>) -> (r: Vec<usize>)
    ensures
        crate::workload::strictly_increasing(r@),
        forall|x: usize| r@.contains(x) <==> (x < v@.len() && v@[x as int]),
        forall|a: int| 0 <= a < r@.len() ==> #[trigger] r@[a] < v@.len(),
{
    let mut r: Vec<usize> = Vec::new();
    let mut i: usize = 0;
    while i < v.len()
        invariant
            i <= v@.len(),
            crate::workload::strictly_increasing(r@),
            forall|x: usize| r@.contains(x) <==> (x < i && v@[x as int]),
            forall|a: int| 0 <= a < r@.len() ==> #[trigger] r@[a] < i,
        decreases v@.len() - i,
    {
        if v[i] {
            let ghost prev = r@;
            r.push(i);
            proof {
                lemma_push_keeps(prev, i);
                assert forall|x: usize| r@.contains(x) implies (x < i + 1 && v@[x as int]) by {
                    let t = choose|t: int| 0 <= t < r@.len() && r@[t] == x;
                    if t < prev.len() {
                        assert(prev.contains(x));
                    }
                }
            }
        }
        i = i + 1;
    }
    r
}

impl ExtensionRegistry {
    /// Extension `a` declares extension `b` as a load dependency.
    fn declares_dependency(&self, a: usize, b: usize) -> (r: bool)
        requires
            a < self.extensions@.len(),
            b < self.extensions@.len(),
        ensures
            r == loads_after(*self, a, b),
    {
        match &self.extensions[a].library {
            Some(l) => contains_string(&l.load_dependencies, &self.extensions[b].name),
            None => false,
        }
    }

    /// Plans a reload pass from each extension's dirty level and each scripted module's
    /// dirtiness; fails when the declared load dependencies of the queued extensions form
    /// a cycle, naming the extensions caught in it.
    pub fn plan_reload(&self, levels: &Vec<DirtyLevel>, lua_dirty: &Vec<bool>, batched: bool) -> (r: Result<ReloadPlan, RegistryError>)
        requires
            levels@.len() == self.extensions@.len(),
        ensures
            match r {
                Ok(plan) => plans(*self, levels@, lua_dirty@, batched, plan),
                Err(RegistryError::DependencyCycle { names }) => names@.len() > 0
                    && (forall|a: int| 0 <= a < names@.len() ==> names_queued(*self, levels@, #[trigger] names@[a]@))
                    && exists|queue: Seq<usize>, deps: Seq<Seq<usize>>, rest: Seq<usize>|
                        #[trigger] is_reload_queue(levels@, queue)
                        && deps.len() == queue.len()
                        && (forall|p: int| 0 <= p < deps.len() ==> is_queue_dep_list(*self, queue, p, #[trigger] deps[p]))
                        && #[trigger] is_cycle_witness(deps, rest)
                        && names@.len() == rest.len()
                        && forall|a: int| 0 <= a < rest.len() ==>
                            #[trigger] names@[a]@ == self.extensions@[queue[rest[a] as int] as int].name@,
                Err(_) => false,
            },
    {
        let mut hard: Vec<bool> = Vec::new();
        let mut count: usize = 0;
        let mut i: usize = 0;
        while i < levels.len()
            invariant
                i <= levels@.len(),
                levels@.len() == self.extensions@.len(),
                hard@.len() == i,
                forall|x: int| 0 <= x < i ==> hard@[x] == (levels@[x] != DirtyLevel::Clean),
                count == batchable(*self, levels@, i as int),
                count <= i,
            decreases levels@.len() - i,
        {
            hard.push(levels[i] != DirtyLevel::Clean);
            if levels[i] == DirtyLevel::Rebuild {
                match &self.extensions[i].crate_path {
                    Some((_, true)) => {
                        count = count + 1;
                    },
                    _ => {},
                }
            }
            i = i + 1;
        }
        let queue = marked(&hard);
        let lua_queue = marked(lua_dirty);
        let mut deps: Vec<Vec<usize>> = Vec::new();
        let mut p: usize = 0;
        while p < queue.len()
            invariant
                p <= queue@.len(),
                forall|a: int| 0 <= a < queue@.len() ==> #[trigger] queue@[a] < self.extensions@.len(),
                deps@.len() == p,
                forall|t: int| 0 <= t < p ==> is_queue_dep_list(*self, queue@, t, #[trigger] deps@[t]@),
                forall|t: int, e: int| 0 <= t < p && 0 <= e < deps@[t]@.len() ==> #[trigger] deps@[t]@[e] < queue@.len(),
            decreases queue@.len() - p,
        {
            let mut d: Vec<usize> = Vec::new();
            let mut x: usize = 0;
            while x < queue.len()
                invariant
                    x <= queue@.len(),
                    p < queue@.len(),
                    forall|a: int| 0 <= a < queue@.len() ==> #[trigger] queue@[a] < self.extensions@.len(),
                    crate::workload::strictly_increasing(d@),
                    forall|y: usize| d@.contains(y) <==> (y < x && loads_after(*self, queue@[p as int], queue@[y as int])),
                    forall|a: int| 0 <= a < d@.len() ==> #[trigger] d@[a] < x,
                decreases queue@.len() - x,
            {
                if self.declares_dependency(queue[p], queue[x]) {
                    let ghost prev = d@;
                    d.push(x);
                    proof {
                        lemma_push_keeps(prev, x);
                        assert forall|y: usize| d@.contains(y) implies (y < x + 1 && loads_after(*self, queue@[p as int], queue@[y as int])) by {
                            let t = choose|t: int| 0 <= t < d@.len() && d@[t] == y;
                            if t < prev.len() {
                                assert(prev.contains(y));
                            }
                        }
                    }
                }
                x = x + 1;
            }
            deps.push(d);
            p = p + 1;
        }
        proof {
            assert forall|t: int, e: int| 0 <= t < deps.deep_view().len() && 0 <= e < deps.deep_view()[t].len()
                implies #[trigger] deps.deep_view()[t][e] < deps.deep_view().len() by {
                assert(deps.deep_view()[t][e] == deps@[t]@[e]);
            }
        }
        proof {
            assert forall|t: int| 0 <= t < deps.deep_view().len() implies
                is_queue_dep_list(*self, queue@, t, #[trigger] deps.deep_view()[t]) by {
                assert(deps.deep_view()[t] =~= deps@[t]@);
            }
        }
        match crate::workload::construct_run_order(&deps) {
            Ok(order) => {
                let plan = ReloadPlan { queue, order, batch_build: batched && count > 1, lua_queue };
                proof {
                    let dv = deps.deep_view();
                    assert(dv.len() == plan.queue@.len()
                        && (forall|p: int| 0 <= p < dv.len() ==> is_queue_dep_list(*self, plan.queue@, p, #[trigger] dv[p]))
                        && is_layering(dv, plan.order.deep_view()));
                }
                Ok(plan)
            },
            Err(rest) => {
                let mut names: Vec<String> = Vec::new();
                let mut a: usize = 0;
                while a < rest.len()
                    invariant
                        a <= rest@.len(),
                        names@.len() == a,
                        deps@.len() == queue@.len(),
                        levels@.len() == self.extensions@.len(),
                        forall|b: int| 0 <= b < rest@.len() ==> #[trigger] rest@[b] < queue@.len(),
                        forall|b: int| 0 <= b < queue@.len() ==> #[trigger] queue@[b] < self.extensions@.len(),
                        forall|x: usize| queue@.contains(x) <==> (x < levels@.len() && levels@[x as int] != DirtyLevel::Clean),
                        forall|b: int| 0 <= b < a ==> names_queued(*self, levels@, #[trigger] names@[b]@),
                        forall|b: int| 0 <= b < a ==> #[trigger] names@[b]@ == self.extensions@[queue@[rest@[b] as int] as int].name@,
                    decreases rest@.len() - a,
                {
                    let e = queue[rest[a]];
                    proof {
                        assert(queue@.contains(e));
                    }
                    names.push(self.extensions[e].name.clone());
                    proof {
                        assert(names@[a as int]@ == self.extensions@[e as int].name@);
                        assert(names_queued(*self, levels@, names@[a as int]@));
                    }
                    a = a + 1;
                }
                proof {
                    let dv = deps.deep_view();
                    assert(is_reload_queue(levels@, queue@));
                    assert(is_cycle_witness(dv, rest@));
                    assert(dv.len() == queue@.len()
                        && (forall|p: int| 0 <= p < dv.len() ==> is_queue_dep_list(*self, queue@, p, #[trigger] dv[p])));
                }
                Err(RegistryError::DependencyCycle { names })
            },
        }
    }
}

impl ExtensionRegistry {
    /// The id of the descriptor at `si`, if one is there.
    pub fn system_id(&self, si: SystemIndex) -> (r: Option<&String>)
        ensures
            r is Some == self.located(si) is Some,
            r matches Some(id) ==> id@ == self.located(si).unwrap().id,
    {
        match si {
            SystemIndex::Core(i) => if i < self.core_systems.len() {
                Some(&self.core_systems[i].id)
            } else {
                None
            },
            SystemIndex::External(e, j) => if e < self.extensions.len() {
                match &self.extensions[e].library {
                    Some(l) => if j < l.systems.len() {
                        Some(&l.systems[j].id)
                    } else {
                        None
                    },
                    None => None,
                }
            } else {
                None
            },
            SystemIndex::Lua(e, j) => if e < self.lua_extensions.len() {
                match &self.lua_extensions[e].library {
                    Some(l) => if j < l.systems.len() {
                        Some(&l.systems[j].id)
                    } else {
                        None
                    },
                    None => None,
                }
            } else {
                None
            },
        }
    }

    /// Each workload's group, its systems' ids with their dependency lists, and its stages,
    /// for display.
    pub fn workload_info(&self) -> (r: Vec<(&String, Vec<(&String, &Vec<usize>)>, &Vec<Vec<usize>>)>)
        requires
            forall|q: int, k: int| 0 <= q < self.workloads@.len() && 0 <= k < self.workloads@[q].systems@.len()
                ==> (#[trigger] self.located(self.workloads@[q].systems@[k])) is Some,
            forall|q: int| 0 <= q < self.workloads@.len() ==>
                (#[trigger] self.workloads@[q]).systems@.len() == self.workloads@[q].deps@.len(),
        ensures
            r@.len() == self.workloads@.len(),
            forall|q: int| 0 <= q < r@.len() ==> {
                let w = self.workloads@[q];
                &&& (#[trigger] r@[q]).0 == w.group
                &&& r@[q].2 == w.stages
                &&& r@[q].1@.len() == w.systems@.len()
                &&& forall|k: int| 0 <= k < w.systems@.len() ==>
                        (#[trigger] r@[q].1@[k]).0@ == self.located(w.systems@[k]).unwrap().id && r@[q].1@[k].1 == w.deps@[k]
            },
    {
        let mut r: Vec<(&String, Vec<(&String, &Vec<usize>)>, &Vec<Vec<usize>>)> = Vec::new();
        let mut q: usize = 0;
        while q < self.workloads.len()
            invariant
                q <= self.workloads@.len(),
                r@.len() == q,
                forall|q: int, k: int| 0 <= q < self.workloads@.len() && 0 <= k < self.workloads@[q].systems@.len()
                    ==> (#[trigger] self.located(self.workloads@[q].systems@[k])) is Some,
                forall|q: int| 0 <= q < self.workloads@.len() ==>
                    (#[trigger] self.workloads@[q]).systems@.len() == self.workloads@[q].deps@.len(),
                forall|t: int| 0 <= t < q ==> {
                    let w = self.workloads@[t];
                    &&& (#[trigger] r@[t]).0 == w.group
                    &&& r@[t].2 == w.stages
                    &&& r@[t].1@.len() == w.systems@.len()
                    &&& forall|k: int| 0 <= k < w.systems@.len() ==>
                            (#[trigger] r@[t].1@[k]).0@ == self.located(w.systems@[k]).unwrap().id && r@[t].1@[k].1 == w.deps@[k]
                },
            decreases self.workloads@.len() - q,
        {
            let w = &self.workloads[q];
            let mut systems: Vec<(&String, &Vec<usize>)> = Vec::new();
            let mut k: usize = 0;
            while k < w.systems.len()
                invariant
                    q < self.workloads@.len(),
                    *w == self.workloads@[q as int],
                    k <= w.systems@.len(),
                    w.systems@.len() == w.deps@.len(),
                    systems@.len() == k,
                    forall|k: int| 0 <= k < w.systems@.len() ==> (#[trigger] self.located(w.systems@[k])) is Some,
                    forall|t: int| 0 <= t < k ==>
                        (#[trigger] systems@[t]).0@ == self.located(w.systems@[t]).unwrap().id && systems@[t].1 == w.deps@[t],
                decreases w.systems@.len() - k,
            {
                assert(self.located(w.systems@[k as int]) is Some);
                match self.system_id(w.systems[k]) {
                    Some(id) => {
                        systems.push((id, &w.deps[k]));
                    },
                    None => {
                        assert(false);
                    },
                }
                k = k + 1;
            }
            r.push((&w.group, systems, &w.stages));
            q = q + 1;
        }
        r
    }
}

/// The order in which a workload dispatches its systems: its stages one after another.
pub open spec fn dispatch_spec(w: Workload) -> Seq<SystemIndex> {
    w.stages.deep_view().flatten().map_values(|k: usize| w.systems@[k as int])
}

/// Every stage entry of `w` names one of its systems.
pub open spec fn stages_in_range(w: Workload) -> bool {
    forall|s: int, e: int| 0 <= s < w.stages@.len() && 0 <= e < w.stages@[s]@.len()
        ==> #[trigger] w.stages@[s]@[e] < w.systems@.len()
}

impl ExtensionRegistry {
    /// The systems of the workload of `group`, in the order they run: stage by stage, and
    /// within a stage in stage order. `None` when no workload has that group, or when its
    /// stages name a system it does not hold.
    pub fn dispatch_order(&self, group: &String) -> (r: Option<Vec<SystemIndex>>)
        ensures
            r matches Some(v) ==> exists|q: int| 0 <= q < self.workloads@.len()
                && (#[trigger] self.workloads@[q]).group@ == group@
                && (forall|p: int| 0 <= p < q ==> (#[trigger] self.workloads@[p]).group@ != group@)
                && v@ == dispatch_spec(self.workloads@[q]),
            r is None ==> forall|q: int| 0 <= q < self.workloads@.len() && (#[trigger] self.workloads@[q]).group@ == group@
                && (forall|p: int| 0 <= p < q ==> (#[trigger] self.workloads@[p]).group@ != group@)
                ==> !stages_in_range(self.workloads@[q]),
    {
        let mut q: usize = 0;
        while q < self.workloads.len()
            invariant
                q <= self.workloads@.len(),
                forall|p: int| 0 <= p < q ==> (#[trigger] self.workloads@[p]).group@ != group@,
            decreases self.workloads@.len() - q,
        {
            if self.workloads[q].group == *group {
                let w = &self.workloads[q];
                let ghost f = |k: usize| w.systems@[k as int];
                let ghost sv = w.stages.deep_view();
                let mut out: Vec<SystemIndex> = Vec::new();
                let mut s: usize = 0;
                assert(sv.subrange(0, 0).flatten() =~= Seq::<usize>::empty());
                while s < w.stages.len()
                    invariant
                        q < self.workloads@.len(),
                        *w == self.workloads@[q as int],
                        w.group@ == group@,
                        forall|p: int| 0 <= p < q ==> (#[trigger] self.workloads@[p]).group@ != group@,
                        sv == w.stages.deep_view(),
                        f == (|k: usize| w.systems@[k as int]),
                        s <= w.stages@.len(),
                        out@ == sv.subrange(0, s as int).flatten().map_values(f),
                        forall|t: int, e: int| 0 <= t < s && 0 <= e < w.stages@[t]@.len()
                            ==> #[trigger] w.stages@[t]@[e] < w.systems@.len(),
                    decreases w.stages@.len() - s,
                {
                    let stage = &w.stages[s];
                    let ghost before = out@;
                    let mut e: usize = 0;
                    while e < stage.len()
                        invariant
                            q < self.workloads@.len(),
                            *w == self.workloads@[q as int],
                            w.group@ == group@,
                            forall|p: int| 0 <= p < q ==> (#[trigger] self.workloads@[p]).group@ != group@,
                            f == (|k: usize| w.systems@[k as int]),
                            s < w.stages@.len(),
                            *stage == w.stages@[s as int],
                            e <= stage@.len(),
                            out@ == before + stage@.subrange(0, e as int).map_values(f),
                            forall|x: int| 0 <= x < e ==> #[trigger] stage@[x] < w.systems@.len(),
                        decreases stage@.len() - e,
                    {
                        let k = stage[e];
                        if k >= w.systems.len() {
                            proof {
                                assert(w.stages@[s as int]@[e as int] >= w.systems@.len());
                                assert(!stages_in_range(*w));
                                assert forall|q2: int| 0 <= q2 < self.workloads@.len() && (#[trigger] self.workloads@[q2]).group@ == group@
                                    && (forall|p: int| 0 <= p < q2 ==> (#[trigger] self.workloads@[p]).group@ != group@)
                                    implies !stages_in_range(self.workloads@[q2]) by {
                                    if q2 < q {
                                        assert(self.workloads@[q2].group@ != group@);
                                    } else if q2 > q {
                                        assert(self.workloads@[q as int].group@ != group@);
                                    }
                                }
                            }
                            return None;
                        }
                        out.push(w.systems[k]);
                        assert(stage@.subrange(0, e + 1).map_values(f) =~= stage@.subrange(0, e as int).map_values(f).push(f(k)));
                        assert(out@ =~= before + stage@.subrange(0, e + 1).map_values(f));
                        e = e + 1;
                    }
                    proof {
                        assert(stage@.subrange(0, e as int) =~= stage@);
                        assert(stage.deep_view() =~= stage@);
                        assert(sv.subrange(0, s + 1) =~= sv.subrange(0, s as int).push(sv[s as int]));
                        sv.subrange(0, s as int).lemma_flatten_push(sv[s as int]);
                        assert(sv[s as int] == stage@);
                        assert(out@ =~= (sv.subrange(0, s as int).flatten() + sv[s as int]).map_values(f));
                    }
                    s = s + 1;
                }
                proof {
                    assert(sv.subrange(0, s as int) =~= sv);
                }
                return Some(out);
            }
            q = q + 1;
        }
        None
    }
}

/// Queue position `p` declares the extension at queue position `x` as a load dependency.
pub open spec fn declares_in(reg: ExtensionRegistry, queue: Seq<usize>, declared: Seq<Seq<Seq<char>>>, p: int, x: int) -> bool {
    declared[p].contains(reg.extensions@[queue[x] as int].name@)
}

/// The load-dependency list of queue position `p` by what the queued extensions declare:
/// the positions, in increasing order, of the queued extensions that `p` names.
pub open spec fn is_declared_dep_list(reg: ExtensionRegistry, queue: Seq<usize>, declared: Seq<Seq<Seq<char>>>, p: int, d: Seq<usize>) -> bool {
    &&& crate::workload::strictly_increasing(d)
    &&& forall|x: usize| d.contains(x) <==> (x < queue.len() && declares_in(reg, queue, declared, p, x as int))
}

/// `order` layers the queue by what its extensions declare.
pub open spec fn declared_order(reg: ExtensionRegistry, queue: Seq<usize>, declared: Seq<Seq<Seq<char>>>, order: Seq<Seq<usize>>) -> bool {
    exists|deps: Seq<Seq<usize>>|
        deps.len() == queue.len()
        && (forall|p: int| 0 <= p < deps.len() ==> is_declared_dep_list(reg, queue, declared, p, #[trigger] deps[p]))
        && #[trigger] is_layering(deps, order)
}

/// The declared load dependencies of the queue form a cycle among the extensions `names`.
pub open spec fn declared_cycle(reg: ExtensionRegistry, queue: Seq<usize>, declared: Seq<Seq<Seq<char>>>, names: Seq<String>) -> bool {
    exists|deps: Seq<Seq<usize>>, rest: Seq<usize>|
        deps.len() == queue.len()
        && (forall|p: int| 0 <= p < deps.len() ==> is_declared_dep_list(reg, queue, declared, p, #[trigger] deps[p]))
        && #[trigger] is_cycle_witness(deps, rest)
        && names.len() == rest.len()
        && forall|a: int| 0 <= a < rest.len() ==>
            #[trigger] names[a]@ == reg.extensions@[queue[rest[a] as int] as int].name@
}

impl ExtensionRegistry {
    /// Orders the queued extensions by the load dependencies their freshly mapped libraries
    /// declare (`declared[p]` for the extension at `queue[p]`): positions in `queue`, layered
    /// so that an extension comes after those it names. Fails when they form a cycle,
    /// naming the extensions caught in it.
    pub fn order_by_declared(&self, queue: &Vec<usize>, declared: &Vec<Vec<String>>) -> (r: Result<Vec<Vec<usize>>, RegistryError>)
        requires
            declared@.len() == queue@.len(),
            forall|a: int| 0 <= a < queue@.len() ==> #[trigger] queue@[a] < self.extensions@.len(),
        ensures
            match r {
                Ok(order) => declared_order(*self, queue@, declared.deep_view(), order.deep_view()),
                Err(RegistryError::DependencyCycle { names }) => declared_cycle(*self, queue@, declared.deep_view(), names@),
                Err(_) => false,
            },
    {
        let ghost dd = declared.deep_view();
        let mut deps: Vec<Vec<usize>> = Vec::new();
        let mut p: usize = 0;
        while p < queue.len()
            invariant
                p <= queue@.len(),
                declared@.len() == queue@.len(),
                dd == declared.deep_view(),
                forall|a: int| 0 <= a < queue@.len() ==> #[trigger] queue@[a] < self.extensions@.len(),
                deps@.len() == p,
                forall|t: int| 0 <= t < p ==> is_declared_dep_list(*self, queue@, dd, t, #[trigger] deps@[t]@),
                forall|t: int, e: int| 0 <= t < p && 0 <= e < deps@[t]@.len() ==> #[trigger] deps@[t]@[e] < queue@.len(),
            decreases queue@.len() - p,
        {
            let mut d: Vec<usize> = Vec::new();
            let mut x: usize = 0;
            while x < queue.len()
                invariant
                    x <= queue@.len(),
                    p < queue@.len(),
                    declared@.len() == queue@.len(),
                    dd == declared.deep_view(),
                    forall|a: int| 0 <= a < queue@.len() ==> #[trigger] queue@[a] < self.extensions@.len(),
                    crate::workload::strictly_increasing(d@),
                    forall|y: usize| d@.contains(y) <==> (y < x && declares_in(*self, queue@, dd, p as int, y as int)),
                    forall|a: int| 0 <= a < d@.len() ==> #[trigger] d@[a] < x,
                decreases queue@.len() - x,
            {
                assert(dd[p as int] == declared@[p as int].deep_view());
                if contains_string(&declared[p], &self.extensions[queue[x]].name) {
                    let ghost prev = d@;
                    d.push(x);
                    proof {
                        lemma_push_keeps(prev, x);
                        assert forall|y: usize| d@.contains(y) implies (y < x + 1 && declares_in(*self, queue@, dd, p as int, y as int)) by {
                            let t = choose|t: int| 0 <= t < d@.len() && d@[t] == y;
                            if t < prev.len() {
                                assert(prev.contains(y));
                            }
                        }
                    }
                }
                x = x + 1;
            }
            deps.push(d);
            p = p + 1;
        }
        proof {
            assert forall|t: int, e: int| 0 <= t < deps.deep_view().len() && 0 <= e < deps.deep_view()[t].len()
                implies #[trigger] deps.deep_view()[t][e] < deps.deep_view().len() by {
                assert(deps.deep_view()[t][e] == deps@[t]@[e]);
            }
            assert forall|t: int| 0 <= t < deps.deep_view().len() implies
                is_declared_dep_list(*self, queue@, dd, t, #[trigger] deps.deep_view()[t]) by {
                assert(deps.deep_view()[t] =~= deps@[t]@);
            }
        }
        match crate::workload::construct_run_order(&deps) {
            Ok(order) => {
                proof {
                    let dv = deps.deep_view();
                    assert(dv.len() == queue@.len()
                        && (forall|p: int| 0 <= p < dv.len() ==> is_declared_dep_list(*self, queue@, declared.deep_view(), p, #[trigger] dv[p]))
                        && is_layering(dv, order.deep_view()));
                    assert(declared_order(*self, queue@, declared.deep_view(), order.deep_view()));
                }
                Ok(order)
            },
            Err(rest) => {
                let mut names: Vec<String> = Vec::new();
                let mut a: usize = 0;
                while a < rest.len()
                    invariant
                        a <= rest@.len(),
                        names@.len() == a,
                        deps@.len() == queue@.len(),
                        forall|b: int| 0 <= b < rest@.len() ==> #[trigger] rest@[b] < queue@.len(),
                        forall|b: int| 0 <= b < queue@.len() ==> #[trigger] queue@[b] < self.extensions@.len(),
                        forall|b: int| 0 <= b < a ==> #[trigger] names@[b]@ == self.extensions@[queue@[rest@[b] as int] as int].name@,
                    decreases rest@.len() - a,
                {
                    names.push(self.extensions[queue[rest[a]]].name.clone());
                    a = a + 1;
                }
                proof {
                    let dv = deps.deep_view();
                    assert(dv.len() == queue@.len()
                        && (forall|p: int| 0 <= p < dv.len() ==> is_declared_dep_list(*self, queue@, declared.deep_view(), p, #[trigger] dv[p]))
                        && is_cycle_witness(dv, rest@)
                        && names@.len() == rest@.len());
                    assert(declared_cycle(*self, queue@, declared.deep_view(), names@));
                }
                Err(RegistryError::DependencyCycle { names })
            },
        }
    }
}

/// Whether `v` holds `x`.
fn contains_index(v: &Vec<usize>, x: usize) -> (r: bool)
    ensures
        r == v@.contains(x),
{
    let mut i: usize = 0;
    while i < v.len()
        invariant
            i <= v@.len(),
            forall|j: int| 0 <= j < i ==> v@[j] != x,
        decreases v@.len() - i,
    {
        if v[i] == x {
            return true;
        }
        i = i + 1;
    }
    false
}

/// The filtered members of a group are its group sequence.
proof fn lemma_filter_is_group_sequence(
    reg: ExtensionRegistry,
    idx: Seq<SystemIndex>,
    refs: Seq<&ExtensionSystem>,
    g: Seq<char>,
    mi: Seq<SystemIndex>,
    mr: Seq<&ExtensionSystem>,
)
    requires
        idx.len() == refs.len(),
        forall|k: int| 0 <= k < idx.len() ==> #[trigger] reg.located(idx[k]) == Some(refs[k]@),
        forall|si: SystemIndex| #[trigger] reg.located(si) is Some ==> idx.contains(si),
        mi.len() == mr.len(),
        forall|a: int, b: int| 0 <= a < b < mi.len() ==> #[trigger] comes_before(mi[a], mi[b]),
        forall|t: int| 0 <= t < mi.len() ==> #[trigger] reg.located(mi[t]) == Some(mr[t]@),
        forall|t: int| 0 <= t < mr.len() ==> (#[trigger] mr[t])@.group == g,
        forall|k: int| 0 <= k < refs.len() && (#[trigger] refs[k])@.group == g ==> mi.contains(idx[k]),
    ensures
        reg.is_group_sequence(g, mi),
{
    assert forall|si: SystemIndex| #[trigger] mi.contains(si) <==>
        (reg.located(si) is Some && reg.located(si).unwrap().group == g) by {
        if mi.contains(si) {
            let t = choose|t: int| 0 <= t < mi.len() && mi[t] == si;
            assert(reg.located(mi[t]) == Some(mr[t]@));
        }
        if reg.located(si) is Some && reg.located(si).unwrap().group == g {
            let k = choose|k: int| 0 <= k < idx.len() && idx[k] == si;
            assert(reg.located(idx[k]) == Some(refs[k]@));
            assert(refs[k]@.group == g);
        }
    }
}

/// A group's missing dependency, as the registry sees it.
proof fn lemma_missing_error(
    reg: ExtensionRegistry,
    idx: Seq<SystemIndex>,
    refs: Seq<&ExtensionSystem>,
    g: Seq<char>,
    mi: Seq<SystemIndex>,
    mr: Seq<&ExtensionSystem>,
    system: Seq<char>,
    dependency: Seq<char>,
)
    requires
        idx.len() == refs.len(),
        forall|k: int| 0 <= k < idx.len() ==> #[trigger] reg.located(idx[k]) == Some(refs[k]@),
        forall|si: SystemIndex| #[trigger] reg.located(si) is Some ==> idx.contains(si),
        mi.len() == mr.len(),
        forall|t: int| 0 <= t < mi.len() ==> #[trigger] reg.located(mi[t]) == Some(mr[t]@),
        forall|t: int| 0 <= t < mr.len() ==> (#[trigger] mr[t])@.group == g,
        forall|k: int| 0 <= k < refs.len() && (#[trigger] refs[k])@.group == g ==> mi.contains(idx[k]),
        exists|i: int| 0 <= i < mr.len()
            && (#[trigger] specs_of(mr)[i]).id == system
            && specs_of(mr)[i].run_after.contains(dependency)
            && !crate::workload::has_id(specs_of(mr), dependency),
    ensures
        exists|si: SystemIndex|
            (#[trigger] reg.located(si)) is Some && reg.located(si).unwrap().id == system
            && reg.located(si).unwrap().run_after.contains(dependency)
            && !reg.group_has_id(reg.located(si).unwrap().group, dependency),
{
    let i = choose|i: int| 0 <= i < mr.len()
        && (#[trigger] specs_of(mr)[i]).id == system
        && specs_of(mr)[i].run_after.contains(dependency)
        && !crate::workload::has_id(specs_of(mr), dependency);
    let si = mi[i];
    assert(reg.located(si) == Some(mr[i]@));
    assert(specs_of(mr)[i] == mr[i]@);
    if reg.group_has_id(g, dependency) {
        let sj = choose|sj: SystemIndex| (#[trigger] reg.located(sj)) is Some && reg.located(sj).unwrap().group == g
            && reg.located(sj).unwrap().id == dependency;
        let k = choose|k: int| 0 <= k < idx.len() && idx[k] == sj;
        assert(reg.located(idx[k]) == Some(refs[k]@));
        assert(mi.contains(idx[k]));
        let t = choose|t: int| 0 <= t < mi.len() && mi[t] == idx[k];
        assert(reg.located(mi[t]) == Some(mr[t]@));
        assert(specs_of(mr)[t] == mr[t]@);
        assert(crate::workload::has_id(specs_of(mr), dependency));
    }
}

/// A group's cycle, as the registry sees it.
proof fn lemma_cycle_error(
    reg: ExtensionRegistry,
    g: Seq<char>,
    mi: Seq<SystemIndex>,
    mr: Seq<&ExtensionSystem>,
    systems: Seq<String>,
)
    requires
        mi.len() == mr.len(),
        forall|t: int| 0 <= t < mi.len() ==> #[trigger] reg.located(mi[t]) == Some(mr[t]@),
        forall|t: int| 0 <= t < mr.len() ==> (#[trigger] mr[t])@.group == g,
        exists|deps: Seq<Seq<usize>>, rest: Seq<usize>|
            deps.len() == mr.len()
            && #[trigger] crate::workload::is_cycle_witness(deps, rest)
            && systems.len() == rest.len()
            && forall|a: int| 0 <= a < rest.len() ==> #[trigger] systems[a]@ == specs_of(mr)[rest[a] as int].id,
    ensures
        systems.len() > 0,
        forall|a: int| 0 <= a < systems.len() ==> reg.group_has_id(g, (#[trigger] systems[a])@),
{
    let (deps, rest) = choose|deps: Seq<Seq<usize>>, rest: Seq<usize>|
        deps.len() == mr.len()
        && #[trigger] crate::workload::is_cycle_witness(deps, rest)
        && systems.len() == rest.len()
        && forall|a: int| 0 <= a < rest.len() ==> #[trigger] systems[a]@ == specs_of(mr)[rest[a] as int].id;
    assert(rest.len() > 0);
    assert forall|a: int| 0 <= a < systems.len() implies reg.group_has_id(g, (#[trigger] systems[a])@) by {
        let t = rest[a] as int;
        assert(rest[a] < deps.len());
        assert(reg.located(mi[t]) == Some(mr[t]@));
        assert(specs_of(mr)[t] == mr[t]@);
        assert(reg.located(mi[t]).unwrap().id == systems[a]@);
        assert(reg.located(mi[t]) is Some);
    }
}

/// What the registry says of its systems depends only on its extensions and host systems.
proof fn lemma_same_systems(r1: ExtensionRegistry, r2: ExtensionRegistry)
    requires
        r1.extensions == r2.extensions,
        r1.core_systems == r2.core_systems,
        r1.lua_extensions == r2.lua_extensions,
    ensures
        forall|si: SystemIndex| #![trigger r1.located(si)] #![trigger r2.located(si)] r1.located(si) == r2.located(si),
        forall|s: Seq<SystemIndex>| #![trigger r1.member_specs(s)] #![trigger r2.member_specs(s)] r1.member_specs(s) == r2.member_specs(s),
        forall|w: Workload| #![trigger r1.workload_valid(w)] #![trigger r2.workload_valid(w)] r1.workload_valid(w) == r2.workload_valid(w),
{
    assert forall|s: Seq<SystemIndex>| #[trigger] r1.member_specs(s) == r2.member_specs(s) by {
        assert(r1.member_specs(s) =~= r2.member_specs(s));
    }
    assert forall|w: Workload| #![trigger r1.workload_valid(w)] #![trigger r2.workload_valid(w)]
        r1.workload_valid(w) == r2.workload_valid(w) by {
        assert(r1.member_specs(w.systems@) =~= r2.member_specs(w.systems@));
        let ok1 = forall|k: int| 0 <= k < w.systems@.len() ==>
            (#[trigger] r1.located(w.systems@[k])) is Some && r1.located(w.systems@[k]).unwrap().group == w.group@;
        let ok2 = forall|k: int| 0 <= k < w.systems@.len() ==>
            (#[trigger] r2.located(w.systems@[k])) is Some && r2.located(w.systems@[k]).unwrap().group == w.group@;
        assert(ok1 == ok2) by {
            if ok1 {
                assert forall|k: int| 0 <= k < w.systems@.len() implies
                    (#[trigger] r2.located(w.systems@[k])) is Some && r2.located(w.systems@[k]).unwrap().group == w.group@ by {
                    assert(r1.located(w.systems@[k]) == r2.located(w.systems@[k]));
                }
            }
            if ok2 {
                assert forall|k: int| 0 <= k < w.systems@.len() implies
                    (#[trigger] r1.located(w.systems@[k])) is Some && r1.located(w.systems@[k]).unwrap().group == w.group@ by {
                    assert(r1.located(w.systems@[k]) == r2.located(w.systems@[k]));
                }
            }
        }
    }
}

proof fn lemma_push_keeps<A>(s: Seq<A>, v: A)
    ensures
        forall|x: A| s.contains(x) ==> #[trigger] s.push(v).contains(x),
        s.push(v).contains(v),
{
    assert forall|x: A| s.contains(x) implies #[trigger] s.push(v).contains(x) by {
        let t = choose|t: int| 0 <= t < s.len() && s[t] == x;
        assert(s.push(v)[t] == x);
    }
    assert(s.push(v)[s.len() as int] == v);
}

} // verus!
