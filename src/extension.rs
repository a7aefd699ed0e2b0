use vstd::prelude::*;

use crate::system::{ExtensionSystem, SystemSpec};

verus! {

/// How far an extension is from its built, loaded state; `Clean < Reload < Rebuild`.
#[derive(Clone, Copy, Debug, PartialEq, Eq, Structural)]
pub enum DirtyLevel {
    Clean,
    /// The library file on disk is newer than the one in memory.
    Reload,
    /// The sources are newer than the library file.
    Rebuild,
}

/// Errors of the dirty analyzer.
#[derive(Clone, Copy, Debug, PartialEq, Eq, Structural)]
pub enum DirtyError {
    /// The extension has neither sources nor a built library.
    NoSources,
}

/// The storage ids that one load of an extension contributed to the world.
#[derive(Debug)]
pub struct ExtensionStorages {
    pub components: Vec<String>,
    pub resources: Vec<String>,
}

impl ExtensionStorages {
    pub fn new() -> (r: Self)
        ensures
            r.components@.len() == 0,
            r.resources@.len() == 0,
    {
        ExtensionStorages { components: Vec::new(), resources: Vec::new() }
    }
}

/// Records what an extension's load entry point registers.
pub struct ExtensionStorageLoader {
    pub storages: ExtensionStorages,
}

impl ExtensionStorageLoader {
    pub fn new() -> (r: Self)
        ensures
            r.storages.components@.len() == 0,
            r.storages.resources@.len() == 0,
    {
        ExtensionStorageLoader { storages: ExtensionStorages::new() }
    }

    /// Records the component storage `id`.
    pub fn component(&mut self, id: &str) -> (r: &mut Self)
        ensures
            r.storages.components.deep_view() == old(self).storages.components.deep_view().push(id@),
            r.storages.resources.deep_view() == old(self).storages.resources.deep_view(),
            *final(self) == *final(r),
    {
        self.storages.components.push(id.to_owned());
        assert(self.storages.components.deep_view() =~= old(self).storages.components.deep_view().push(id@));
        self
    }

    /// Records the resource storage `id`.
    pub fn resource(&mut self, id: &str) -> (r: &mut Self)
        ensures
            r.storages.resources.deep_view() == old(self).storages.resources.deep_view().push(id@),
            r.storages.components.deep_view() == old(self).storages.components.deep_view(),
            *final(self) == *final(r),
    {
        self.storages.resources.push(id.to_owned());
        assert(self.storages.resources.deep_view() =~= old(self).storages.resources.deep_view().push(id@));
        self
    }
}

/// Collects the systems that an extension declares.
pub struct ExtensionSystemsLoader {
    pub systems: Vec<ExtensionSystem>,
}

impl ExtensionSystemsLoader {
    pub fn new() -> (r: Self)
        ensures
            r.systems@.len() == 0,
    {
        ExtensionSystemsLoader { systems: Vec::new() }
    }

    /// Declares system `name` of `group`; the result takes its ordering constraints.
    pub fn system(&mut self, group: &str, name: &str) -> (r: &mut ExtensionSystem)
        ensures
            r@ == (SystemSpec { group: group@, id: name@, run_after: Seq::empty(), run_before: Seq::empty() }),
            final(self).systems@ == old(self).systems@.push(*final(r)),
    {
        let s = ExtensionSystem::new(group, name);
        assert(s@.run_after =~= Seq::<Seq<char>>::empty());
        assert(s@.run_before =~= Seq::<Seq<char>>::empty());
        self.systems.push(s);
        let i = self.systems.len() - 1;
        &mut self.systems[i]
    }
}

/// A mapped native library: when its file was read, what it depends on, the systems it
/// declares, and the storages its last load contributed.
pub struct ExtensionLibrary {
    pub read_at: u64,
    pub load_dependencies: Vec<String>,
    pub systems: Vec<ExtensionSystem>,
    pub storages: Option<ExtensionStorages>,
}

impl ExtensionLibrary {
    /// A library just mapped, not yet loaded into the world.
    pub fn new(read_at: u64, load_dependencies: Vec<String>, systems: Vec<ExtensionSystem>) -> (r: Self)
        ensures
            r.read_at == read_at,
            r.load_dependencies == load_dependencies,
            r.systems == systems,
            r.storages is None,
    {
        ExtensionLibrary { read_at, load_dependencies, systems, storages: None }
    }

    /// Records the storages that a load into the world contributed.
    pub fn load(&mut self, storages: ExtensionStorages)
        ensures
            final(self).storages == Some(storages),
            final(self).read_at == old(self).read_at,
            final(self).load_dependencies == old(self).load_dependencies,
            final(self).systems == old(self).systems,
    {
        self.storages = Some(storages);
    }

    /// Surrenders the recorded storages, which must then be withdrawn from the world.
    pub fn unload(&mut self) -> (r: Option<ExtensionStorages>)
        ensures
            r == old(self).storages,
            final(self).storages is None,
            final(self).read_at == old(self).read_at,
            final(self).load_dependencies == old(self).load_dependencies,
            final(self).systems == old(self).systems,
    {
        self.storages.take()
    }
}

/// What the sources of a crate extension looked like when probed.
pub struct SourceProbe {
    /// Modification times of every file under the crate's `src`.
    pub file_times: Vec<u64>,
    /// Modification time of the crate's manifest.
    pub manifest_time: u64,
    pub deps: DepManifest,
}

/// The build tool's dependency file, as far as deep checking saw it.
pub enum DepManifest {
    /// Deep checking is off, or no dependency file exists.
    Absent,
    /// The dependency file exists but could not be read.
    Unreadable,
    /// Modification times of every path that the dependency file lists.
    Listed(Vec<u64>),
}

pub open spec fn max_from(s: Seq<u64>, init: u64) -> u64
    decreases s.len(),
{
    if s.len() == 0 {
        init
    } else {
        let m = max_from(s.drop_last(), init);
        if s.last() > m { s.last() } else { m }
    }
}

/// The latest modification among the sources, or `None` when the dependency file could
/// not be read.
pub open spec fn source_time(p: SourceProbe) -> Option<u64> {
    let base = max_from(p.file_times@, p.manifest_time);
    match p.deps {
        DepManifest::Absent => Some(base),
        DepManifest::Unreadable => None,
        DepManifest::Listed(d) => Some(max_from(d@, base)),
    }
}

/// The analyzer's verdict from the latest source time, the library file's time and, for a
/// live extension, when its library was read.
pub open spec fn combine(src: Option<u64>, build: Option<u64>, read_at: Option<u64>) -> Option<(DirtyLevel, u64)> {
    let c = match (src, build) {
        (Some(s), Some(b)) => if s > b { Some((DirtyLevel::Rebuild, s)) } else { Some((DirtyLevel::Reload, b)) },
        (Some(s), None) => Some((DirtyLevel::Rebuild, s)),
        (None, Some(b)) => Some((DirtyLevel::Reload, b)),
        (None, None) => None,
    };
    match (c, read_at) {
        (Some((_, t)), Some(r)) => if t < r { Some((DirtyLevel::Clean, r)) } else { c },
        _ => c,
    }
}

/// The dirty level of an extension and its representative timestamp.
pub open spec fn dirty_spec(source: Option<SourceProbe>, build: Option<u64>, read_at: Option<u64>, now: u64) -> Result<(DirtyLevel, u64), DirtyError> {
    match source {
        Some(p) if source_time(p) is None => Ok((DirtyLevel::Rebuild, now)),
        _ => {
            let src = match source {
                Some(p) => source_time(p),
                None => None,
            };
            match combine(src, build, read_at) {
                Some(v) => Ok(v),
                None => Err(DirtyError::NoSources),
            }
        },
    }
}

fn max_of(s: &Vec<u64>, init: u64) -> (r: u64)
    ensures
        r == max_from(s@, init),
{
    let mut m = init;
    let mut i: usize = 0;
    while i < s.len()
        invariant
            i <= s.len(),
            m == max_from(s@.subrange(0, i as int), init),
        decreases s.len() - i,
    {
        assert(s@.subrange(0, i + 1).drop_last() =~= s@.subrange(0, i as int));
        if s[i] > m {
            m = s[i];
        }
        i = i + 1;
    }
    assert(s@.subrange(0, i as int) =~= s@);
    m
}

fn probe_time(p: &SourceProbe) -> (r: Option<u64>)
    ensures
        r == source_time(*p),
{
    let base = max_of(&p.file_times, p.manifest_time);
    match &p.deps {
        DepManifest::Absent => Some(base),
        DepManifest::Unreadable => None,
        DepManifest::Listed(d) => Some(max_of(d, base)),
    }
}

/// A native extension: its name, the library file a build produces, the crate it is
/// built from with whether that crate is a member of the host workspace, and the mapped
/// library while active.
pub struct ExtensionEntry {
    pub name: String,
    pub file_path: String,
    pub crate_path: Option<(String, bool)>,
    pub library: Option<ExtensionLibrary>,
}

impl ExtensionEntry {
    /// An active extension has its storages recorded.
    pub open spec fn well_formed(&self) -> bool {
        self.library is Some ==> self.library.unwrap().storages is Some
    }

    pub fn active(&self) -> (r: bool)
        ensures
            r == self.library is Some,
    {
        self.library.is_some()
    }

    /// The dirty level from a probe of the sources (for a crate extension), the library
    /// file's modification time if it exists, and the current time.
    pub fn dirty_level(&self, source: Option<&SourceProbe>, build_time: Option<u64>, now: u64) -> (r: Result<(DirtyLevel, u64), DirtyError>)
        ensures
            r == dirty_spec(
                match source { Some(p) => Some(*p), None => None },
                build_time,
                match self.library { Some(l) => Some(l.read_at), None => None },
                now,
            ),
    {
        let src = match source {
            Some(p) => {
                match probe_time(p) {
                    Some(t) => Some(t),
                    None => {
                        return Ok((DirtyLevel::Rebuild, now));
                    },
                }
            },
            None => None,
        };
        let combined = match (src, build_time) {
            (Some(s), Some(b)) => if s > b { (DirtyLevel::Rebuild, s) } else { (DirtyLevel::Reload, b) },
            (Some(s), None) => (DirtyLevel::Rebuild, s),
            (None, Some(b)) => (DirtyLevel::Reload, b),
            (None, None) => {
                return Err(DirtyError::NoSources);
            },
        };
        match &self.library {
            Some(lib) => {
                if combined.1 < lib.read_at {
                    return Ok((DirtyLevel::Clean, lib.read_at));
                }
            },
            None => {},
        }
        Ok(combined)
    }

    /// Records a library that was mapped and loaded.
    pub fn activate(&mut self, library: ExtensionLibrary)
        requires
            old(self).library is None,
            library.storages is Some,
        ensures
            final(self).library == Some(library),
            final(self).name == old(self).name,
            final(self).file_path == old(self).file_path,
            final(self).crate_path == old(self).crate_path,
            final(self).well_formed(),
    {
        self.library = Some(library);
    }
}

/// Only an active extension is clean: a pass reloads every inactive one.
pub proof fn lemma_clean_only_when_active(e: ExtensionEntry, source: Option<SourceProbe>, build: Option<u64>, now: u64)
    requires
        dirty_spec(source, build, match e.library { Some(l) => Some(l.read_at), None => None }, now)
            matches Ok((DirtyLevel::Clean, _)),
    ensures
        e.library is Some,
{
}

/// Untouched files leave a clean extension clean, whenever it is asked again.
pub proof fn lemma_untouched_stays_clean(source: Option<SourceProbe>, build: Option<u64>, read_at: Option<u64>, t: u64, later: u64)
    requires
        dirty_spec(source, build, read_at, t) matches Ok((DirtyLevel::Clean, _)),
    ensures
        dirty_spec(source, build, read_at, later) == dirty_spec(source, build, read_at, t),
{
}

/// A library read after every file the analyzer looks at was last modified is clean,
/// so a second pass over unchanged files rebuilds and reloads nothing.
pub proof fn lemma_fresh_library_is_clean(source: Option<SourceProbe>, build: Option<u64>, read_at: u64, now: u64)
    requires
        source is Some || build is Some,
        source matches Some(p) ==> source_time(p) matches Some(t) && t < read_at,
        build matches Some(b) ==> b < read_at,
    ensures
        dirty_spec(source, build, Some(read_at), now) == Ok::<(DirtyLevel, u64), DirtyError>((DirtyLevel::Clean, read_at)),
{
}

proof fn lemma_max_from_update(s: Seq<u64>, init: u64, i: int, now: u64)
    requires
        0 <= i < s.len(),
        now >= init,
        forall|j: int| 0 <= j < s.len() ==> s[j] <= now,
    ensures
        max_from(s.update(i, now), init) == now,
    decreases s.len(),
{
    let t = s.update(i, now);
    lemma_max_from_le(s.drop_last(), init, now);
    if i == s.len() - 1 {
        assert(t.drop_last() =~= s.drop_last());
    } else {
        assert(t.drop_last() =~= s.drop_last().update(i, now));
        lemma_max_from_update(s.drop_last(), init, i, now);
    }
}

proof fn lemma_max_from_le(s: Seq<u64>, init: u64, bound: u64)
    requires
        init <= bound,
        forall|j: int| 0 <= j < s.len() ==> s[j] <= bound,
    ensures
        max_from(s, init) <= bound,
    decreases s.len(),
{
    if s.len() > 0 {
        lemma_max_from_le(s.drop_last(), init, bound);
    }
}

proof fn lemma_max_from_ge(s: Seq<u64>, init: u64)
    ensures
        max_from(s, init) >= init,
    decreases s.len(),
{
    if s.len() > 0 {
        lemma_max_from_ge(s.drop_last(), init);
    }
}

/// Touching a source file, at a time later than every timestamp the analyzer reads,
/// makes the extension need a rebuild.
pub proof fn lemma_touch_forces_rebuild(p: SourceProbe, i: int, build: Option<u64>, read_at: Option<u64>, now: u64, later: u64)
    requires
        0 <= i < p.file_times@.len(),
        source_time(p) is Some,
        forall|j: int| 0 <= j < p.file_times@.len() ==> p.file_times@[j] < now,
        p.manifest_time < now,
        p.deps matches DepManifest::Listed(d) ==> forall|j: int| 0 <= j < d@.len() ==> d@[j] < now,
        build matches Some(b) ==> b < now,
        read_at matches Some(r) ==> r <= now,
    ensures
        forall|touched: SourceProbe|
            touched.file_times@ == p.file_times@.update(i, now) && touched.manifest_time == p.manifest_time
            && touched.deps == p.deps ==>
            #[trigger] dirty_spec(Some(touched), build, read_at, later) == Ok::<(DirtyLevel, u64), DirtyError>((DirtyLevel::Rebuild, now)),
{
    assert forall|touched: SourceProbe|
        touched.file_times@ == p.file_times@.update(i, now) && touched.manifest_time == p.manifest_time
        && touched.deps == p.deps implies
        #[trigger] dirty_spec(Some(touched), build, read_at, later) == Ok::<(DirtyLevel, u64), DirtyError>((DirtyLevel::Rebuild, now)) by {
        lemma_max_from_update(p.file_times@, p.manifest_time, i, now);
        let base = max_from(touched.file_times@, touched.manifest_time);
        assert(base == now);
        match touched.deps {
            DepManifest::Listed(d) => {
                lemma_max_from_le(d@, base, now);
                lemma_max_from_ge(d@, base);
            },
            _ => {},
        }
    }
}

} // verus!
