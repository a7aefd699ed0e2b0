use vstd::prelude::*;

use crate::cache::{extension_build_filename, prefix_of, suffix_of, HostFamily};
use crate::extension::ExtensionEntry;
use crate::registry::{has_extension, LuaExtensionEntry};
use crate::system::contains_string;

verus! {

/// Why an extension could not be discovered.
pub enum DiscoveryError {
    /// The crate manifest names no package.
    MissingName,
    /// The crate is not built as both `cdylib` and `rlib`.
    NotDynamicLibrary { name: String },
    /// The path names no file.
    NoFileName,
}

/// What the runtime reads of a crate extension's manifest.
pub struct CrateManifest {
    /// `package.name`.
    pub package_name: Option<String>,
    /// `lib.crate-type`, keeping its string entries.
    pub crate_types: Option<Vec<String>>,
}

/// `s` split at every space, as `str::split(" ")` does.
pub open spec fn split_spaces(s: Seq<char>) -> Seq<Seq<char>>
    decreases s.len(),
{
    if s.len() == 0 {
        seq![Seq::<char>::empty()]
    } else {
        let p = split_spaces(s.drop_last());
        if s.last() == ' ' {
            p.push(Seq::empty())
        } else {
            p.update(p.len() - 1, p.last().push(s.last()))
        }
    }
}

/// The first `": "` of `s` starts at `k`.
pub open spec fn first_separator(s: Seq<char>, k: int) -> bool {
    &&& 0 <= k && k + 1 < s.len()
    &&& s[k] == ':' && s[k + 1] == ' '
    &&& forall|j: int| 0 <= j < k ==> !(s[j] == ':' && #[trigger] s[j + 1] == ' ')
}

pub open spec fn has_separator(s: Seq<char>) -> bool {
    exists|k: int| 0 <= k && k + 1 < s.len() && s[k] == ':' && #[trigger] s[k + 1] == ' '
}

/// The paths that a dependency file lists: what follows its first `": "`, without the
/// final newline, split at spaces. `None` when it has no `": "` or does not end in a
/// newline after it.
pub open spec fn dep_file_spec(s: Seq<char>) -> Option<Seq<Seq<char>>> {
    if has_separator(s) {
        let k = choose|k: int| first_separator(s, k);
        let after = s.subrange(k + 2, s.len() as int);
        if after.len() > 0 && after.last() == '\n' {
            Some(split_spaces(after.drop_last()))
        } else {
            None
        }
    } else {
        None
    }
}

/// Splits `s` at every space.
fn split_at_spaces(s: &str) -> (r: Vec<String>)
    ensures
        r.deep_view() == split_spaces(s@),
{
    let n = s.unicode_len();
    let mut pieces: Vec<String> = Vec::new();
    let mut start: usize = 0;
    let mut i: usize = 0;
    assert(s@.subrange(0, 0) =~= Seq::<char>::empty());
    assert(pieces.deep_view().push(s@.subrange(0, 0)) =~= seq![Seq::<char>::empty()]);
    while i < n
        invariant
            i <= n,
            n == s@.len(),
            start <= i,
            pieces.deep_view().push(s@.subrange(start as int, i as int)) == split_spaces(s@.subrange(0, i as int)),
        decreases n - i,
    {
        let c = s.get_char(i);
        let ghost pre = s@.subrange(0, i as int);
        assert(s@.subrange(0, i + 1).drop_last() =~= pre);
        assert(s@.subrange(0, i + 1).last() == c);
        if c == ' ' {
            let piece = s.substring_char(start, i).to_owned();
            let ghost prev = pieces.deep_view();
            pieces.push(piece);
            assert(pieces.deep_view() =~= prev.push(s@.subrange(start as int, i as int)));
            assert(s@.subrange(i + 1, i + 1) =~= Seq::<char>::empty());
            start = i + 1;
        } else {
            let ghost p = split_spaces(pre);
            assert(s@.subrange(start as int, i + 1) =~= s@.subrange(start as int, i as int).push(c));
            assert(pieces.deep_view().push(s@.subrange(start as int, i + 1)) =~= p.update(p.len() - 1, p.last().push(c)));
        }
        i = i + 1;
    }
    let last = s.substring_char(start, n).to_owned();
    let ghost prev = pieces.deep_view();
    pieces.push(last);
    assert(pieces.deep_view() =~= prev.push(s@.subrange(start as int, n as int)));
    assert(s@.subrange(0, n as int) =~= s@);
    pieces
}

/// Reads the paths listed in a build tool dependency file.
pub fn dep_file_paths(contents: &str) -> (r: Option<Vec<String>>)
    ensures
        match r {
            Some(v) => dep_file_spec(contents@) == Some(v.deep_view()),
            None => dep_file_spec(contents@) is None,
        },
{
    let n = contents.unicode_len();
    let mut k: usize = 0;
    let mut found = false;
    while !found && k < n && k + 1 < n
        invariant
            n == contents@.len(),
            k <= n,
            found ==> k + 1 < n && contents@[k as int] == ':' && contents@[k + 1] == ' ',
            forall|j: int| 0 <= j < k && j + 1 < n ==> !(contents@[j] == ':' && #[trigger] contents@[j + 1] == ' '),
        decreases n - k, if found { 0int } else { 1int },
    {
        if contents.get_char(k) == ':' && contents.get_char(k + 1) == ' ' {
            found = true;
        } else {
            k = k + 1;
        }
    }
    if !found {
        proof {
            if has_separator(contents@) {
                let j = choose|j: int| 0 <= j && j + 1 < contents@.len() && contents@[j] == ':' && #[trigger] contents@[j + 1] == ' ';
                assert(j < k);
            }
        }
        return None;
    }
    proof {
        assert(first_separator(contents@, k as int));
        assert(has_separator(contents@));
        let c = choose|c: int| first_separator(contents@, c);
        if c < k {
            assert(!(contents@[c] == ':' && contents@[c + 1] == ' '));
        }
        if k < c {
            assert(!(contents@[k as int] == ':' && contents@[k + 1] == ' '));
        }
        assert(c == k);
    }
    if k + 2 >= n || contents.get_char(n - 1) != '\n' {
        return None;
    }
    let body = contents.substring_char(k + 2, n - 1);
    assert(body@ =~= contents@.subrange(k + 2, n as int).drop_last());
    Some(split_at_spaces(body))
}

/// The last component of a path: what follows its last `/`.
pub open spec fn file_name_of(p: Seq<char>) -> Seq<char> {
    p.subrange(last_slash_end(p, p.len() as int), p.len() as int)
}

/// The position just after the last `/` among the first `n` characters, or 0.
pub open spec fn last_slash_end(p: Seq<char>, n: int) -> int
    decreases n,
{
    if n <= 0 {
        0
    } else if p[n - 1] == '/' {
        n
    } else {
        last_slash_end(p, n - 1)
    }
}

proof fn lemma_last_slash_end_bounds(p: Seq<char>, n: int)
    requires
        0 <= n <= p.len(),
    ensures
        0 <= last_slash_end(p, n) <= n,
    decreases n,
{
    if n > 0 {
        lemma_last_slash_end_bounds(p, n - 1);
    }
}

/// The last component of `path`.
pub fn file_name(path: &str) -> (r: String)
    ensures
        r@ == file_name_of(path@),
{
    let n = path.unicode_len();
    let mut i: usize = n;
    let mut found = false;
    while !found && i > 0
        invariant
            i <= n,
            n == path@.len(),
            found ==> i > 0 && path@[i - 1] == '/',
            last_slash_end(path@, n as int) == last_slash_end(path@, i as int),
        decreases i, if found { 0int } else { 1int },
    {
        if path.get_char(i - 1) == '/' {
            found = true;
        } else {
            i = i - 1;
        }
    }
    proof {
        lemma_last_slash_end_bounds(path@, n as int);
    }
    path.substring_char(i, n).to_owned()
}

/// A file name without its last `.`-separated extension; a leading dot does not start one.
pub open spec fn stem_of(name: Seq<char>) -> Seq<char> {
    let d = last_dot(name, name.len() as int);
    if d > 0 { name.subrange(0, d) } else { name }
}

/// The position of the last `.` among the first `n` characters, or -1.
pub open spec fn last_dot(p: Seq<char>, n: int) -> int
    decreases n,
{
    if n <= 0 {
        -1
    } else if p[n - 1] == '.' {
        n - 1
    } else {
        last_dot(p, n - 1)
    }
}

proof fn lemma_last_dot_bounds(p: Seq<char>, n: int)
    requires
        0 <= n <= p.len(),
    ensures
        -1 <= last_dot(p, n) < n,
    decreases n,
{
    if n > 0 {
        lemma_last_dot_bounds(p, n - 1);
    }
}

/// `name` without its extension.
pub fn file_stem(name: &str) -> (r: String)
    ensures
        r@ == stem_of(name@),
{
    let n = name.unicode_len();
    let mut i: usize = n;
    let mut found = false;
    while !found && i > 0
        invariant
            i <= n,
            n == name@.len(),
            found ==> i > 0 && name@[i - 1] == '.',
            last_dot(name@, n as int) == last_dot(name@, i as int),
        decreases i, if found { 0int } else { 1int },
    {
        if name.get_char(i - 1) == '.' {
            found = true;
        } else {
            i = i - 1;
        }
    }
    proof {
        lemma_last_dot_bounds(name@, n as int);
    }
    if i > 1 {
        name.substring_char(0, i - 1).to_owned()
    } else {
        name.to_owned()
    }
}

pub open spec fn workspace_wildcard() -> Seq<char> {
    seq!['e', 'x', 't', 'e', 'n', 's', 'i', 'o', 'n', 's', '/', '*']
}

pub open spec fn extensions_dir() -> Seq<char> {
    seq!['e', 'x', 't', 'e', 'n', 's', 'i', 'o', 'n', 's', '/']
}

pub open spec fn target_debug() -> Seq<char> {
    seq!['t', 'a', 'r', 'g', 'e', 't', '/', 'd', 'e', 'b', 'u', 'g']
}

/// Whether the host workspace, with these members, contains the extension `name`.
pub open spec fn in_workspace_spec(members: Option<Seq<Seq<char>>>, name: Seq<char>) -> bool {
    match members {
        Some(m) => m.contains(workspace_wildcard()) || m.contains(extensions_dir() + name),
        None => false,
    }
}

/// Where a build of extension `name`, from the crate at `path`, leaves its library.
pub open spec fn build_path(path: Seq<char>, name: Seq<char>, in_ws: bool, h: HostFamily) -> Seq<char> {
    let dir = if in_ws { target_debug() } else { path + seq!['/'] + target_debug() };
    dir + seq!['/'] + prefix_of(h) + name + seq!['.'] + suffix_of(h)
}

/// The manifest builds the crate as both `cdylib` and `rlib`.
pub open spec fn is_dylib_crate(m: CrateManifest) -> bool {
    &&& m.crate_types is Some
    &&& m.crate_types.unwrap().deep_view().contains(seq!['c', 'd', 'y', 'l', 'i', 'b'])
    &&& m.crate_types.unwrap().deep_view().contains(seq!['r', 'l', 'i', 'b'])
}

pub open spec fn members_view(m: Option<&Vec<String>>) -> Option<Seq<Seq<char>>> {
    match m {
        Some(v) => Some(v.deep_view()),
        None => None,
    }
}

impl ExtensionEntry {
    /// A crate extension at `path`, from its manifest and the host workspace's members
    /// (`None` when the host has no workspace). The crate must be built as both `cdylib`
    /// and `rlib`.
    pub fn new_crate(path: &str, manifest: &CrateManifest, workspace_members: Option<&Vec<String>>, h: HostFamily) -> (r: Result<ExtensionEntry, DiscoveryError>)
        ensures
            manifest.package_name is None <==> r matches Err(DiscoveryError::MissingName),
            match r {
                Ok(e) => manifest.package_name is Some && e.name@ == manifest.package_name.unwrap()@
                    && is_dylib_crate(*manifest)
                    && e.crate_path is Some && e.crate_path.unwrap().0@ == path@
                    && e.crate_path.unwrap().1 == in_workspace_spec(members_view(workspace_members), e.name@)
                    && e.file_path@ == build_path(path@, e.name@, in_workspace_spec(members_view(workspace_members), e.name@), h)
                    && e.library is None,
                Err(DiscoveryError::NotDynamicLibrary { name }) => manifest.package_name is Some
                    && name@ == manifest.package_name.unwrap()@ && !is_dylib_crate(*manifest),
                Err(DiscoveryError::MissingName) => true,
                Err(DiscoveryError::NoFileName) => false,
            },
    {
        let name = match &manifest.package_name {
            Some(n) => n,
            None => {
                return Err(DiscoveryError::MissingName);
            },
        };
        let cdylib = String::from_str("cdylib");
        let rlib = String::from_str("rlib");
        proof {
            reveal_strlit("cdylib");
            reveal_strlit("rlib");
            assert(cdylib@ =~= seq!['c', 'd', 'y', 'l', 'i', 'b']);
            assert(rlib@ =~= seq!['r', 'l', 'i', 'b']);
        }
        let is_dylib = match &manifest.crate_types {
            Some(t) => contains_string(t, &cdylib) && contains_string(t, &rlib),
            None => false,
        };
        if !is_dylib {
            return Err(DiscoveryError::NotDynamicLibrary { name: name.clone() });
        }
        let in_ws = match workspace_members {
            Some(m) => {
                let wildcard = String::from_str("extensions/*");
                let mut own = String::from_str("extensions/");
                proof {
                    reveal_strlit("extensions/*");
                    reveal_strlit("extensions/");
                }
                own.append(name.as_str());
                proof {
                    assert(wildcard@ =~= workspace_wildcard());
                    assert(own@ =~= extensions_dir() + name@);
                }
                contains_string(m, &wildcard) || contains_string(m, &own)
            },
            None => false,
        };
        let mut file_path = if in_ws {
            String::new()
        } else {
            let mut d = path.to_owned();
            proof {
                reveal_strlit("/");
            }
            d.append("/");
            d
        };
        proof {
            reveal_strlit("target/debug");
            reveal_strlit("/");
        }
        file_path.append("target/debug");
        file_path.append("/");
        let file = extension_build_filename(name.as_str(), h);
        file_path.append(file.as_str());
        assert(file_path@ =~= build_path(path@, name@, in_ws, h));
        Ok(ExtensionEntry { name: name.clone(), file_path, crate_path: Some((path.to_owned(), in_ws)), library: None })
    }

    /// A precompiled extension: named after its file, which is also its library.
    pub fn new_precompiled(path: &str) -> (r: Result<ExtensionEntry, DiscoveryError>)
        ensures
            file_name_of(path@).len() == 0 <==> r is Err,
            r matches Ok(e) ==> e.name@ == file_name_of(path@) && e.file_path@ == path@
                && e.crate_path is None && e.library is None,
            r matches Err(e) ==> e is NoFileName,
    {
        let name = file_name(path);
        if name.as_str().unicode_len() == 0 {
            return Err(DiscoveryError::NoFileName);
        }
        Ok(ExtensionEntry { name, file_path: path.to_owned(), crate_path: None, library: None })
    }
}

impl LuaExtensionEntry {
    /// A scripted extension, named after the stem of its file.
    pub fn new(path: &str) -> (r: LuaExtensionEntry)
        ensures
            r.name@ == stem_of(file_name_of(path@)),
            r.file_path@ == path@,
            r.library is None,
    {
        let name = file_stem(file_name(path).as_str());
        LuaExtensionEntry { name, file_path: path.to_owned(), library: None }
    }
}

/// The kind of an entry of the extensions directory.
#[derive(Clone, Copy, Debug, PartialEq, Eq, Structural)]
pub enum EntryKind {
    /// A crate to build, one directory per extension.
    Crate,
    /// A precompiled library.
    Precompiled,
    /// A script module.
    Script,
    /// Anything else, or a host extension that is linked statically.
    Skipped,
}

pub open spec fn entry_kind_spec(path: Seq<char>, is_dir: bool, core_paths: Seq<Seq<char>>, h: HostFamily) -> EntryKind {
    if is_dir {
        if core_paths.contains(path) { EntryKind::Skipped } else { EntryKind::Crate }
    } else if has_extension(path, suffix_of(h)) {
        EntryKind::Precompiled
    } else if has_extension(path, seq!['l', 'u', 'a']) {
        EntryKind::Script
    } else {
        EntryKind::Skipped
    }
}

fn path_has_extension(path: &str, ext: &str) -> (r: bool)
    ensures
        r == has_extension(path@, ext@),
{
    let n = path.unicode_len();
    let e = ext.unicode_len();
    if e >= n || n <= e + 1 {
        return false;
    }
    let k = e + 1;
    let mut i: usize = 0;
    while i < k - 1
        invariant
            i <= k - 1,
            k == ext@.len() + 1,
            n == path@.len(),
            n > k,
            forall|j: int| 0 <= j < i ==> path@[n - k + 1 + j] == ext@[j],
        decreases k - 1 - i,
    {
        if path.get_char(n - k + 1 + i) != ext.get_char(i) {
            assert(path@.subrange(n - k, n as int)[i + 1] != (seq!['.'] + ext@)[i + 1]);
            return false;
        }
        i = i + 1;
    }
    if path.get_char(n - k) != '.' {
        assert(path@.subrange(n - k, n as int)[0] != (seq!['.'] + ext@)[0]);
        return false;
    }
    assert(path@.subrange(n - k, n as int) =~= seq!['.'] + ext@);
    path.get_char(n - k - 1) != '/'
}

/// How the directory scan treats an entry at `path`.
pub fn entry_kind(path: &String, is_dir: bool, core_paths: &Vec<String>, h: HostFamily) -> (r: EntryKind)
    ensures
        r == entry_kind_spec(path@, is_dir, core_paths.deep_view(), h),
{
    if is_dir {
        if contains_string(core_paths, path) {
            EntryKind::Skipped
        } else {
            EntryKind::Crate
        }
    } else if path_has_extension(path.as_str(), crate::cache::library_suffix(h)) {
        EntryKind::Precompiled
    } else {
        proof {
            reveal_strlit("lua");
        }
        let lua = "lua";
        assert(lua@ =~= seq!['l', 'u', 'a']);
        if path_has_extension(path.as_str(), lua) {
            EntryKind::Script
        } else {
            EntryKind::Skipped
        }
    }
}

} // verus!
