use eeks::cache::{artifact_file_name, extension_build_filename, hit, lookup, parse_u64, plan_activation, read_artifact_stamp, removes_previous, HostFamily};
use eeks::chunks::{insertion_sort_by_key, ChunkLoadingComponent};
use eeks::discovery::{dep_file_paths, entry_kind, file_name, file_stem, CrateManifest, DiscoveryError, EntryKind};
use eeks::env::{check_environment_boolean, parse_flag_folded, RuntimeSettings};
use eeks::extension::{DepManifest, DirtyError, DirtyLevel, ExtensionEntry, ExtensionLibrary, ExtensionStorageLoader, ExtensionStorages, ExtensionSystemsLoader, SourceProbe};
use eeks::registry::{CommandError, CommandRoute, ExtensionRegistry, LuaExtensionEntry, LuaExtensionLibrary, RegistryError};
use eeks::storage::check_restorable;
use eeks::terrain::GenerationError;

fn crate_entry(name: &str) -> ExtensionEntry {
    ExtensionEntry {
        name: name.to_string(),
        file_path: format!("target/debug/lib{name}.so"),
        crate_path: Some((format!("extensions/{name}"), true)),
        library: None,
    }
}

fn probe(files: Vec<u64>, manifest: u64, deps: DepManifest) -> SourceProbe {
    SourceProbe { file_times: files, manifest_time: manifest, deps }
}

#[test]
fn cold_start_needs_rebuild() {
    let e = crate_entry("foo");
    let p = probe(vec![100, 150], 120, DepManifest::Absent);
    assert_eq!(e.dirty_level(Some(&p), None, 999), Ok((DirtyLevel::Rebuild, 150)));
}

#[test]
fn fresh_artifact_needs_reload() {
    let e = crate_entry("foo");
    let p = probe(vec![100], 120, DepManifest::Listed(vec![90, 130]));
    assert_eq!(e.dirty_level(Some(&p), Some(200), 999), Ok((DirtyLevel::Reload, 200)));
    assert_eq!(e.dirty_level(Some(&p), Some(110), 999), Ok((DirtyLevel::Rebuild, 130)));
}

#[test]
fn loaded_extension_stays_clean() {
    let mut e = crate_entry("foo");
    let mut lib = ExtensionLibrary::new(300, vec![], vec![]);
    lib.load(ExtensionStorages::new());
    e.activate(lib);
    assert!(e.active());
    let p = probe(vec![100], 120, DepManifest::Absent);
    assert_eq!(e.dirty_level(Some(&p), Some(200), 1000), Ok((DirtyLevel::Clean, 300)));
    assert_eq!(e.dirty_level(Some(&p), Some(200), 2000), Ok((DirtyLevel::Clean, 300)));
    // a source edit after the library was read
    let touched = probe(vec![100, 400], 120, DepManifest::Absent);
    assert_eq!(e.dirty_level(Some(&touched), Some(200), 2000), Ok((DirtyLevel::Rebuild, 400)));
}

#[test]
fn unreadable_dep_file_forces_rebuild_now() {
    let e = crate_entry("foo");
    let p = probe(vec![100], 120, DepManifest::Unreadable);
    assert_eq!(e.dirty_level(Some(&p), Some(200), 777), Ok((DirtyLevel::Rebuild, 777)));
}

#[test]
fn nothing_to_load_is_an_error() {
    let e = crate_entry("foo");
    assert_eq!(e.dirty_level(None, None, 1), Err(DirtyError::NoSources));
    assert_eq!(e.dirty_level(None, Some(5), 1), Ok((DirtyLevel::Reload, 5)));
}

#[test]
fn build_file_names_per_host() {
    assert_eq!(extension_build_filename("foo", HostFamily::Linux), "libfoo.so");
    assert_eq!(extension_build_filename("foo", HostFamily::MacOs), "libfoo.dylib");
    assert_eq!(extension_build_filename("foo", HostFamily::Windows), "foo.dll");
}

#[test]
fn artifact_names_round_trip() {
    let name = artifact_file_name(1_700_000_000_123_456_789, HostFamily::Linux);
    assert_eq!(name, "1700000000123456789.so");
    assert_eq!(read_artifact_stamp(&name, HostFamily::Linux), Some(1_700_000_000_123_456_789));
    assert_eq!(read_artifact_stamp(&name, HostFamily::Windows), None);
    assert_eq!(artifact_file_name(0, HostFamily::Windows), "0.dll");
    assert_eq!(read_artifact_stamp("abc.so", HostFamily::Linux), None);
    assert_eq!(read_artifact_stamp(".so", HostFamily::Linux), None);
}

#[test]
fn decimal_stems() {
    assert_eq!(parse_u64("42"), Some(42));
    assert_eq!(parse_u64("+7"), Some(7));
    assert_eq!(parse_u64(""), None);
    assert_eq!(parse_u64("+"), None);
    assert_eq!(parse_u64("12a"), None);
    assert_eq!(parse_u64("18446744073709551615"), Some(u64::MAX));
    assert_eq!(parse_u64("18446744073709551616"), None);
}

#[test]
fn cache_lookup_and_hit() {
    let files = vec!["notes.txt".to_string(), "55.so".to_string(), "66.so".to_string()];
    assert_eq!(lookup(&files, HostFamily::Linux), Some((55, 1)));
    assert_eq!(lookup(&files, HostFamily::MacOs), None);
    assert!(hit(Some(55), 55));
    assert!(!hit(Some(54), 55));
    assert!(!hit(None, 0));
    let new = "70.so".to_string();
    let old = "55.so".to_string();
    assert!(removes_previous(Some(&old), &new));
    assert!(!removes_previous(Some(&new), &new));
    assert!(!removes_previous(None, &new));
}

#[test]
fn environment_flags() {
    assert!(check_environment_boolean(Some("TRUE"), false));
    assert!(!check_environment_boolean(Some("False"), true));
    assert!(check_environment_boolean(Some("maybe"), true));
    assert!(!check_environment_boolean(Some("maybe"), false));
    assert!(check_environment_boolean(None, true));
    assert!(parse_flag_folded("true", false));
    assert!(!parse_flag_folded("TRUE", false));
    let s = RuntimeSettings::from_values(None, Some("FALSE"), Some("nope"));
    assert!(s.sccache);
    assert!(!s.deep_checking);
    assert!(s.batched);
}

#[test]
fn dep_files_list_paths() {
    let got = dep_file_paths("/t/libfoo.so: /a/lib.rs /a/b.rs\n").unwrap();
    assert_eq!(got, vec!["/a/lib.rs".to_string(), "/a/b.rs".to_string()]);
    assert_eq!(dep_file_paths("no separator\n"), None);
    assert_eq!(dep_file_paths("x: a b"), None);
    assert_eq!(dep_file_paths("x: a:  b\n").unwrap(), vec!["a:".to_string(), "".to_string(), "b".to_string()]);
}

#[test]
fn paths_and_stems() {
    assert_eq!(file_name("extensions/light.so"), "light.so");
    assert_eq!(file_name("plain"), "plain");
    assert_eq!(file_stem("tools.lua"), "tools");
    assert_eq!(file_stem(".hidden"), ".hidden");
    assert_eq!(file_stem("a.b.lua"), "a.b");
    let l = LuaExtensionEntry::new("extensions/tools.lua");
    assert_eq!(l.name, "tools");
    assert!(!l.active());
}

#[test]
fn directory_entries_are_classified() {
    let core = vec!["/w/extensions/pinecore".to_string()];
    let h = HostFamily::Linux;
    assert_eq!(entry_kind(&"/w/extensions/chunks".to_string(), true, &core, h), EntryKind::Crate);
    assert_eq!(entry_kind(&"/w/extensions/pinecore".to_string(), true, &core, h), EntryKind::Skipped);
    assert_eq!(entry_kind(&"/w/extensions/light.so".to_string(), false, &core, h), EntryKind::Precompiled);
    assert_eq!(entry_kind(&"/w/extensions/tools.lua".to_string(), false, &core, h), EntryKind::Script);
    assert_eq!(entry_kind(&"/w/extensions/readme.md".to_string(), false, &core, h), EntryKind::Skipped);
    assert_eq!(entry_kind(&"/w/extensions/.so".to_string(), false, &core, h), EntryKind::Skipped);
}

#[test]
fn crate_extensions_from_manifests() {
    let m = CrateManifest {
        package_name: Some("foo".to_string()),
        crate_types: Some(vec!["cdylib".to_string(), "rlib".to_string()]),
    };
    let members = vec!["extensions/*".to_string()];
    let e = ExtensionEntry::new_crate("extensions/foo", &m, Some(&members), HostFamily::Linux).ok().unwrap();
    assert_eq!(e.name, "foo");
    assert_eq!(e.file_path, "target/debug/libfoo.so");
    assert_eq!(e.crate_path, Some(("extensions/foo".to_string(), true)));
    let e = ExtensionEntry::new_crate("/x/foo", &m, None, HostFamily::Linux).ok().unwrap();
    assert_eq!(e.file_path, "/x/foo/target/debug/libfoo.so");
    assert_eq!(e.crate_path, Some(("/x/foo".to_string(), false)));
    let only = vec!["extensions/foo".to_string()];
    let e = ExtensionEntry::new_crate("extensions/foo", &m, Some(&only), HostFamily::Linux).ok().unwrap();
    assert_eq!(e.crate_path, Some(("extensions/foo".to_string(), true)));

    let rlib_only = CrateManifest { package_name: Some("bar".to_string()), crate_types: Some(vec!["rlib".to_string()]) };
    match ExtensionEntry::new_crate("extensions/bar", &rlib_only, None, HostFamily::Linux) {
        Err(DiscoveryError::NotDynamicLibrary { name }) => assert_eq!(name, "bar"),
        _ => panic!("expected a refusal"),
    }
    let nameless = CrateManifest { package_name: None, crate_types: None };
    assert!(matches!(ExtensionEntry::new_crate("x", &nameless, None, HostFamily::Linux), Err(DiscoveryError::MissingName)));
    let p = ExtensionEntry::new_precompiled("extensions/light.so").ok().unwrap();
    assert_eq!(p.name, "light.so");
    assert_eq!(p.file_path, "extensions/light.so");
    assert!(matches!(ExtensionEntry::new_precompiled("extensions/"), Err(DiscoveryError::NoFileName)));
}

#[test]
fn first_load_progress_snapshots() {
    let mut reg = ExtensionRegistry::new();
    reg.extensions.push(crate_entry("foo"));
    let start = reg.load_status(&vec![0]);
    assert_eq!(start.to_load, vec![("foo".to_string(), true)]);
    assert!(start.loaded.is_empty());
    let done = reg.load_status(&vec![]);
    assert!(done.to_load.is_empty());
    assert_eq!(done.loaded, vec!["foo".to_string()]);
}

fn registry_with_script() -> ExtensionRegistry {
    let mut reg = ExtensionRegistry::new();
    reg.lua_extensions.push(LuaExtensionEntry { name: "idle".to_string(), file_path: "idle.lua".to_string(), library: None });
    reg.lua_extensions.push(LuaExtensionEntry {
        name: "tools".to_string(),
        file_path: "tools.lua".to_string(),
        library: Some(LuaExtensionLibrary { read_at: 5, systems: vec![], commands: vec!["spawn".to_string(), "component".to_string()] }),
    });
    reg
}

#[test]
fn commands_are_routed() {
    let reg = registry_with_script();
    let cmd = |v: &[&str]| v.iter().map(|s| s.to_string()).collect::<Vec<_>>();
    assert_eq!(reg.route_command(&cmd(&["component", "list"])), Ok(CommandRoute::World));
    assert_eq!(reg.route_command(&cmd(&["resource"])), Ok(CommandRoute::World));
    assert_eq!(reg.route_command(&cmd(&["spawn", "3"])), Ok(CommandRoute::Script(1)));
    assert_eq!(reg.route_command(&cmd(&["fly"])), Err(CommandError::NotFound));
    assert_eq!(reg.route_command(&vec![]), Err(CommandError::Empty));
}

#[test]
fn script_dirtiness() {
    let reg = registry_with_script();
    assert!(reg.lua_extensions[0].dirty(0));
    assert!(reg.lua_extensions[1].dirty(6));
    assert!(!reg.lua_extensions[1].dirty(5));
}

#[test]
fn hard_reload_surrenders_and_restores() {
    let mut reg = ExtensionRegistry::new();
    reg.extensions.push(crate_entry("foo"));
    let mut loader = ExtensionStorageLoader::new();
    loader.component("Foo").resource("FooSettings");
    let mut lib = ExtensionLibrary::new(10, vec![], vec![]);
    lib.load(loader.storages);
    reg.finish_activation(0, lib);
    assert!(reg.extensions[0].active());
    let surrendered = reg.begin_hard_reload(0).unwrap();
    assert!(!reg.extensions[0].active());
    assert_eq!(surrendered.components, vec!["Foo".to_string()]);
    assert_eq!(surrendered.resources, vec!["FooSettings".to_string()]);
    let mut again = ExtensionStorageLoader::new();
    again.component("Foo").resource("FooSettings");
    assert!(check_restorable(&surrendered, &again.storages).is_ok());
    let mut partial = ExtensionStorageLoader::new();
    partial.component("Foo");
    match check_restorable(&surrendered, &partial.storages) {
        Err(RegistryError::MissingStorage { id }) => assert_eq!(id, "FooSettings"),
        _ => panic!("expected a missing storage"),
    }
}

#[test]
fn removing_extensions() {
    let mut reg = ExtensionRegistry::new();
    reg.extensions.push(crate_entry("a"));
    reg.extensions.push(crate_entry("b"));
    assert!(matches!(reg.remove(&"target/debug/libc.so".to_string()), Err(RegistryError::NotFound)));
    assert!(matches!(reg.remove(&"target/debug/liba.so".to_string()), Ok((None, Ok(())))));
    assert_eq!(reg.extensions.len(), 1);
    assert_eq!(reg.extensions[0].name, "b");
}

#[test]
fn chunk_loader_defaults() {
    let c = ChunkLoadingComponent::new(5);
    assert_eq!(c.radius, 5);
    assert_eq!(c.tolerence, 2);
}

#[test]
fn sort_by_key_is_stable() {
    let mut v = vec![(1u64, 3i32), (2, 1), (3, 3), (4, 0), (5, 1)];
    insertion_sort_by_key(&mut v, |p: &(u64, i32)| p.1 as i64);
    assert_eq!(v, vec![(4, 0), (2, 1), (5, 1), (1, 3), (3, 3)]);
    let mut empty: Vec<(u64, i32)> = vec![];
    insertion_sort_by_key(&mut empty, |p: &(u64, i32)| p.1 as i64);
    assert!(empty.is_empty());
}

#[test]
fn torchlight_extension_declarations() {
    assert_eq!(eeks::light::dependencies(), vec!["chunks".to_string(), "terrain".to_string()]);
    let mut loader = ExtensionSystemsLoader::new();
    eeks::light::systems(&mut loader);
    assert_eq!(loader.systems.len(), 4);
    assert_eq!(loader.systems[0].run_after, vec!["chunk_loading_system".to_string()]);
    assert_eq!(loader.systems[3].run_before, vec!["player_spawned".to_string()]);
    let mut storages = ExtensionStorageLoader::new();
    eeks::light::load(&mut storages);
    assert_eq!(storages.storages.resources, vec!["TorchLightChunksResource".to_string()]);
    assert_eq!(storages.storages.components, vec!["TorchLightModifierComponent".to_string()]);
}

#[test]
fn generation_error_message() {
    let e = GenerationError::BlockNotFoundError("stone".to_string());
    assert_eq!(e.message(), "failed to find block entry for 'stone'");
}

#[test]
fn sort_keeps_equal_keys_in_order() {
    let mut v = vec![(0u64, 3i64), (1, 1), (2, 2), (3, 1)];
    insertion_sort_by_key(&mut v, |p: &(u64, i64)| p.1);
    assert_eq!(v, vec![(1, 1), (3, 1), (2, 2), (0, 3)]);
}

#[test]
fn activation_decisions() {
    let a = plan_activation(DirtyLevel::Rebuild, 100, None, true, false);
    assert!(a.build);
    assert_eq!(a.cached, None);
    let a = plan_activation(DirtyLevel::Rebuild, 100, Some((100, 2)), true, false);
    assert!(!a.build);
    assert_eq!(a.cached, Some(2));
    let a = plan_activation(DirtyLevel::Rebuild, 100, Some((99, 0)), true, true);
    assert!(!a.build);
    assert_eq!(a.cached, None);
    // a workspace-wide build does not build a crate outside the workspace
    let a = plan_activation(DirtyLevel::Rebuild, 100, Some((99, 0)), false, true);
    assert!(a.build);
    let a = plan_activation(DirtyLevel::Reload, 100, Some((99, 0)), false, false);
    assert!(!a.build);
}
