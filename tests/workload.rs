use eeks::extension::{DirtyLevel, ExtensionEntry, ExtensionLibrary, ExtensionStorages, ExtensionSystemsLoader};
use eeks::registry::{ExtensionRegistry, RegistryError, SystemIndex};
use eeks::system::ExtensionSystem;
use eeks::workload::{compile_group, construct_run_order, group_deps, WorkloadError};

fn sys(group: &str, id: &str) -> ExtensionSystem {
    ExtensionSystem::new(group, id)
}

fn ids(err: &WorkloadError) -> Vec<String> {
    match err {
        WorkloadError::CycleInWorkload { systems, .. } => systems.clone(),
        _ => panic!("not a cycle"),
    }
}

#[test]
fn run_after_chain_orders_stages() {
    let a = sys("tick", "a_sys");
    let mut b = sys("tick", "b_sys");
    b.run_after("a_sys");
    let members = vec![&a, &b];
    let (deps, stages) = compile_group(&"tick".to_string(), &members).ok().unwrap();
    assert_eq!(deps, vec![vec![], vec![0]]);
    assert_eq!(stages, vec![vec![0], vec![1]]);
}

#[test]
fn run_before_inverts_order() {
    let a = sys("tick", "a_sys");
    let mut b = sys("tick", "b_sys");
    b.run_before("a_sys");
    let members = vec![&a, &b];
    let (deps, stages) = compile_group(&"tick".to_string(), &members).ok().unwrap();
    assert_eq!(deps, vec![vec![1], vec![]]);
    assert_eq!(stages, vec![vec![1], vec![0]]);
}

#[test]
fn cycle_is_diagnosed() {
    let mut a = sys("tick", "a_sys");
    a.run_after("b_sys");
    let mut b = sys("tick", "b_sys");
    b.run_after("a_sys");
    let members = vec![&a, &b];
    let err = compile_group(&"tick".to_string(), &members).err().unwrap();
    assert_eq!(ids(&err), vec!["a_sys".to_string(), "b_sys".to_string()]);
    match err {
        WorkloadError::CycleInWorkload { group, waiting_on, .. } => {
            assert_eq!(group, "tick");
            assert_eq!(waiting_on, vec![vec!["b_sys".to_string()], vec!["a_sys".to_string()]]);
        }
        _ => panic!(),
    }
}

#[test]
fn missing_dependency_is_reported() {
    let mut a = sys("tick", "a_sys");
    a.run_after("nowhere");
    let members = vec![&a];
    match group_deps(&members) {
        Err(WorkloadError::MissingDependency { system, dependency }) => {
            assert_eq!(system, "a_sys");
            assert_eq!(dependency, "nowhere");
        }
        _ => panic!("expected a missing dependency"),
    }
}

#[test]
fn self_dependency_is_a_cycle() {
    let mut a = sys("tick", "a_sys");
    a.run_after("a_sys");
    let members = vec![&a];
    let err = compile_group(&"tick".to_string(), &members).err().unwrap();
    assert_eq!(ids(&err), vec!["a_sys".to_string()]);
}

#[test]
fn empty_group_has_one_empty_stage() {
    assert_eq!(construct_run_order(&vec![]).ok().unwrap(), vec![Vec::<usize>::new()]);
}

#[test]
fn layering_groups_independent_systems() {
    // 0 and 1 are free, 2 needs 0, 3 needs 2 and 1
    let deps = vec![vec![], vec![], vec![0], vec![2, 1]];
    assert_eq!(construct_run_order(&deps).ok().unwrap(), vec![vec![0, 1], vec![2], vec![3]]);
}

#[test]
fn run_order_cycle_lists_stuck_members() {
    let deps = vec![vec![], vec![2], vec![1], vec![0]];
    assert_eq!(construct_run_order(&deps).err().unwrap(), vec![1, 2]);
}

fn loaded_entry(name: &str, systems: Vec<ExtensionSystem>, deps: Vec<String>) -> ExtensionEntry {
    let mut lib = ExtensionLibrary::new(10, deps, systems);
    lib.load(ExtensionStorages::new());
    ExtensionEntry {
        name: name.to_string(),
        file_path: format!("target/debug/lib{name}.so"),
        crate_path: Some((format!("extensions/{name}"), true)),
        library: Some(lib),
    }
}

#[test]
fn registry_workloads_span_extensions() {
    let mut reg = ExtensionRegistry::new();
    reg.extensions.push(loaded_entry("a", vec![sys("tick", "a_sys")], vec![]));
    let mut b = sys("tick", "b_sys");
    b.run_after("a_sys");
    reg.extensions.push(loaded_entry("b", vec![b], vec![]));
    reg.core_systems.push(sys("render", "core_sys"));
    assert!(reg.rebuild_workloads().is_ok());
    assert_eq!(reg.workloads.len(), 2);
    let tick = reg.workloads.iter().find(|w| w.group == "tick").unwrap();
    assert_eq!(tick.systems, vec![SystemIndex::External(0, 0), SystemIndex::External(1, 0)]);
    assert_eq!(tick.stages, vec![vec![0], vec![1]]);
    let render = reg.workloads.iter().find(|w| w.group == "render").unwrap();
    assert_eq!(render.systems, vec![SystemIndex::Core(0)]);
    assert_eq!(render.stages, vec![vec![0]]);
}

#[test]
fn duplicate_system_ids_are_refused() {
    let mut reg = ExtensionRegistry::new();
    reg.extensions.push(loaded_entry("a", vec![sys("tick", "same")], vec![]));
    reg.extensions.push(loaded_entry("b", vec![sys("other", "same")], vec![]));
    match reg.rebuild_workloads() {
        Err(WorkloadError::DuplicateSystem { id }) => assert_eq!(id, "same"),
        _ => panic!("expected a duplicate"),
    }
    assert!(reg.workloads.is_empty());
}

#[test]
fn one_extension_one_stage() {
    let mut reg = ExtensionRegistry::new();
    reg.extensions.push(loaded_entry("foo", vec![sys("tick", "foo_sys")], vec![]));
    assert!(reg.rebuild_workloads().is_ok());
    assert_eq!(reg.workloads.len(), 1);
    assert_eq!(reg.workloads[0].stages, vec![vec![0]]);
}

#[test]
fn systems_loader_collects_constraints() {
    let mut loader = ExtensionSystemsLoader::new();
    loader.system("tick", "x").run_after("y").run_before("z");
    assert_eq!(loader.systems.len(), 1);
    assert_eq!(loader.systems[0].group, "tick");
    assert_eq!(loader.systems[0].id, "x");
    assert_eq!(loader.systems[0].run_after, vec!["y".to_string()]);
    assert_eq!(loader.systems[0].run_before, vec!["z".to_string()]);
}

#[test]
fn batched_build_for_several_workspace_rebuilds() {
    let mut reg = ExtensionRegistry::new();
    for name in ["a", "b", "c"] {
        reg.extensions.push(ExtensionEntry {
            name: name.to_string(),
            file_path: format!("target/debug/lib{name}.so"),
            crate_path: Some((format!("extensions/{name}"), true)),
            library: None,
        });
    }
    let levels = vec![DirtyLevel::Rebuild; 3];
    let plan = reg.plan_reload(&levels, &vec![], true).ok().unwrap();
    assert!(plan.batch_build);
    assert_eq!(plan.queue, vec![0, 1, 2]);
    assert_eq!(plan.order, vec![vec![0, 1, 2]]);
    let plan = reg.plan_reload(&levels, &vec![], false).ok().unwrap();
    assert!(!plan.batch_build);
}

#[test]
fn clean_pass_plans_nothing() {
    let mut reg = ExtensionRegistry::new();
    reg.extensions.push(loaded_entry("a", vec![], vec![]));
    reg.extensions.push(loaded_entry("b", vec![], vec![]));
    let plan = reg.plan_reload(&vec![DirtyLevel::Clean, DirtyLevel::Clean], &vec![false], true).ok().unwrap();
    assert!(plan.queue.is_empty());
    assert!(!plan.batch_build);
    assert!(plan.lua_queue.is_empty());
}

#[test]
fn load_dependencies_order_the_queue() {
    let mut reg = ExtensionRegistry::new();
    reg.extensions.push(loaded_entry("light", vec![], vec!["chunks".to_string()]));
    reg.extensions.push(loaded_entry("chunks", vec![], vec![]));
    let plan = reg.plan_reload(&vec![DirtyLevel::Reload, DirtyLevel::Rebuild], &vec![true, false], true).ok().unwrap();
    assert_eq!(plan.queue, vec![0, 1]);
    assert_eq!(plan.order, vec![vec![1], vec![0]]);
    assert_eq!(plan.lua_queue, vec![0]);
    assert!(!plan.batch_build);
}

#[test]
fn load_dependency_cycle_is_fatal() {
    let mut reg = ExtensionRegistry::new();
    reg.extensions.push(loaded_entry("a", vec![], vec!["b".to_string()]));
    reg.extensions.push(loaded_entry("b", vec![], vec!["a".to_string()]));
    match reg.plan_reload(&vec![DirtyLevel::Reload, DirtyLevel::Reload], &vec![], true) {
        Err(RegistryError::DependencyCycle { names }) => assert_eq!(names, vec!["a".to_string(), "b".to_string()]),
        _ => panic!("expected a cycle"),
    }
}

#[test]
fn dispatch_runs_stages_in_order() {
    let mut reg = ExtensionRegistry::new();
    let mut b = sys("tick", "b_sys");
    b.run_after("a_sys");
    reg.extensions.push(loaded_entry("x", vec![b, sys("tick", "a_sys")], vec![]));
    reg.core_systems.push(sys("tick", "c_sys"));
    assert!(reg.rebuild_workloads().is_ok());
    let order = reg.dispatch_order(&"tick".to_string()).unwrap();
    assert_eq!(order, vec![SystemIndex::External(0, 1), SystemIndex::Core(0), SystemIndex::External(0, 0)]);
    assert!(reg.dispatch_order(&"render".to_string()).is_none());
    let info = reg.workload_info();
    assert_eq!(info.len(), 1);
    assert_eq!(info[0].0, "tick");
    let names: Vec<&String> = info[0].1.iter().map(|(n, _)| *n).collect();
    assert_eq!(names, vec!["b_sys", "a_sys", "c_sys"]);
    assert_eq!(info[0].1[0].1, &vec![1]);
    assert_eq!(info[0].2, &vec![vec![1, 2], vec![0]]);
}

#[test]
fn registry_cycle_names_group_members() {
    let mut reg = ExtensionRegistry::new();
    let mut a = sys("tick", "a_sys");
    a.run_after("b_sys");
    let mut b = sys("tick", "b_sys");
    b.run_after("a_sys");
    reg.extensions.push(loaded_entry("a", vec![a], vec![]));
    reg.extensions.push(loaded_entry("b", vec![b], vec![]));
    match reg.rebuild_workloads() {
        Err(WorkloadError::CycleInWorkload { group, systems, waiting_on }) => {
            assert_eq!(group, "tick");
            assert_eq!(systems, vec!["a_sys".to_string(), "b_sys".to_string()]);
            assert_eq!(waiting_on, vec![vec!["b_sys".to_string()], vec!["a_sys".to_string()]]);
        }
        _ => panic!("expected a cycle"),
    }
}

#[test]
fn one_workload_per_group() {
    let mut reg = ExtensionRegistry::new();
    reg.extensions.push(loaded_entry("a", vec![sys("tick", "a1"), sys("draw", "a2")], vec![]));
    reg.extensions.push(loaded_entry("b", vec![sys("tick", "b1")], vec![]));
    assert!(reg.rebuild_workloads().is_ok());
    let groups: Vec<&String> = reg.workloads.iter().map(|w| &w.group).collect();
    assert_eq!(groups, vec!["tick", "draw"]);
    assert_eq!(reg.workloads[0].systems, vec![SystemIndex::External(0, 0), SystemIndex::External(1, 0)]);
    assert_eq!(reg.workloads[0].stages, vec![vec![0, 1]]);
}

#[test]
fn removing_recompiles_workloads() {
    let mut reg = ExtensionRegistry::new();
    reg.extensions.push(loaded_entry("a", vec![sys("tick", "a_sys")], vec![]));
    reg.extensions.push(loaded_entry("b", vec![sys("tick", "b_sys")], vec![]));
    assert!(reg.rebuild_workloads().is_ok());
    assert!(matches!(reg.remove(&"target/debug/liba.so".to_string()), Ok((Some(_), Ok(())))));
    assert_eq!(reg.workloads.len(), 1);
    assert_eq!(reg.workloads[0].systems, vec![SystemIndex::External(0, 0)]);
}

#[test]
fn declared_dependencies_order_a_cold_start() {
    let mut reg = ExtensionRegistry::new();
    for name in ["light", "chunks", "terrain"] {
        reg.extensions.push(ExtensionEntry {
            name: name.to_string(),
            file_path: format!("target/debug/lib{name}.so"),
            crate_path: None,
            library: None,
        });
    }
    let queue = vec![0, 1, 2];
    let declared = vec![vec!["chunks".to_string(), "terrain".to_string()], vec![], vec!["chunks".to_string()]];
    assert_eq!(reg.order_by_declared(&queue, &declared).ok().unwrap(), vec![vec![1], vec![2], vec![0]]);
    let cyclic = vec![vec!["chunks".to_string()], vec!["light".to_string()], vec![]];
    match reg.order_by_declared(&queue, &cyclic) {
        Err(RegistryError::DependencyCycle { names }) => assert_eq!(names, vec!["light".to_string(), "chunks".to_string()]),
        _ => panic!("expected a cycle"),
    }
}

#[test]
fn removal_that_leaves_a_dangling_dependency_clears_workloads() {
    let mut reg = ExtensionRegistry::new();
    reg.extensions.push(loaded_entry("a", vec![sys("tick", "a_sys")], vec![]));
    let mut b = sys("tick", "b_sys");
    b.run_after("a_sys");
    reg.extensions.push(loaded_entry("b", vec![b], vec![]));
    assert!(reg.rebuild_workloads().is_ok());
    match reg.remove(&"target/debug/liba.so".to_string()) {
        Ok((Some(_), Err(WorkloadError::MissingDependency { system, dependency }))) => {
            assert_eq!(system, "b_sys");
            assert_eq!(dependency, "a_sys");
        }
        _ => panic!("expected a missing dependency"),
    }
    assert!(reg.workloads.is_empty());
    assert_eq!(reg.extensions.len(), 1);
}
