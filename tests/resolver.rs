use beerpm::ledger::{keep_running, CommandPolicy, FailReason, RunLedger, SkipCause, Start, Status};
use beerpm::package::{Formula, IFormula, IPackage, Package};
use beerpm::plan::plan;
use beerpm::resolve::{next_unknown, resolve, DependencyGraph, ResolveError};

fn pkg(name: &str, deps: &[&str], cmds: &[&str]) -> Package {
    let deps: Vec<String> = deps.iter().map(|d| d.to_string()).collect();
    let cmds: Vec<String> = cmds.iter().map(|c| c.to_string()).collect();
    <Package as IPackage>::new(name, &format!("https://example.org/{}.git", name), deps, <Formula as IFormula>::new(cmds))
}

fn names(g: &DependencyGraph, nodes: &[usize]) -> Vec<String> {
    nodes.iter().map(|&i| g.name(i).clone()).collect()
}

fn group_names(g: &DependencyGraph) -> Vec<Vec<String>> {
    let p = plan(g);
    p.groups.iter().map(|grp| names(g, grp)).collect()
}

fn diamond() -> Vec<Package> {
    vec![
        pkg("A", &["B", "C"], &["make"]),
        pkg("B", &["D"], &["make"]),
        pkg("C", &["D"], &["make"]),
        pkg("D", &[], &["make"]),
    ]
}

#[test]
fn chain_plan_has_three_single_groups() {
    let table = vec![pkg("A", &["B"], &[]), pkg("B", &["C"], &[]), pkg("C", &[], &[])];
    let g = resolve(&"A".to_string(), table).ok().unwrap();
    assert_eq!(g.len(), 3);
    assert_eq!(group_names(&g), vec![vec!["C".to_string()], vec!["B".to_string()], vec!["A".to_string()]]);
}

#[test]
fn web_scenario_two_groups() {
    let table = vec![pkg("web", &["lib-a", "lib-b"], &["make"]), pkg("lib-a", &[], &["make"]), pkg("lib-b", &[], &["make"])];
    let g = resolve(&"web".to_string(), table).ok().unwrap();
    assert_eq!(g.len(), 3);
    let groups = group_names(&g);
    assert_eq!(groups.len(), 2);
    assert_eq!(groups[0], vec!["lib-a".to_string(), "lib-b".to_string()]);
    assert_eq!(groups[1], vec!["web".to_string()]);
    // one clone and one `make` per node
    let p = plan(&g);
    let mut ledger = RunLedger::new(g.len());
    let mut clones = 0;
    let mut makes = 0;
    for id in p.install_order() {
        assert_eq!(ledger.begin(id, false, false), Start::Install);
        clones += 1;
        for c in &g.package(id).formula.install_cmds {
            if c == "make" {
                makes += 1;
            }
        }
        ledger.finish(id, 0);
    }
    assert_eq!(clones, 3);
    assert_eq!(makes, 3);
    let s = ledger.summary();
    assert_eq!((s.succeeded, s.failed, s.skipped), (3, 0, 0));
}

#[test]
fn diamond_resolves_shared_dependency_once() {
    let g = resolve(&"A".to_string(), diamond()).ok().unwrap();
    assert_eq!(g.len(), 4);
    let d: Vec<usize> = (0..g.len()).filter(|&i| g.name(i) == "D").collect();
    assert_eq!(d.len(), 1);
    let d = d[0];
    let b = g.node_named(&"B".to_string()).unwrap();
    let c = g.node_named(&"C".to_string()).unwrap();
    let a = g.node_named(&"A".to_string()).unwrap();
    assert_eq!(g.deps[b], vec![d]);
    assert_eq!(g.deps[c], vec![d]);
    let mut rev = g.dependents[d].clone();
    rev.sort();
    let mut bc = vec![b, c];
    bc.sort();
    assert_eq!(rev, bc);
    let p = plan(&g);
    assert_eq!(p.groups.len(), 3);
    assert_eq!(p.group_of[d], 0);
    assert_eq!(p.group_of[b], 1);
    assert_eq!(p.group_of[c], 1);
    assert_eq!(p.group_of[a], 2);
    let order = p.install_order();
    assert_eq!(order.len(), 4);
    assert_eq!(order.iter().filter(|&&x| x == d).count(), 1);
}

#[test]
fn clone_failure_skips_all_dependents() {
    let g = resolve(&"A".to_string(), diamond()).ok().unwrap();
    let p = plan(&g);
    let d = g.node_named(&"D".to_string()).unwrap();
    let mut ledger = RunLedger::new(g.len());
    let mut cloned: Vec<String> = Vec::new();
    for id in p.install_order() {
        match ledger.begin(id, false, false) {
            Start::Install => {
                cloned.push(g.name(id).clone());
                if id == d {
                    ledger.clone_failed(&g, id);
                } else {
                    ledger.finish(id, 0);
                }
            }
            Start::AlreadyInstalled => panic!("no marker was given"),
            Start::Skip => {}
        }
    }
    assert_eq!(cloned, vec!["D".to_string()]);
    assert_eq!(ledger.get(d), Status::Failed(FailReason::CloneFailed));
    for n in ["A", "B", "C"] {
        let i = g.node_named(&n.to_string()).unwrap();
        assert_eq!(ledger.get(i), Status::Skipped(SkipCause::FailedDependency { failed: d }));
    }
    let s = ledger.summary();
    assert_eq!((s.succeeded, s.failed, s.skipped), (0, 1, 3));
    assert!(!ledger.all_installed());
}

#[test]
fn clone_failure_leaves_unrelated_siblings() {
    let table = vec![pkg("app", &["x", "y"], &[]), pkg("x", &[], &[]), pkg("y", &[], &[])];
    let g = resolve(&"app".to_string(), table).ok().unwrap();
    let x = g.node_named(&"x".to_string()).unwrap();
    let y = g.node_named(&"y".to_string()).unwrap();
    let app = g.node_named(&"app".to_string()).unwrap();
    let mut ledger = RunLedger::new(g.len());
    assert_eq!(ledger.begin(x, false, false), Start::Install);
    ledger.clone_failed(&g, x);
    assert_eq!(ledger.get(y), Status::Pending);
    assert_eq!(ledger.get(app), Status::Skipped(SkipCause::FailedDependency { failed: x }));
    assert_eq!(ledger.begin(y, false, false), Start::Install);
    ledger.finish(y, 2);
    assert_eq!(ledger.get(y), Status::Succeeded { failed_commands: 2 });
    assert_eq!(ledger.begin(app, false, false), Start::Skip);
}

#[test]
fn second_run_installs_nothing() {
    let g = resolve(&"A".to_string(), diamond()).ok().unwrap();
    let p = plan(&g);
    let mut first = RunLedger::new(g.len());
    let mut installed = vec![false; g.len()];
    for id in p.install_order() {
        assert_eq!(first.begin(id, installed[id], false), Start::Install);
        first.finish(id, 0);
        installed[id] = true;
    }
    let mut second = RunLedger::new(g.len());
    let mut clones = 0;
    for id in p.install_order() {
        match second.begin(id, installed[id], false) {
            Start::Install => clones += 1,
            _ => {}
        }
    }
    assert_eq!(clones, 0);
    assert!(second.all_installed());
    for id in 0..g.len() {
        assert_eq!(second.get(id), Status::Skipped(SkipCause::AlreadyInstalled));
    }
    let mut forced = RunLedger::new(g.len());
    assert_eq!(forced.begin(0, true, true), Start::Install);
}

#[test]
fn self_dependency_is_a_cycle() {
    let table = vec![pkg("A", &["A"], &[])];
    match resolve(&"A".to_string(), table) {
        Err(ResolveError::CyclicDependency { path }) => assert_eq!(path, vec!["A".to_string(), "A".to_string()]),
        _ => panic!("expected a cycle"),
    }
}

#[test]
fn longer_cycle_is_reported_with_its_path() {
    let table = vec![pkg("top", &["A"], &[]), pkg("A", &["B"], &[]), pkg("B", &["C"], &[]), pkg("C", &["A"], &[])];
    match resolve(&"top".to_string(), table) {
        Err(ResolveError::CyclicDependency { path }) => {
            assert_eq!(path, vec!["A".to_string(), "B".to_string(), "C".to_string(), "A".to_string()])
        }
        _ => panic!("expected a cycle"),
    }
}

#[test]
fn missing_root_is_unresolved() {
    match resolve(&"ghost".to_string(), vec![pkg("A", &[], &[])]) {
        Err(ResolveError::UnresolvedDependency { name, requested_by }) => {
            assert_eq!(name, "ghost");
            assert_eq!(requested_by, None);
        }
        _ => panic!("expected an unresolved root"),
    }
}

#[test]
fn missing_dependency_names_its_requester() {
    match resolve(&"A".to_string(), vec![pkg("A", &["B"], &[]), pkg("B", &["Z"], &[])]) {
        Err(ResolveError::UnresolvedDependency { name, requested_by }) => {
            assert_eq!(name, "Z");
            assert_eq!(requested_by, Some("B".to_string()));
        }
        _ => panic!("expected an unresolved dependency"),
    }
}

#[test]
fn unreachable_manifests_stay_out_of_the_graph() {
    let table = vec![pkg("lone", &[], &[]), pkg("A", &["B"], &[]), pkg("B", &[], &[])];
    let g = resolve(&"A".to_string(), table).ok().unwrap();
    assert_eq!(g.len(), 2);
    assert_eq!(g.name(g.len() - 1), "A");
    assert_eq!(g.node_named(&"lone".to_string()), None);
}

#[test]
fn next_unknown_walks_the_table() {
    let root = "web".to_string();
    let mut table: Vec<Package> = Vec::new();
    let q = next_unknown(&root, &table).unwrap();
    assert_eq!(q.name, "web");
    assert_eq!(q.requested_by, None);
    table.push(pkg("web", &["lib-a", "lib-b"], &[]));
    let q = next_unknown(&root, &table).unwrap();
    assert_eq!(q.name, "lib-a");
    assert_eq!(q.requested_by, Some("web".to_string()));
    table.push(pkg("lib-a", &[], &[]));
    assert_eq!(next_unknown(&root, &table).unwrap().name, "lib-b");
    table.push(pkg("lib-b", &["lib-a"], &[]));
    assert!(next_unknown(&root, &table).is_none());
}

#[test]
fn ledger_transitions_only_move_forward() {
    let mut l = RunLedger::new(2);
    assert_eq!(l.len(), 2);
    assert!(!l.record(0, Status::Pending));
    assert!(l.record(0, Status::InProgress));
    assert!(!l.record(0, Status::InProgress));
    assert!(l.record(0, Status::Succeeded { failed_commands: 0 }));
    assert!(!l.record(0, Status::Failed(FailReason::CloneFailed)));
    assert_eq!(l.get(0), Status::Succeeded { failed_commands: 0 });
    assert!(l.record(1, Status::Skipped(SkipCause::AlreadyInstalled)));
    assert_eq!(l.begin(1, false, true), Start::Skip);
    let s = l.summary();
    assert_eq!((s.succeeded, s.failed, s.skipped), (1, 0, 1));
}

#[test]
fn command_policy_decides_continuation() {
    assert!(keep_running(CommandPolicy::ContinueOnError, false));
    assert!(!keep_running(CommandPolicy::StopOnError, false));
    assert!(keep_running(CommandPolicy::StopOnError, true));
}

#[test]
fn empty_package_placeholder() {
    let p = <Package as IPackage>::empty_package();
    assert_eq!(p.name, "default");
    assert_eq!(p.git_repository, "empty");
    assert!(p.dependencies.is_empty());
    assert_eq!(p.formula.install_cmds, vec!["empty".to_string()]);
}
