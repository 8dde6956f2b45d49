use folder_engine::config::ConfigError;
use folder_engine::engine::FolderEngine;
use folder_engine::folder::Folder;
use folder_engine::groups::GroupTable;

fn leaf(name: &str) -> Folder {
    Folder::Final(String::from(name))
}

fn interior(name: &str, children: Vec<Folder>) -> Folder {
    Folder::TopLevel(String::from(name), children)
}

#[test]
fn single_leaf_issues_one_call_at_root() {
    let table = GroupTable::new();
    let mut engine = FolderEngine::new(&table);
    engine.create_folders(&vec![leaf("s")]).unwrap();
    assert_eq!(engine.plan, vec!["./s"]);
}

#[test]
fn parent_call_precedes_children_calls() {
    let table = GroupTable::new();
    let mut engine = FolderEngine::new(&table);
    engine
        .create_folders(&vec![interior("b", vec![leaf("c"), leaf("d")])])
        .unwrap();
    assert_eq!(engine.plan, vec!["./b", "./b/c", "./b/d"]);
}

#[test]
fn nested_interiors_extend_the_path() {
    let table = GroupTable::new();
    let mut engine = FolderEngine::new(&table);
    engine
        .create_folders(&vec![interior(
            "a",
            vec![interior("b", vec![leaf("c")]), leaf("e")],
        )])
        .unwrap();
    assert_eq!(engine.plan, vec!["./a", "./a/b", "./a/b/c", "./a/e"]);
}

#[test]
fn group_expansion_reuses_the_current_depth() {
    // materializing the reference produces exactly what materializing the
    // group's own list produces: no path segment for the reference itself
    let mut table = GroupTable::new();
    table.insert(
        String::from("g"),
        vec![leaf("x"), interior("y", vec![leaf("z")])],
    );

    let mut by_reference = FolderEngine::new(&table);
    by_reference.create_folders(&vec![leaf("g")]).unwrap();

    let mut directly = FolderEngine::new(&table);
    directly
        .create_folders(&vec![leaf("x"), interior("y", vec![leaf("z")])])
        .unwrap();

    assert_eq!(by_reference.plan, vec!["./x", "./y", "./y/z"]);
    assert_eq!(by_reference.plan, directly.plan);
}

#[test]
fn group_expansion_inside_an_interior() {
    let mut table = GroupTable::new();
    table.insert(String::from("shared"), vec![leaf("x"), leaf("y")]);
    let mut engine = FolderEngine::new(&table);
    engine
        .create_folders(&vec![interior("top", vec![leaf("shared")])])
        .unwrap();
    assert_eq!(engine.plan, vec!["./top", "./top/x", "./top/y"]);
}

#[test]
fn self_referencing_group_reports_a_cycle() {
    let mut table = GroupTable::new();
    table.insert(String::from("g"), vec![leaf("g")]);
    let mut engine = FolderEngine::new(&table);
    let r = engine.create_folders(&vec![leaf("g")]);
    assert!(matches!(r, Err(ConfigError::GroupCycle)));
}

#[test]
fn mutually_referencing_groups_report_a_cycle() {
    let mut table = GroupTable::new();
    table.insert(String::from("a"), vec![leaf("b")]);
    table.insert(String::from("b"), vec![leaf("a")]);
    let mut engine = FolderEngine::new(&table);
    let r = engine.create_folders(&vec![leaf("a")]);
    assert!(matches!(r, Err(ConfigError::GroupCycle)));
}

#[test]
fn chained_groups_expand_within_fuel() {
    // an acyclic chain as deep as the group count still completes
    let mut table = GroupTable::new();
    table.insert(String::from("a"), vec![leaf("b")]);
    table.insert(String::from("b"), vec![leaf("c")]);
    table.insert(String::from("c"), vec![leaf("deep")]);
    let mut engine = FolderEngine::new(&table);
    engine.create_folders(&vec![leaf("a")]).unwrap();
    assert_eq!(engine.plan, vec!["./deep"]);
}

#[test]
fn table_lookup_and_replacement() {
    let mut table = GroupTable::new();
    assert_eq!(table.len(), 0);
    table.insert(String::from("g"), vec![leaf("x")]);
    table.insert(String::from("h"), vec![leaf("y")]);
    assert_eq!(table.len(), 2);

    // a second insert for the same name replaces the first binding
    table.insert(String::from("g"), vec![leaf("x2")]);
    assert_eq!(table.len(), 2);
    let got = table.get(&String::from("g")).unwrap();
    assert_eq!(got.len(), 1);
    assert!(matches!(&got[0], Folder::Final(n) if n == "x2"));

    assert!(table.get(&String::from("missing")).is_none());

    let removed = table.remove(&String::from("g")).unwrap();
    assert!(matches!(&removed[0], Folder::Final(n) if n == "x2"));
    assert_eq!(table.len(), 1);
    assert!(table.get(&String::from("g")).is_none());
    assert!(table.remove(&String::from("g")).is_none());
}

#[test]
fn engine_state_survives_successive_calls() {
    // the path context returns to its pre-call state, so a second call
    // starts at the root again and the plan extends in order
    let table = GroupTable::new();
    let mut engine = FolderEngine::new(&table);
    engine.create_folders(&vec![interior("a", vec![leaf("b")])]).unwrap();
    engine.create_folders(&vec![leaf("c")]).unwrap();
    assert_eq!(engine.plan, vec!["./a", "./a/b", "./c"]);
}

#[test]
fn calls_before_a_cycle_stay_recorded() {
    // the plan keeps exactly the calls issued before the failing
    // expansion; nodes after it are never processed
    let mut table = GroupTable::new();
    table.insert(String::from("g"), vec![leaf("g")]);
    let mut engine = FolderEngine::new(&table);
    let r = engine.create_folders(&vec![leaf("a"), leaf("g"), leaf("never")]);
    assert!(matches!(r, Err(ConfigError::GroupCycle)));
    assert_eq!(engine.plan, vec!["./a"]);
}

#[test]
fn calls_inside_an_interior_before_a_cycle_stay_recorded() {
    let mut table = GroupTable::new();
    table.insert(String::from("g"), vec![leaf("g")]);
    let mut engine = FolderEngine::new(&table);
    let r = engine.create_folders(&vec![interior("t", vec![leaf("x"), leaf("g")])]);
    assert!(matches!(r, Err(ConfigError::GroupCycle)));
    assert_eq!(engine.plan, vec!["./t", "./t/x"]);
}
