use folder_engine::config::{ConfigError, ConfigValue};
use folder_engine::plan::{plan_folders, plan_from_str};

fn s(text: &str) -> ConfigValue {
    ConfigValue::Str(String::from(text))
}

fn list(items: Vec<ConfigValue>) -> ConfigValue {
    ConfigValue::List(items)
}

#[test]
fn document_with_unused_group() {
    // {folders: [a, {b: [c, d]}], shared: [x]}: the group is never
    // referenced, so only the folders entries are materialized, in order
    let doc = ConfigValue::Mapping(vec![
        (
            s("folders"),
            list(vec![
                s("a"),
                ConfigValue::Mapping(vec![(s("b"), list(vec![s("c"), s("d")]))]),
            ]),
        ),
        (s("shared"), list(vec![s("x")])),
    ]);
    let plan = plan_folders(&doc).unwrap();
    assert_eq!(plan, vec!["./a", "./b", "./b/c", "./b/d"]);
}

#[test]
fn document_with_referenced_group() {
    // {folders: [shared], shared: [x, y]}: the leaf resolves to the
    // group, producing no directory of its own name
    let doc = ConfigValue::Mapping(vec![
        (s("folders"), list(vec![s("shared")])),
        (s("shared"), list(vec![s("x"), s("y")])),
    ]);
    let plan = plan_folders(&doc).unwrap();
    assert_eq!(plan, vec!["./x", "./y"]);
}

#[test]
fn top_level_must_be_a_mapping() {
    let r = plan_folders(&list(vec![s("a")]));
    assert!(matches!(r, Err(ConfigError::NotAMapping)));
    let r = plan_folders(&s("a"));
    assert!(matches!(r, Err(ConfigError::NotAMapping)));
}

#[test]
fn missing_folders_entry_is_rejected() {
    let doc = ConfigValue::Mapping(vec![(s("shared"), list(vec![s("x")]))]);
    let r = plan_folders(&doc);
    assert!(matches!(r, Err(ConfigError::MissingFolders)));
}

#[test]
fn non_list_folders_entry_counts_as_missing() {
    // a string-keyed, non-list entry at the top level is not a group and
    // not fatal; `folders` of that shape simply does not exist
    let doc = ConfigValue::Mapping(vec![(s("folders"), s("a"))]);
    let r = plan_folders(&doc);
    assert!(matches!(r, Err(ConfigError::MissingFolders)));
}

#[test]
fn malformed_group_body_aborts_before_any_call() {
    // {folders: [{name: <non-list>}]}: fatal, no plan at all
    let doc = ConfigValue::Mapping(vec![(
        s("folders"),
        list(vec![ConfigValue::Mapping(vec![(s("name"), ConfigValue::Other)])]),
    )]);
    let r = plan_folders(&doc);
    assert!(matches!(r, Err(ConfigError::GroupNotList(name)) if name == "name"));
}

#[test]
fn cyclic_groups_are_rejected() {
    let doc = ConfigValue::Mapping(vec![
        (s("folders"), list(vec![s("g")])),
        (s("g"), list(vec![s("g")])),
    ]);
    let r = plan_folders(&doc);
    assert!(matches!(r, Err(ConfigError::GroupCycle)));
}

#[test]
fn yaml_text_end_to_end() {
    let text = "folders:\n  - a\n  - b:\n      - c\n      - d\nshared:\n  - x\n";
    let plan = plan_from_str(text).unwrap();
    assert_eq!(plan, vec!["./a", "./b", "./b/c", "./b/d"]);
}

#[test]
fn yaml_text_group_reference() {
    let text = "folders:\n  - shared\nshared:\n  - x\n  - y\n";
    let plan = plan_from_str(text).unwrap();
    assert_eq!(plan, vec!["./x", "./y"]);
}

#[test]
fn yaml_text_integer_group_body_is_fatal() {
    let text = "folders:\n  - name: 5\n";
    let r = plan_from_str(text);
    assert!(matches!(r, Err(ConfigError::GroupNotList(name)) if name == "name"));
}

#[test]
fn yaml_text_mixed_shapes_are_dropped() {
    // an integer and a multi-entry mapping with non-string keys are
    // dropped; only the plain strings survive
    let text = "folders:\n  - keep\n  - 7\n  - other\n";
    let plan = plan_from_str(text).unwrap();
    assert_eq!(plan, vec!["./keep", "./other"]);
}

#[test]
fn yaml_parse_error_is_surfaced() {
    let text = "folders: [a\n";
    let r = plan_from_str(text);
    assert!(matches!(r, Err(ConfigError::Parse(_))));
}

#[test]
fn empty_yaml_text_is_no_mapping() {
    let r = plan_from_str("");
    assert!(matches!(r, Err(ConfigError::NotAMapping)));
}

#[test]
fn yaml_list_document_is_no_mapping() {
    let r = plan_from_str("- a\n- b\n");
    assert!(matches!(r, Err(ConfigError::NotAMapping)));
}

#[test]
fn yaml_cycle_is_rejected() {
    let text = "folders:\n  - g\ng:\n  - g\n";
    let r = plan_from_str(text);
    assert!(matches!(r, Err(ConfigError::GroupCycle)));
}
