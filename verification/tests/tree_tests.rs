use folder_engine::config::{ConfigError, ConfigValue};
use folder_engine::folder::Folder;

fn s(text: &str) -> ConfigValue {
    ConfigValue::Str(String::from(text))
}

#[test]
fn from_string_makes_a_leaf() {
    let f = Folder::from_string(&String::from("docs"));
    assert!(matches!(f, Folder::Final(name) if name == "docs"));
}

#[test]
fn string_value_converts_to_leaf() {
    let r = Folder::from(&s("a")).unwrap();
    assert!(matches!(r, Some(Folder::Final(name)) if name == "a"));
}

#[test]
fn other_scalar_is_dropped() {
    let r = Folder::from(&ConfigValue::Other).unwrap();
    assert!(r.is_none());
}

#[test]
fn bare_list_is_dropped() {
    let r = Folder::from(&ConfigValue::List(vec![s("a")])).unwrap();
    assert!(r.is_none());
}

#[test]
fn mapping_with_list_value_converts_to_interior() {
    let m = ConfigValue::Mapping(vec![(s("b"), ConfigValue::List(vec![s("c"), s("d")]))]);
    let r = Folder::from(&m).unwrap();
    match r {
        Some(Folder::TopLevel(name, children)) => {
            assert_eq!(name, "b");
            assert_eq!(children.len(), 2);
            assert!(matches!(&children[0], Folder::Final(n) if n == "c"));
            assert!(matches!(&children[1], Folder::Final(n) if n == "d"));
        },
        other => panic!("expected an interior node, got {:?}", other),
    }
}

#[test]
fn empty_mapping_is_dropped() {
    let r = Folder::from(&ConfigValue::Mapping(vec![])).unwrap();
    assert!(r.is_none());
}

#[test]
fn only_first_mapping_entry_is_consulted() {
    // the second entry has a string key and a non-list value, which would
    // be fatal if it were looked at; it is ignored without warning
    let m = ConfigValue::Mapping(vec![
        (s("a"), ConfigValue::List(vec![s("b")])),
        (s("bad"), ConfigValue::Other),
    ]);
    let r = Folder::from(&m).unwrap();
    assert!(matches!(r, Some(Folder::TopLevel(name, _)) if name == "a"));
}

#[test]
fn mapping_with_non_string_first_key_is_dropped() {
    let m = ConfigValue::Mapping(vec![
        (ConfigValue::Other, s("x")),
        (ConfigValue::Other, s("y")),
    ]);
    let r = Folder::from(&m).unwrap();
    assert!(r.is_none());
}

#[test]
fn string_key_with_non_list_value_is_fatal() {
    let m = ConfigValue::Mapping(vec![(s("name"), ConfigValue::Other)]);
    let r = Folder::from(&m);
    assert!(matches!(r, Err(ConfigError::GroupNotList(name)) if name == "name"));
}

#[test]
fn malformed_entries_are_dropped_silently() {
    // one valid string, one mapping of unrecognized shape, one other
    // scalar: only the valid string's node survives, in order
    let arr = vec![
        s("keep"),
        ConfigValue::Mapping(vec![
            (ConfigValue::Other, s("x")),
            (ConfigValue::Other, s("y")),
        ]),
        ConfigValue::Other,
    ];
    let r = Folder::from_array(&arr).unwrap();
    assert_eq!(r.len(), 1);
    assert!(matches!(&r[0], Folder::Final(n) if n == "keep"));
}

#[test]
fn fatal_entry_stops_the_whole_list() {
    let arr = vec![
        s("fine"),
        ConfigValue::Mapping(vec![(s("broken"), ConfigValue::Other)]),
        s("never_reached"),
    ];
    let r = Folder::from_array(&arr);
    assert!(matches!(r, Err(ConfigError::GroupNotList(name)) if name == "broken"));
}

#[test]
fn nested_fatal_entry_propagates() {
    let arr = vec![ConfigValue::Mapping(vec![(
        s("outer"),
        ConfigValue::List(vec![ConfigValue::Mapping(vec![(s("inner"), ConfigValue::Other)])]),
    )])];
    let r = Folder::from_array(&arr);
    assert!(matches!(r, Err(ConfigError::GroupNotList(name)) if name == "inner"));
}

#[test]
fn describe_names_each_error() {
    assert_eq!(
        ConfigError::MissingFolders.describe(),
        "missing top level 'folders' item"
    );
    assert_eq!(
        ConfigError::GroupNotList(String::from("x")).describe(),
        "folder group is not a list"
    );
}
