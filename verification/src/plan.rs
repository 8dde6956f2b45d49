//! From a configuration document to a folder plan.
//!
//! The top level of a configuration must be a mapping.  Its reserved
//! `folders` entry holds the root folder nodes to materialize; every other
//! string-keyed, list-valued entry defines a reusable group.  This module
//! ties the pieces together: it builds the group table, takes the
//! `folders` nodes out, walks them, and hands back the ordered plan of
//! directory-creation calls — or the exact error the document deserves.
//! A second entry point accepts raw configuration text and lets an outside
//! parser turn it into a document first.

use vstd::prelude::*;
use vstd::string::StringExecFns;

use crate::config::{ConfigError, ConfigErrorView, ConfigValue};
use crate::engine::{seq_views, walk, FolderEngine};
use crate::groups::{build_groups, groups_of};

verus! {

/// What a whole configuration document deserves: the ordered creation
/// calls of walking its `folders` nodes against its groups, or the first
/// error in the way.  The `folders` entry itself is no group: it is
/// removed from the table before the walk.
pub open spec fn spec_plan(doc: ConfigValue) -> Result<Seq<Seq<char>>, ConfigErrorView> {
    match doc {
        ConfigValue::Mapping(entries) => match groups_of(entries@) {
            Err(name) => Err(ConfigErrorView::GroupNotList(name)),
            Ok(m) => if !m.contains_key("folders"@) {
                Err(ConfigErrorView::MissingFolders)
            } else {
                let g = m.remove("folders"@);
                match walk(g, Seq::empty(), m["folders"@], g.dom().len()) {
                    Some(p) => Ok(p),
                    None => Err(ConfigErrorView::GroupCycle),
                }
            },
        },
        _ => Err(ConfigErrorView::NotAMapping),
    }
}

/// Computes the folder plan of a configuration document: the full
/// relative path of every directory the document asks for, in creation
/// order (each parent before anything inside it).
pub fn plan_folders(doc: &ConfigValue) -> (r: Result<Vec<String>, ConfigError>)
    ensures
        match spec_plan(*doc) {
            Ok(p) => r matches Ok(v) && seq_views(v@) == p,
            Err(ev) => r matches Err(e) && e@ == ev,
        },
{
    match doc {
        ConfigValue::Mapping(entries) => match build_groups(entries) {
            Err(e) => Err(e),
            Ok(mut table) => {
                let folders_key = String::from_str("folders");
                match table.remove(&folders_key) {
                    None => Err(ConfigError::MissingFolders),
                    Some(folders) => {
                        let mut engine = FolderEngine::new(&table);
                        proof {
                            assert(seq_views(engine.plan@) =~= Seq::<Seq<char>>::empty());
                            assert(seq_views(engine.current@) =~= Seq::<Seq<char>>::empty());
                        }
                        let walked = engine.create_folders(&folders);
                        match walked {
                            Ok(_) => {
                                proof {
                                    let p = walk(
                                        table@,
                                        Seq::empty(),
                                        crate::folder::fviews(folders@),
                                        table@.dom().len(),
                                    )->Some_0;
                                    assert(Seq::<Seq<char>>::empty() + p =~= p);
                                }
                                Ok(engine.plan)
                            },
                            Err(e) => Err(e),
                        }
                    },
                }
            },
        },
        _ => Err(ConfigError::NotAMapping),
    }
}

#[verifier::external_type_specification]
#[verifier::external_body]
pub struct ExYaml(yaml_rust::Yaml);

/// What the outside parser yields for given configuration text: the
/// documents the text holds, each as a configuration value, or the scan
/// error's display text.  The parser reads nothing but its input, so the
/// result is a function of the text alone; what it is on given text is
/// stated nowhere — only the parse wrapper's contract applies this name.
pub uninterp spec fn parsed_docs(text: Seq<char>) -> Result<Seq<ConfigValue>, Seq<char>>;

/// Relies on the shape of yaml_rust::Yaml: a string, an array and a hash
/// become the configuration value of the same shape, entry order kept;
/// every other variant becomes `ConfigValue::Other`.  This is the
/// converting half of [`parse_config_text`], recursive because the
/// outside type is.
#[verifier::external_body]
fn yaml_to_config(y: &yaml_rust::Yaml) -> ConfigValue {
    match y {
        yaml_rust::Yaml::String(s) => ConfigValue::Str(s.clone()),
        yaml_rust::Yaml::Array(items) => ConfigValue::List(
            items.iter().map(yaml_to_config).collect(),
        ),
        yaml_rust::Yaml::Hash(entries) => ConfigValue::Mapping(
            entries.iter().map(|(k, v)| (yaml_to_config(k), yaml_to_config(v))).collect(),
        ),
        _ => ConfigValue::Other,
    }
}

/// Relies on yaml_rust::YamlLoader::load_from_str: parses configuration
/// text into the documents it holds — each converted to a configuration
/// value by [`yaml_to_config`] — or fails with a scan error, handed on as
/// its display text.  The result is [`parsed_docs`] of the text.
#[verifier::external_body]
fn parse_config_text(text: &str) -> (r: Result<Vec<ConfigValue>, String>)
    ensures
        match parsed_docs(text@) {
            Ok(ds) => r matches Ok(v) && v@ == ds,
            Err(m) => r matches Err(e) && e@ == m,
        },
{
    match yaml_rust::YamlLoader::load_from_str(text) {
        Ok(docs) => Ok(docs.iter().map(yaml_to_config).collect()),
        Err(err) => Err(err.to_string()),
    }
}

/// Parses configuration text and computes its folder plan in one step:
/// a scan error is surfaced verbatim, text without a document is no
/// mapping, and the first document gets exactly what [`plan_folders`]
/// gives it.  Everything after the parse is the verified logic of this
/// crate.
pub fn plan_from_str(text: &str) -> (r: Result<Vec<String>, ConfigError>)
    ensures
        match parsed_docs(text@) {
            Err(m) => r matches Err(e) && e@ == ConfigErrorView::Parse(m),
            Ok(ds) => if ds.len() == 0 {
                r matches Err(e) && e@ == ConfigErrorView::NotAMapping
            } else {
                match spec_plan(ds[0]) {
                    Ok(p) => r matches Ok(v) && seq_views(v@) == p,
                    Err(ev) => r matches Err(e) && e@ == ev,
                }
            },
        },
{
    match parse_config_text(text) {
        Err(msg) => Err(ConfigError::Parse(msg)),
        Ok(docs) => {
            if docs.len() == 0 {
                Err(ConfigError::NotAMapping)
            } else {
                plan_folders(&docs[0])
            }
        },
    }
}

} // verus!
