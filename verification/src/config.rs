//! The untyped configuration model and the library's error type.
//!
//! A configuration document is a recursively nested value of scalars,
//! ordered lists and ordered mappings.  Only three shapes matter to the
//! folder logic: strings, lists, and mappings (as ordered key/value entry
//! sequences); every other scalar collapses to `Other`.

use vstd::prelude::*;

verus! {

/// An untyped configuration value, as handed over by whatever parsed the
/// configuration document.  Mappings keep their entries in document order.
#[derive(Debug)]
pub enum ConfigValue {
    /// A plain string scalar.
    Str(String),
    /// An ordered list of values.
    List(Vec<ConfigValue>),
    /// An ordered mapping, kept as its key/value entries in document order.
    Mapping(Vec<(ConfigValue, ConfigValue)>),
    /// Any other scalar (integer, boolean, null, ...): never a folder shape.
    Other,
}

/// Everything that can go wrong between a configuration document and a
/// finished folder plan.
#[derive(Debug)]
pub enum ConfigError {
    /// The document failed to parse as structured data; the payload is the
    /// parser's message.
    Parse(String),
    /// The top level of the document is not a mapping (or there is no
    /// document at all).
    NotAMapping,
    /// The reserved `folders` key is missing from the top-level mapping.
    MissingFolders,
    /// A string-keyed entry's value is not a list; the payload is the
    /// offending name.  This is the one fatal configuration error: the
    /// entry is not skipped, the whole run is rejected.
    GroupNotList(String),
    /// Group references nest more deeply than the number of groups, which
    /// only happens when group definitions reference each other in a cycle.
    GroupCycle,
}

/// The mathematical image of a [`ConfigError`].
pub enum ConfigErrorView {
    Parse(Seq<char>),
    NotAMapping,
    MissingFolders,
    GroupNotList(Seq<char>),
    GroupCycle,
}

impl View for ConfigError {
    type V = ConfigErrorView;

    open spec fn view(&self) -> ConfigErrorView {
        match self {
            ConfigError::Parse(msg) => ConfigErrorView::Parse(msg@),
            ConfigError::NotAMapping => ConfigErrorView::NotAMapping,
            ConfigError::MissingFolders => ConfigErrorView::MissingFolders,
            ConfigError::GroupNotList(name) => ConfigErrorView::GroupNotList(name@),
            ConfigError::GroupCycle => ConfigErrorView::GroupCycle,
        }
    }
}

impl ConfigError {
    /// A short human-readable description of the error's kind; it does
    /// not include the offending name a variant may carry.
    pub fn describe(&self) -> (r: &'static str)
        ensures
            r@ == self.spec_describe(),
    {
        match self {
            ConfigError::Parse(_) => "configuration failed to parse",
            ConfigError::NotAMapping => "top level of the configuration is not a mapping",
            ConfigError::MissingFolders => "missing top level 'folders' item",
            ConfigError::GroupNotList(_) => "folder group is not a list",
            ConfigError::GroupCycle => "folder groups reference each other in a cycle",
        }
    }

    /// What [`ConfigError::describe`] returns for each variant.
    pub open spec fn spec_describe(&self) -> Seq<char> {
        match self {
            ConfigError::Parse(_) => "configuration failed to parse"@,
            ConfigError::NotAMapping => "top level of the configuration is not a mapping"@,
            ConfigError::MissingFolders => "missing top level 'folders' item"@,
            ConfigError::GroupNotList(_) => "folder group is not a list"@,
            ConfigError::GroupCycle => "folder groups reference each other in a cycle"@,
        }
    }
}

} // verus!
