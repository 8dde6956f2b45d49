//! The typed folder tree and its construction from a configuration value.
//!
//! A folder is either a leaf (a name and nothing else) or an interior node
//! (a name plus an ordered sequence of child folders).  Conversion from an
//! untyped [`ConfigValue`] admits exactly two shapes: a plain string becomes
//! a leaf, and a mapping whose first entry is a string key with a list value
//! becomes an interior node.  A string-keyed entry whose value is not a list
//! is a fatal error; every other shape is silently dropped.

use vstd::prelude::*;

use crate::config::{ConfigError, ConfigValue};

verus! {

/// A node of the folder tree.
///
/// A name is meant to be a single non-empty path segment.  Nothing here
/// rejects an empty name or one that embeds a separator; the
/// configuration format never did, which is a known limitation.
#[derive(Debug)]
pub enum Folder {
    /// A folder with no declared children.
    Final(String),
    /// A folder whose children are themselves folder nodes, in declaration
    /// order.
    TopLevel(String, Vec<Folder>),
}

/// The mathematical image of a [`Folder`]: names become character
/// sequences, child vectors become sequences of views.
pub enum FolderView {
    Final(Seq<char>),
    TopLevel(Seq<char>, Seq<FolderView>),
}

/// The view of a single folder node.
pub open spec fn fview(f: Folder) -> FolderView
    decreases f,
{
    match f {
        Folder::Final(name) => FolderView::Final(name@),
        Folder::TopLevel(name, children) => FolderView::TopLevel(name@, fviews(children@)),
    }
}

/// The element-wise view of a sequence of folder nodes.
pub open spec fn fviews(s: Seq<Folder>) -> Seq<FolderView>
    decreases s,
{
    if s.len() == 0 {
        Seq::empty()
    } else {
        fviews(s.drop_last()).push(fview(s.last()))
    }
}

/// `fviews` maps the sequence element by element.
pub proof fn lemma_fviews_index(s: Seq<Folder>)
    ensures
        fviews(s).len() == s.len(),
        forall|i: int| 0 <= i < s.len() ==> #[trigger] fviews(s)[i] == fview(s[i]),
    decreases s,
{
    if s.len() > 0 {
        lemma_fviews_index(s.drop_last());
    }
}

/// What a single configuration value converts to: `Ok(None)` when the value
/// is silently dropped, `Ok(Some(node))` for the two accepted shapes, and
/// `Err(name)` when a string-keyed entry's value is not a list.
pub open spec fn node_of(v: ConfigValue) -> Result<Option<FolderView>, Seq<char>>
    decreases v,
{
    match v {
        ConfigValue::Str(s) => Ok(Some(FolderView::Final(s@))),
        ConfigValue::Mapping(entries) => {
            if entries@.len() == 0 {
                Ok(None)
            } else {
                match entries@[0].0 {
                    ConfigValue::Str(name) => match entries@[0].1 {
                        ConfigValue::List(items) => match nodes_of(items@) {
                            Ok(children) => Ok(Some(FolderView::TopLevel(name@, children))),
                            Err(e) => Err(e),
                        },
                        _ => Err(name@),
                    },
                    _ => Ok(None),
                }
            }
        },
        _ => Ok(None),
    }
}

/// What a list of configuration values converts to: each element converts
/// independently, dropped elements disappear, order is preserved, and the
/// leftmost fatal entry wins.
pub open spec fn nodes_of(items: Seq<ConfigValue>) -> Result<Seq<FolderView>, Seq<char>>
    decreases items,
{
    if items.len() == 0 {
        Ok(Seq::empty())
    } else {
        match nodes_of(items.drop_last()) {
            Err(e) => Err(e),
            Ok(pre) => match node_of(items.last()) {
                Err(e) => Err(e),
                Ok(None) => Ok(pre),
                Ok(Some(nv)) => Ok(pre.push(nv)),
            },
        }
    }
}

impl Folder {
    /// Creates a leaf folder from its name.
    pub fn from_string(name: &String) -> (f: Folder)
        ensures
            fview(f) == FolderView::Final(name@),
    {
        Folder::Final(name.clone())
    }

    /// Converts a single configuration value to a folder node, if it has
    /// one of the two accepted shapes.
    pub fn from(v: &ConfigValue) -> (r: Result<Option<Folder>, ConfigError>)
        ensures
            match node_of(*v) {
                Ok(Some(nv)) => r matches Ok(Some(f)) && fview(f) == nv,
                Ok(None) => r matches Ok(None::<Folder>),
                Err(name) => r matches Err(e) && e@ == crate::config::ConfigErrorView::GroupNotList(name),
            },
        decreases *v,
    {
        match v {
            ConfigValue::Str(s) => Ok(Some(Folder::from_string(s))),
            ConfigValue::Mapping(entries) => Folder::from_hash(entries),
            _ => Ok(None),
        }
    }

    /// Converts a mapping to a folder node.  Only the first key/value entry
    /// is consulted; any further entries are ignored without warning.  A
    /// string key with a list value yields an interior node; a string key
    /// with any other value is the fatal malformed-group-body error; every
    /// other first entry drops the mapping silently.
    pub fn from_hash(entries: &Vec<(ConfigValue, ConfigValue)>) -> (r: Result<
        Option<Folder>,
        ConfigError,
    >)
        ensures
            match node_of(ConfigValue::Mapping(*entries)) {
                Ok(Some(nv)) => r matches Ok(Some(f)) && fview(f) == nv,
                Ok(None) => r matches Ok(None::<Folder>),
                Err(name) => r matches Err(e) && e@ == crate::config::ConfigErrorView::GroupNotList(name),
            },
        decreases entries@,
    {
        if entries.len() == 0 {
            Ok(None)
        } else {
            let (key, value) = &entries[0];
            match key {
                ConfigValue::Str(name) => match value {
                    ConfigValue::List(items) => match Folder::from_array(items) {
                        Ok(children) => Ok(Some(Folder::TopLevel(name.clone(), children))),
                        Err(e) => Err(e),
                    },
                    _ => Err(ConfigError::GroupNotList(name.clone())),
                },
                _ => Ok(None),
            }
        }
    }

    /// Converts a list of configuration values to a sequence of folder
    /// nodes, dropping elements of unrecognized shape and keeping the order
    /// of those that survive.
    pub fn from_array(arr: &Vec<ConfigValue>) -> (r: Result<Vec<Folder>, ConfigError>)
        ensures
            match nodes_of(arr@) {
                Ok(nvs) => r matches Ok(fs) && fviews(fs@) == nvs,
                Err(name) => r matches Err(e) && e@ == crate::config::ConfigErrorView::GroupNotList(name),
            },
        decreases arr@,
    {
        let mut out: Vec<Folder> = Vec::new();
        let mut i: usize = 0;
        while i < arr.len()
            invariant
                i <= arr.len(),
                nodes_of(arr@.take(i as int)) matches Ok(nvs) && fviews(out@) == nvs,
            decreases arr.len() - i,
        {
            proof {
                assert(arr@.take(i as int + 1).drop_last() =~= arr@.take(i as int));
                assert(arr@.take(i as int + 1).last() == arr@[i as int]);
            }
            match Folder::from(&arr[i]) {
                Ok(Some(f)) => {
                    let ghost prev = out@;
                    out.push(f);
                    proof {
                        assert(out@.drop_last() =~= prev);
                        assert(out@.last() == f);
                    }
                },
                Ok(None) => {},
                Err(e) => {
                    proof {
                        lemma_nodes_of_err_extends(arr@, i as int + 1);
                    }
                    return Err(e);
                },
            }
            i += 1;
        }
        proof {
            assert(arr@.take(arr@.len() as int) =~= arr@);
        }
        Ok(out)
    }
}

/// Once a prefix of the list converts to the fatal error, the whole list
/// does too.
proof fn lemma_nodes_of_err_extends(items: Seq<ConfigValue>, n: int)
    requires
        0 <= n <= items.len(),
        nodes_of(items.take(n)) matches Err(_),
    ensures
        nodes_of(items) == nodes_of(items.take(n)),
    decreases items.len() - n,
{
    if n < items.len() {
        assert(items.take(n + 1).drop_last() =~= items.take(n));
        lemma_nodes_of_err_extends(items, n + 1);
    } else {
        assert(items.take(n) =~= items);
    }
}

} // verus!
