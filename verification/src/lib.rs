//! A declarative directory-tree materializer.
//!
//! A configuration document describes a tree of folders, with named, reusable
//! subtree definitions ("groups") that leaf entries can reference by name.
//! The library converts the untyped document into a typed folder tree, then
//! walks that tree and computes the ordered list of directory-creation calls
//! (each one a path relative to the destination root).  Performing the actual
//! filesystem side effects is left to the caller, which runs the returned
//! plan in order and stops at the first failure.

pub mod config;
pub mod folder;
pub mod groups;
pub mod engine;
pub mod plan;
