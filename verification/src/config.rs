//! Run configuration of the duplicate finder.

use std::path::PathBuf;
use vstd::prelude::*;

verus! {

/// `std::path::PathBuf`, carried through the configuration as an opaque value.
#[verifier::external_type_specification]
#[verifier::external_body]
pub struct ExPathBuf(PathBuf);

/// Represents the configuration for running the duplicate finder.
pub struct Config {
    /// Directory whose tree is scanned.
    pub root_dir: PathBuf,
    /// Whether duplicates are removed after they are reported.
    pub delete: bool,
    /// Deepest level that is visited; 0 means unlimited.
    pub max_depth: usize,
    /// Whether entries whose name starts with a dot are visited.
    pub include_hidden: bool,
}

impl Config {
    /// Bundles the four settings, each stored as given.
    pub fn new(root_dir: PathBuf, delete: bool, max_depth: usize, include_hidden: bool) -> (config:
        Self)
        ensures
            config.root_dir == root_dir,
            config.delete == delete,
            config.max_depth == max_depth,
            config.include_hidden == include_hidden,
    {
        Self { root_dir, delete, max_depth, include_hidden }
    }
}

} // verus!
