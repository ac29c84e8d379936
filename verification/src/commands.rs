//! The subcommand requests the tool serves. These carry the operator's
//! arguments as plain values; parsing them off the command line is the
//! caller's business.

use vstd::prelude::*;

verus! {

/// One parsed subcommand.
pub enum Commands {
    /// Recompute a package's hash ledger and rolled-up digest.
    Hash(Hash),
    /// Edit the repository registry.
    Fix(Fix),
    /// Build a package's archive.
    Build(Build),
    /// Scaffold a new package tree.
    Init(Init),
    /// Run everything for one package.
    All(All),
}

/// The hash request: which package's ledger to recompute.
pub struct Hash {
    pub packagename: String,
}

/// The build request: which package to archive.
pub struct Build {
    pub packagename: String,
}

/// The run-all request.
pub struct All {
    pub packagename: Option<String>,
}

/// The init request: a new package's name, entry file, version and
/// description.
pub struct Init {
    pub name: String,
    pub entry: String,
    pub ver: String,
    pub description: String,
}

/// The fix request: one registry edit.
pub struct Fix {
    pub command: FixAction,
}

/// Which registry edit a fix request asks for.
pub enum FixAction {
    /// Derive and upsert one entry from an existing build.
    Add(Add),
    /// Remove one entry.
    Del(Del),
}

/// The fix-add request.
pub struct Add {
    pub project_name: String,
}

/// The fix-del request.
pub struct Del {
    pub project_name: String,
}

} // verus!
