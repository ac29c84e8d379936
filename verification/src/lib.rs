//! A local package-repository manager's core: content digests, per-package
//! hash ledgers, package descriptors, and the repository registry that maps
//! package names to published-archive metadata.

use vstd::prelude::*;

mod actions;
mod chars;
pub mod commands;
mod descriptor;
mod digest;
pub mod json;
mod ledger;
mod pairs;
mod registry;

pub use actions::derive_entry;
pub use actions::derived_entry;
pub use actions::ends_with_zip;
pub use actions::fix;
pub use actions::fix_add;
pub use actions::fix_del;
pub use actions::init_files;
pub use actions::init_package;
pub use actions::lemma_recon_fold_as_union;
pub use actions::lemma_reconcile_idempotent;
pub use actions::recon_entries;
pub use actions::recon_fold;
pub use actions::reconcile_all;
pub use actions::strip_zip;
pub use actions::strip_zip_ext;
pub use actions::url_prefix;
pub use actions::zip_ext;
pub use actions::ArchiveFacts;
pub use actions::ReconItem;
pub use actions::ReconItemView;
pub use chars::chars_of_str;
pub use chars::str_eq;
pub use chars::string_of_chars;
pub use commands::Add;
pub use commands::All;
pub use commands::Build;
pub use commands::Commands;
pub use commands::Del;
pub use commands::Fix;
pub use commands::FixAction;
pub use commands::Init;
pub use descriptor::apply_ledger_digest;
pub use descriptor::DescriptorView;
pub use descriptor::PackageInfo;
pub use digest::digest_bytes;
pub use digest::digest_of;
pub use json::descriptor_from_json;
pub use json::lemma_descriptor_round_trip;
pub use json::descriptor_to_json;
pub use ledger::lemma_ledger_completeness;
pub use ledger::recompute;
pub use ledger::FileContent;
pub use ledger::FileView;
pub use ledger::HashLedger;
pub use registry::deps_view;
pub use registry::lemma_add_remove_symmetry;
pub use registry::lemma_fold_insert_is_view;
pub use registry::lemma_registry_round_trip;
pub use registry::EntryView;
pub use registry::PackageBasicInfo;
pub use registry::RepoInfo;

verus! {

/// The errors the repository operations can surface.
#[derive(Debug, PartialEq, Eq, Structural, Clone, Copy)]
pub enum RepoError {
    /// A named package directory is absent.
    PackageNotFound,
    /// An init target directory already exists.
    AlreadyExists,
    /// An expected archive file is missing.
    ArchiveNotFound,
    /// An open/read/write/create failure.
    IoError,
    /// Malformed serialized content.
    ParseError,
}

} // verus!
