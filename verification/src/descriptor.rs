//! The package descriptor: one package's own metadata record, colocated with
//! its source tree. Its `hash` field is the rolled-up package digest — the
//! digest of the package's ledger file as of the last hash run.

use crate::digest::{digest_bytes, digest_of};
use crate::registry::deps_view;
use vstd::prelude::*;

verus! {

/// One package's metadata record.
#[derive(Debug)]
pub struct PackageInfo {
    pub package_name: String,
    pub file_name: String,
    pub version: String,
    pub description: String,
    pub hash: String,
    pub dependencies: Option<Vec<String>>,
}

/// The mathematical value of a package descriptor.
pub struct DescriptorView {
    pub package_name: Seq<char>,
    pub file_name: Seq<char>,
    pub version: Seq<char>,
    pub description: Seq<char>,
    pub hash: Seq<char>,
    pub dependencies: Option<Seq<Seq<char>>>,
}

impl View for PackageInfo {
    type V = DescriptorView;

    open spec fn view(&self) -> DescriptorView {
        DescriptorView {
            package_name: self.package_name@,
            file_name: self.file_name@,
            version: self.version@,
            description: self.description@,
            hash: self.hash@,
            dependencies: deps_view(self.dependencies),
        }
    }
}

impl PackageInfo {
    /// A descriptor holding exactly the given fields.
    pub fn new(
        package_name: String,
        file_name: String,
        version: String,
        description: String,
        hash: String,
        dependencies: Option<Vec<String>>,
    ) -> (r: PackageInfo)
        ensures
            r@ == (DescriptorView {
                package_name: package_name@,
                file_name: file_name@,
                version: version@,
                description: description@,
                hash: hash@,
                dependencies: deps_view(dependencies),
            }),
    {
        PackageInfo { package_name, file_name, version, description, hash, dependencies }
    }
}

/// Folds a freshly written ledger file into the package descriptor: the
/// descriptor's package digest becomes the digest of the ledger file's exact
/// bytes; every other field keeps its value.
pub fn apply_ledger_digest(descriptor: &mut PackageInfo, ledger_bytes: &Vec<u8>)
    ensures
        final(descriptor)@ == (DescriptorView {
            hash: digest_of(ledger_bytes@),
            ..old(descriptor)@
        }),
{
    descriptor.hash = digest_bytes(ledger_bytes);
}

} // verus!
