//! The registry-editing and package-lifecycle operations: scaffolding a new
//! package, deriving a registry entry from an existing build, and
//! reconciling the whole registry against the set of built archives.

use crate::chars::str_eq;
use crate::commands::{Fix, FixAction};
use crate::descriptor::{DescriptorView, PackageInfo};
use crate::digest::{digest_bytes, digest_of};
use crate::registry::{clone_string_vec, deps_view, EntryView, PackageBasicInfo, RepoInfo};
use crate::RepoError;
use vstd::prelude::*;
use vstd::string::{StrSliceExecFns, StringExecFns};

verus! {

/// The fixed URL template every published archive is served under,
/// parameterized by package name.
pub open spec fn url_prefix() -> Seq<char> {
    "https://github.com/Derrick-Program/DPM-Server/raw/main/Repo/"@
}

/// The archive file extension.
pub open spec fn zip_ext() -> Seq<char> {
    ".zip"@
}

/// The registry entry derived from an existing build: archive name from the
/// descriptor, version and dependencies from the descriptor, URL from the
/// fixed template and the candidate name, digest from the archive file
/// itself.
pub open spec fn derived_entry(
    name: Seq<char>,
    descriptor: DescriptorView,
    archive_digest: Seq<char>,
) -> EntryView {
    EntryView {
        url: url_prefix() + name + zip_ext(),
        file_name: descriptor.package_name + zip_ext(),
        version: descriptor.version,
        hash: archive_digest,
        dependencies: descriptor.dependencies,
    }
}

/// A copy of an optional dependency-name list.
fn clone_deps(deps: &Option<Vec<String>>) -> (r: Option<Vec<String>>)
    ensures
        deps_view(r) == deps_view(*deps),
{
    match deps {
        Some(v) => Some(clone_string_vec(v)),
        None => None,
    }
}

/// Composes the registry entry for one existing build.
pub fn derive_entry(name: &str, descriptor: &PackageInfo, archive_digest: String) -> (r:
    PackageBasicInfo)
    ensures
        r@ == derived_entry(name@, descriptor@, archive_digest@),
{
    let url = String::from_str("https://github.com/Derrick-Program/DPM-Server/raw/main/Repo/")
        .concat(name).concat(".zip");
    let file_name = descriptor.package_name.clone().concat(".zip");
    PackageBasicInfo {
        url,
        file_name,
        version: descriptor.version.clone(),
        hash: archive_digest,
        dependencies: clone_deps(&descriptor.dependencies),
    }
}

/// Derives and upserts the registry entry for one existing build. The
/// archive's existence and digest, and the package's descriptor, are the
/// caller's to supply: this is the derivation and the registry edit.
pub fn fix_add(
    project_name: &str,
    descriptor: &PackageInfo,
    archive_digest: String,
    repo: &mut RepoInfo,
)
    requires
        old(repo).inv(),
    ensures
        final(repo).inv(),
        final(repo)@ == old(repo)@.insert(
            project_name@,
            derived_entry(project_name@, descriptor@, archive_digest@),
        ),
{
    let entry = derive_entry(project_name, descriptor, archive_digest);
    let name = project_name.to_owned();
    repo.add_package_with_info(name, entry);
}

/// Removes one registry entry; `PackageNotFound` exactly when the name is
/// not registered, and then nothing changes.
pub fn fix_del(project_name: &str, repo: &mut RepoInfo) -> (r: Result<PackageBasicInfo, RepoError>)
    requires
        old(repo).inv(),
    ensures
        final(repo).inv(),
        match r {
            Ok(entry) => old(repo)@.contains_key(project_name@) && entry@ == old(
                repo,
            )@[project_name@] && final(repo)@ == old(repo)@.remove(project_name@),
            Err(e) => e == RepoError::PackageNotFound && !old(repo)@.contains_key(project_name@)
                && final(repo)@ == old(repo)@,
        },
{
    repo.remove_package(project_name)
}

/// One registry edit, as the fix subcommand asks: an add derives and upserts
/// the entry for an existing build from the supplied facts; a del removes
/// the named entry, failing with `PackageNotFound` when it is absent.
pub fn fix(obj: &Fix, repo: &mut RepoInfo, facts: Option<&ArchiveFacts>) -> (r: Result<
    (),
    RepoError,
>)
    requires
        old(repo).inv(),
        obj.command is Add ==> facts is Some,
    ensures
        final(repo).inv(),
        match obj.command {
            FixAction::Add(add) => r is Ok && final(repo)@ == old(repo)@.insert(
                add.project_name@,
                derived_entry(
                    add.project_name@,
                    facts.unwrap().descriptor@,
                    facts.unwrap().archive_digest@,
                ),
            ),
            FixAction::Del(del) => match r {
                Ok(_) => old(repo)@.contains_key(del.project_name@) && final(repo)@ == old(
                    repo,
                )@.remove(del.project_name@),
                Err(e) => e == RepoError::PackageNotFound && !old(repo)@.contains_key(
                    del.project_name@,
                ) && final(repo)@ == old(repo)@,
            },
        },
{
    match &obj.command {
        FixAction::Add(add) => {
            let f = facts.unwrap();
            fix_add(add.project_name.as_str(), &f.descriptor, f.archive_digest.clone(), repo);
            Ok(())
        },
        FixAction::Del(del) => {
            match fix_del(del.project_name.as_str(), repo) {
                Ok(_) => Ok(()),
                Err(e) => Err(e),
            }
        },
    }
}

/// What a fix-add needs from the world: the package's descriptor as read
/// from its source tree, and the digest of the built archive's bytes.
pub struct ArchiveFacts {
    pub descriptor: PackageInfo,
    pub archive_digest: String,
}

/// Scaffolds a new package's descriptor: the given name, entry file, version
/// and description, the digest of the empty ledger file just created, and no
/// dependencies.
pub fn init_package(name: String, entry: String, version: String, description: String) -> (r:
    PackageInfo)
    ensures
        r@ == (DescriptorView {
            package_name: name@,
            file_name: entry@,
            version: version@,
            description: description@,
            hash: digest_of(Seq::<u8>::empty()),
            dependencies: None,
        }),
{
    let empty: Vec<u8> = Vec::new();
    let h = digest_bytes(&empty);
    PackageInfo::new(name, entry, version, description, h, None)
}

/// The files a fresh package tree holds: the entry file, the ledger file,
/// and the descriptor file.
pub fn init_files(entry: &str) -> (r: Vec<String>)
    ensures
        r@.len() == 3,
        r@[0]@ == entry@,
        r@[1]@ == "hashes.json"@,
        r@[2]@ == "packageInfo.json"@,
{
    let mut r: Vec<String> = Vec::new();
    r.push(entry.to_owned());
    r.push(String::from_str("hashes.json"));
    r.push(String::from_str("packageInfo.json"));
    r
}

/// Whether the character sequence ends in the archive extension.
pub open spec fn ends_with_zip(s: Seq<char>) -> bool {
    s.len() >= 4 && s[s.len() - 4] == '.' && s[s.len() - 3] == 'z' && s[s.len() - 2] == 'i'
        && s[s.len() - 1] == 'p'
}

/// The candidate package name an archive file name yields: every trailing
/// archive extension stripped.
pub open spec fn strip_zip(s: Seq<char>) -> Seq<char>
    decreases s.len(),
{
    if ends_with_zip(s) {
        strip_zip(s.subrange(0, s.len() - 4))
    } else {
        s
    }
}

/// Strips every trailing archive extension off an archive file name.
pub fn strip_zip_ext(name: &str) -> (r: String)
    ensures
        r@ == strip_zip(name@),
{
    let mut s = name.to_owned();
    loop
        invariant
            strip_zip(s@) == strip_zip(name@),
        decreases s@.len(),
    {
        let len = s.as_str().unicode_len();
        let stripped = len >= 4 && s.as_str().get_char(len - 4) == '.' && s.as_str().get_char(
            len - 3,
        ) == 'z' && s.as_str().get_char(len - 2) == 'i' && s.as_str().get_char(len - 1) == 'p';
        if !stripped {
            assert(!ends_with_zip(s@));
            return s;
        }
        assert(ends_with_zip(s@));
        let shorter = s.as_str().substring_char(0, len - 4).to_owned();
        assert(shorter@ == s@.subrange(0, s@.len() - 4));
        s = shorter;
    }
}

/// The mathematical value of one reconciliation input.
pub struct ReconItemView {
    pub zip_name: Seq<char>,
    pub descriptor: DescriptorView,
    pub archive_digest: Seq<char>,
}

/// One reconciliation input: an archive file found in the archive directory,
/// the descriptor read from the matching source tree, and the digest of the
/// archive's bytes.
pub struct ReconItem {
    pub zip_name: String,
    pub descriptor: PackageInfo,
    pub archive_digest: String,
}

impl View for ReconItem {
    type V = ReconItemView;

    open spec fn view(&self) -> ReconItemView {
        ReconItemView {
            zip_name: self.zip_name@,
            descriptor: self.descriptor@,
            archive_digest: self.archive_digest@,
        }
    }
}

/// The registry map reconciliation leaves behind: each item's derived entry
/// upserted under its candidate name, in order.
pub open spec fn recon_fold(
    m: Map<Seq<char>, EntryView>,
    items: Seq<ReconItemView>,
) -> Map<Seq<char>, EntryView>
    decreases items.len(),
{
    if items.len() == 0 {
        m
    } else {
        recon_fold(m, items.drop_last()).insert(
            strip_zip(items.last().zip_name),
            derived_entry(
                strip_zip(items.last().zip_name),
                items.last().descriptor,
                items.last().archive_digest,
            ),
        )
    }
}

/// Reconciles the registry against the archive directory: for every archive
/// found there, the entry derived from its build is upserted under the
/// archive's extension-stripped name. Entries for names no archive carries
/// are left as they were.
pub fn reconcile_all(repo: &mut RepoInfo, items: &Vec<ReconItem>)
    requires
        old(repo).inv(),
    ensures
        final(repo).inv(),
        final(repo)@ == recon_fold(old(repo)@, items@.map_values(|it: ReconItem| it@)),
{
    let ghost iviews = items@.map_values(|it: ReconItem| it@);
    let mut i: usize = 0;
    while i < items.len()
        invariant
            i <= items@.len(),
            iviews == items@.map_values(|it: ReconItem| it@),
            repo.inv(),
            repo@ == recon_fold(old(repo)@, iviews.subrange(0, i as int)),
        decreases items@.len() - i,
    {
        let ghost prefix = iviews.subrange(0, i as int);
        let ghost next_prefix = iviews.subrange(0, i as int + 1);
        let name = strip_zip_ext(items[i].zip_name.as_str());
        fix_add(name.as_str(), &items[i].descriptor, items[i].archive_digest.clone(), repo);
        proof {
            assert(next_prefix.drop_last() =~= prefix);
            assert(next_prefix.last() == iviews[i as int]);
        }
        i += 1;
    }
    proof {
        assert(iviews.subrange(0, items@.len() as int) =~= iviews);
    }
}

/// The entries reconciliation derives, on their own: reconciliation of an
/// empty registry.
pub open spec fn recon_entries(items: Seq<ReconItemView>) -> Map<Seq<char>, EntryView> {
    recon_fold(Map::<Seq<char>, EntryView>::empty(), items)
}

/// Reconciliation only upserts the derived entries: its result is the prior
/// map overridden by the entries the items alone determine.
pub proof fn lemma_recon_fold_as_union(m: Map<Seq<char>, EntryView>, items: Seq<ReconItemView>)
    ensures
        recon_fold(m, items) == m.union_prefer_right(recon_entries(items)),
    decreases items.len(),
{
    if items.len() == 0 {
        assert(recon_fold(m, items) =~= m.union_prefer_right(recon_entries(items)));
    } else {
        lemma_recon_fold_as_union(m, items.drop_last());
        lemma_recon_fold_as_union(Map::<Seq<char>, EntryView>::empty(), items.drop_last());
        assert(recon_fold(m, items) =~= m.union_prefer_right(recon_entries(items)));
    }
}

/// Reconciliation is idempotent: with the archives, descriptors and digests
/// unchanged, reconciling twice leaves exactly the registry one pass leaves.
pub proof fn lemma_reconcile_idempotent(m: Map<Seq<char>, EntryView>, items: Seq<ReconItemView>)
    ensures
        recon_fold(recon_fold(m, items), items) == recon_fold(m, items),
{
    lemma_recon_fold_as_union(m, items);
    lemma_recon_fold_as_union(recon_fold(m, items), items);
    assert(m.union_prefer_right(recon_entries(items)).union_prefer_right(recon_entries(items))
        =~= m.union_prefer_right(recon_entries(items)));
}

} // verus!
