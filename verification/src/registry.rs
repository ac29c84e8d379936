//! The repository registry: the durable mapping from package name to
//! published-archive metadata (url, archive file name, version, digest,
//! dependency list). Keys are unique, case-sensitive opaque strings.

use crate::chars::str_eq;
use crate::pairs::{lemma_map_of_contains, lemma_map_of_index, lemma_map_of_remove, map_of, unique_keys};
use crate::json::{adv, emit_entry, emit_str, fold_insert, lemma_fold_insert_snoc, lemma_ser_pairs_snoc, lemma_skip_adv, lemma_sp_entry_bounds, lemma_sp_registry_of_ser, lemma_sp_str_bounds, parse_entry, parse_str, registry_json_value, ser_pair, ser_pairs, ser_registry, sp_members, sp_registry};
use crate::RepoError;
use vstd::prelude::*;

verus! {

/// One published package's record: where its built archive can be fetched
/// and what it should hash to.
#[derive(Debug)]
pub struct PackageBasicInfo {
    pub url: String,
    pub file_name: String,
    pub version: String,
    pub hash: String,
    pub dependencies: Option<Vec<String>>,
}

/// The mathematical value of a registry entry.
pub struct EntryView {
    pub url: Seq<char>,
    pub file_name: Seq<char>,
    pub version: Seq<char>,
    pub hash: Seq<char>,
    pub dependencies: Option<Seq<Seq<char>>>,
}

/// The mathematical value of an optional dependency-name list.
pub open spec fn deps_view(deps: Option<Vec<String>>) -> Option<Seq<Seq<char>>> {
    match deps {
        Some(v) => Some(v@.map_values(|s: String| s@)),
        None => None,
    }
}

impl View for PackageBasicInfo {
    type V = EntryView;

    open spec fn view(&self) -> EntryView {
        EntryView {
            url: self.url@,
            file_name: self.file_name@,
            version: self.version@,
            hash: self.hash@,
            dependencies: deps_view(self.dependencies),
        }
    }
}

impl Clone for PackageBasicInfo {
    fn clone(&self) -> (r: Self)
        ensures
            r@ == self@,
    {
        let deps: Option<Vec<String>> = match &self.dependencies {
            Some(v) => Some(clone_string_vec(v)),
            None => None,
        };
        let r = PackageBasicInfo {
            url: self.url.clone(),
            file_name: self.file_name.clone(),
            version: self.version.clone(),
            hash: self.hash.clone(),
            dependencies: deps,
        };
        assert(r@.dependencies =~= self@.dependencies);
        r
    }
}

/// A copy of a vector of strings, character for character.
pub fn clone_string_vec(v: &Vec<String>) -> (r: Vec<String>)
    ensures
        r@.map_values(|s: String| s@) == v@.map_values(|s: String| s@),
{
    let mut r: Vec<String> = Vec::new();
    let mut i: usize = 0;
    while i < v.len()
        invariant
            i <= v.len(),
            r@.len() == i,
            forall|j: int| 0 <= j < i ==> r@[j]@ == v@[j]@,
        decreases v.len() - i,
    {
        r.push(v[i].clone());
        i += 1;
    }
    assert(r@.map_values(|s: String| s@) =~= v@.map_values(|s: String| s@));
    r
}

/// The repository registry: package name -> published-archive record.
#[derive(Debug)]
pub struct RepoInfo {
    packages: Vec<(String, PackageBasicInfo)>,
}

impl View for RepoInfo {
    type V = Map<Seq<char>, EntryView>;

    closed spec fn view(&self) -> Map<Seq<char>, EntryView> {
        map_of(self.packages@)
    }
}

impl RepoInfo {
    /// The registry's internal invariant: no package name occurs twice.
    pub closed spec fn inv(&self) -> bool {
        unique_keys(self.packages@)
    }

    /// An empty registry.
    pub fn new() -> (r: Self)
        ensures
            r.inv(),
            r@ == Map::<Seq<char>, EntryView>::empty(),
    {
        RepoInfo { packages: Vec::new() }
    }

    /// The position of a package name, if it is registered.
    fn find(&self, package_name: &str) -> (r: Option<usize>)
        ensures
            match r {
                Some(i) => i < self.packages@.len() && self.packages@[i as int].0@
                    == package_name@,
                None => forall|i: int|
                    0 <= i < self.packages@.len() ==> self.packages@[i].0@ != package_name@,
            },
    {
        let mut i: usize = 0;
        while i < self.packages.len()
            invariant
                i <= self.packages@.len(),
                forall|j: int| 0 <= j < i ==> self.packages@[j].0@ != package_name@,
            decreases self.packages@.len() - i,
        {
            if str_eq(self.packages[i].0.as_str(), package_name) {
                return Some(i);
            }
            i += 1;
        }
        None
    }

    /// Whether a package of this exact name is registered.
    pub fn has_package(&self, package_name: &str) -> (r: bool)
        ensures
            r == self@.contains_key(package_name@),
    {
        proof {
            lemma_map_of_contains(self.packages@, package_name@);
        }
        match self.find(package_name) {
            Some(_) => true,
            None => false,
        }
    }

    /// Inserts or overwrites the record for `name`, built from the given
    /// fields. Exact key match only; no other entry changes.
    pub fn add_package(
        &mut self,
        name: String,
        url: String,
        file_name: String,
        version: String,
        hash: String,
        dependencies: Option<Vec<String>>,
    )
        requires
            old(self).inv(),
        ensures
            final(self).inv(),
            final(self)@ == old(self)@.insert(
                name@,
                EntryView {
                    url: url@,
                    file_name: file_name@,
                    version: version@,
                    hash: hash@,
                    dependencies: deps_view(dependencies),
                },
            ),
    {
        let package = PackageBasicInfo { url, file_name, version, hash, dependencies };
        self.add_package_with_info(name, package);
    }

    /// Inserts or overwrites the record for `name`. Exact key match only;
    /// no other entry changes.
    pub fn add_package_with_info(&mut self, name: String, info: PackageBasicInfo)
        requires
            old(self).inv(),
        ensures
            final(self).inv(),
            final(self)@ == old(self)@.insert(name@, info@),
    {
        match self.find(name.as_str()) {
            Some(i) => {
                proof {
                    lemma_map_of_remove(self.packages@, i as int);
                }
                let ghost before = self.packages@;
                self.packages.remove(i);
                proof {
                    assert(unique_keys(self.packages@));
                    lemma_map_of_contains(self.packages@, name@);
                }
                self.packages.push((name, info));
                proof {
                    assert(self.packages@.drop_last() =~= before.remove(i as int));
                    assert(self@ =~= map_of(before).insert(
                        self.packages@.last().0@,
                        self.packages@.last().1@,
                    ));
                }
            },
            None => {
                proof {
                    lemma_map_of_contains(self.packages@, name@);
                }
                let ghost before = self.packages@;
                self.packages.push((name, info));
                proof {
                    assert(self.packages@.drop_last() =~= before);
                }
            },
        }
    }

    /// The record for `package_name`; `PackageNotFound` exactly when no such
    /// key is registered.
    pub fn get_package(&self, package_name: &str) -> (r: Result<&PackageBasicInfo, RepoError>)
        requires
            self.inv(),
        ensures
            match r {
                Ok(entry) => self@.contains_key(package_name@) && entry@ == self@[package_name@],
                Err(e) => e == RepoError::PackageNotFound && !self@.contains_key(package_name@),
            },
    {
        proof {
            lemma_map_of_contains(self.packages@, package_name@);
        }
        match self.find(package_name) {
            Some(i) => {
                proof {
                    lemma_map_of_index(self.packages@, i as int);
                }
                Ok(&self.packages[i].1)
            },
            None => Err(RepoError::PackageNotFound),
        }
    }

    /// Deletes and returns the record for `package_name`; `PackageNotFound`
    /// exactly when no such key is registered, and then nothing changes.
    pub fn remove_package(&mut self, package_name: &str) -> (r: Result<
        PackageBasicInfo,
        RepoError,
    >)
        requires
            old(self).inv(),
        ensures
            final(self).inv(),
            match r {
                Ok(entry) => old(self)@.contains_key(package_name@) && entry@ == old(
                    self,
                )@[package_name@] && final(self)@ == old(self)@.remove(package_name@),
                Err(e) => e == RepoError::PackageNotFound && !old(self)@.contains_key(
                    package_name@,
                ) && final(self)@ == old(self)@,
            },
    {
        proof {
            lemma_map_of_contains(self.packages@, package_name@);
        }
        match self.find(package_name) {
            Some(i) => {
                proof {
                    lemma_map_of_index(self.packages@, i as int);
                    lemma_map_of_remove(self.packages@, i as int);
                }
                let (_, entry) = self.packages.remove(i);
                Ok(entry)
            },
            None => Err(RepoError::PackageNotFound),
        }
    }

    /// Overwrites the given fields of the record for `package_name`, leaving
    /// the others as they were; if no such record exists, registers one with
    /// the given fields, empty strings for the rest, and no dependencies.
    pub fn update_package(
        &mut self,
        package_name: &str,
        url: Option<String>,
        file_name: Option<String>,
        version: Option<String>,
        hash: Option<String>,
        dependencies: Option<Vec<String>>,
    )
        requires
            old(self).inv(),
        ensures
            final(self).inv(),
            old(self)@.contains_key(package_name@) ==> final(self)@ == old(self)@.insert(
                package_name@,
                EntryView {
                    url: updated_field(url, old(self)@[package_name@].url),
                    file_name: updated_field(file_name, old(self)@[package_name@].file_name),
                    version: updated_field(version, old(self)@[package_name@].version),
                    hash: updated_field(hash, old(self)@[package_name@].hash),
                    dependencies: match dependencies {
                        Some(d) => Some(d@.map_values(|s: String| s@)),
                        None => old(self)@[package_name@].dependencies,
                    },
                },
            ),
            !old(self)@.contains_key(package_name@) ==> final(self)@ == old(self)@.insert(
                package_name@,
                EntryView {
                    url: defaulted_field(url),
                    file_name: defaulted_field(file_name),
                    version: defaulted_field(version),
                    hash: defaulted_field(hash),
                    dependencies: None,
                },
            ),
    {
        proof {
            lemma_map_of_contains(self.packages@, package_name@);
        }
        match self.find(package_name) {
            Some(i) => {
                proof {
                    lemma_map_of_index(self.packages@, i as int);
                    lemma_map_of_remove(self.packages@, i as int);
                }
                let ghost before = self.packages@;
                let (name, mut existing) = self.packages.remove(i);
                if let Some(new_url) = url {
                    existing.url = new_url;
                }
                if let Some(new_file_name) = file_name {
                    existing.file_name = new_file_name;
                }
                if let Some(new_version) = version {
                    existing.version = new_version;
                }
                if let Some(new_hash) = hash {
                    existing.hash = new_hash;
                }
                if let Some(new_dependencies) = dependencies {
                    existing.dependencies = Some(new_dependencies);
                }
                proof {
                    assert(unique_keys(self.packages@));
                    lemma_map_of_contains(self.packages@, name@);
                }
                self.packages.push((name, existing));
                proof {
                    assert(self.packages@.drop_last() =~= before.remove(i as int));
                    assert(map_of(before).remove(package_name@).insert(
                        self.packages@.last().0@,
                        self.packages@.last().1@,
                    ) =~= map_of(before).insert(
                        self.packages@.last().0@,
                        self.packages@.last().1@,
                    ));
                }
            },
            None => {
                let entry = PackageBasicInfo {
                    url: unwrap_or_empty(url),
                    file_name: unwrap_or_empty(file_name),
                    version: unwrap_or_empty(version),
                    hash: unwrap_or_empty(hash),
                    dependencies: None,
                };
                let ghost before = self.packages@;
                let owned = package_name.to_owned();
                self.packages.push((owned, entry));
                proof {
                    assert(self.packages@.drop_last() =~= before);
                }
            },
        }
    }
}

/// The value an optional override leaves in a field that held `prior`.
pub open spec fn updated_field(v: Option<String>, prior: Seq<char>) -> Seq<char> {
    match v {
        Some(s) => s@,
        None => prior,
    }
}

/// The value an optional override leaves in a freshly created field.
pub open spec fn defaulted_field(v: Option<String>) -> Seq<char> {
    match v {
        Some(s) => s@,
        None => Seq::<char>::empty(),
    }
}

/// The string an optional override holds, or the empty string.
fn unwrap_or_empty(v: Option<String>) -> (r: String)
    ensures
        r@ == defaulted_field(v),
{
    match v {
        Some(s) => s,
        None => String::new(),
    }
}

impl RepoInfo {
    /// The registry's members in their stored order, as mathematical pairs.
    pub closed spec fn pairs(&self) -> Seq<(Seq<char>, EntryView)> {
        self.packages@.map_values(|p: (String, PackageBasicInfo)| (p.0@, p.1@))
    }

    /// The canonical text of the registry file.
    pub fn to_json(&self) -> (out: Vec<char>)
        ensures
            out@ == ser_registry(self.pairs()),
    {
        let ghost prs = self.pairs();
        let mut out: Vec<char> = Vec::new();
        out.push('{');
        if self.packages.len() == 0 {
            out.push('}');
            proof {
                assert(prs.len() == 0);
                assert(out@ =~= ser_registry(prs));
            }
            return out;
        }
        let mut i: usize = 0;
        while i < self.packages.len()
            invariant
                i <= self.packages@.len(),
                prs == self.pairs(),
                prs.len() == self.packages@.len(),
                prs.len() >= 1,
                out@ == seq!['{'] + ser_pairs(prs.subrange(0, i as int)),
            decreases self.packages@.len() - i,
        {
            let ghost prefix = prs.subrange(0, i as int);
            if i > 0 {
                out.push(',');
            }
            emit_str(&mut out, self.packages[i].0.as_str());
            out.push(':');
            emit_entry(&mut out, &self.packages[i].1);
            proof {
                assert(prs[i as int] == (
                    self.packages@[i as int].0@,
                    self.packages@[i as int].1@,
                ));
                if i == 0 {
                    assert(prs.subrange(0, 1).len() == 1);
                    assert(prs.subrange(0, 1)[0] == prs[0]);
                    assert(ser_pairs(prs.subrange(0, 1)) == ser_pair(prs[0]));
                    assert(out@ =~= seq!['{'] + ser_pairs(prs.subrange(0, 1)));
                } else {
                    lemma_ser_pairs_snoc(prefix, prs[i as int]);
                    assert(prefix.push(prs[i as int]) =~= prs.subrange(0, i as int + 1));
                    assert(out@ =~= seq!['{'] + (ser_pairs(prefix) + seq![','] + ser_pair(
                        prs[i as int],
                    )));
                }
            }
            i += 1;
        }
        out.push('}');
        proof {
            assert(prs.subrange(0, prs.len() as int) =~= prs);
            assert(out@ =~= ser_registry(prs));
        }
        out
    }

    /// Reads a whole registry file: the registry, exactly when the text is
    /// one canonical registry; `ParseError` otherwise.
    pub fn from_json(v: &Vec<char>) -> (r: Result<RepoInfo, RepoError>)
        ensures
            match r {
                Ok(reg) => reg.inv() && registry_json_value(v@) == Some(reg@),
                Err(e) => e == RepoError::ParseError && registry_json_value(v@) is None,
            },
    {
        if v.len() < 2 {
            return Err(RepoError::ParseError);
        }
        if v[0] != '{' {
            return Err(RepoError::ParseError);
        }
        if v[1] == '}' {
            if v.len() == 2 {
                let reg = RepoInfo::new();
                return Ok(reg);
            }
            return Err(RepoError::ParseError);
        }
        let ghost m0 = v@.skip(1);
        proof {
            assert(adv(v@, 1) =~= m0);
        }
        let mut reg = RepoInfo::new();
        let mut pos: usize = 1;
        loop
            invariant
                1 <= pos <= v@.len(),
                2 <= v@.len(),
                v@[0] == '{',
                v@[1] != '}',
                m0 == v@.skip(1),
                adv(v@, 1) == m0,
                reg.inv(),
                sp_members(m0, Map::<Seq<char>, EntryView>::empty()) == (match sp_members(
                    v@.skip(pos as int),
                    reg@,
                ) {
                    Some((m, q)) => Some((m, (pos - 1) as int + q)),
                    None => None::<(Map<Seq<char>, EntryView>, int)>,
                }),
            decreases v@.len() - pos,
        {
            let ghost cb = v@.skip(pos as int);
            let ghost regmap = reg@;
            let kp = match parse_str(v, pos) {
                Some(p) => p,
                None => {
                    return Err(RepoError::ParseError);
                },
            };
            let (k, e1) = kp;
            proof {
                lemma_sp_str_bounds(cb);
                lemma_skip_adv(v@, pos as int, e1 - pos as int);
                assert(adv(cb, e1 - pos as int) == v@.skip(e1 as int));
            }
            if e1 >= v.len() {
                return Err(RepoError::ParseError);
            }
            if v[e1] != ':' {
                proof {
                    assert(v@.skip(e1 as int)[0] == v@[e1 as int]);
                }
                return Err(RepoError::ParseError);
            }
            proof {
                assert(v@.skip(e1 as int)[0] == ':');
                lemma_skip_adv(v@, e1 as int, 1);
                assert(adv(v@.skip(e1 as int), 1) == v@.skip(e1 as int + 1));
            }
            let ep = match parse_entry(v, e1 + 1) {
                Some(p) => p,
                None => {
                    return Err(RepoError::ParseError);
                },
            };
            let (ent, e2) = ep;
            proof {
                lemma_sp_entry_bounds(v@.skip(e1 as int + 1));
                lemma_skip_adv(v@, e1 as int + 1, e2 - (e1 as int + 1));
                assert(adv(v@.skip(e1 as int + 1), e2 - (e1 as int + 1)) == v@.skip(e2 as int));
            }
            let ghost entv = ent@;
            let ghost kv = k@;
            reg.add_package_with_info(k, ent);
            if e2 >= v.len() {
                proof {
                    assert(v@.skip(e2 as int).len() == 0);
                }
                return Err(RepoError::ParseError);
            }
            let sep = v[e2];
            proof {
                assert(v@.skip(e2 as int)[0] == sep);
            }
            if sep == ',' {
                proof {
                    lemma_skip_adv(v@, e2 as int, 1);
                    assert(adv(v@.skip(e2 as int), 1) == v@.skip(e2 as int + 1));
                    assert(sp_members(cb, regmap) == (match sp_members(
                        v@.skip(e2 as int + 1),
                        regmap.insert(kv, entv),
                    ) {
                        Some((m, q)) => Some((m, (e2 + 1 - pos) as int + q)),
                        None => None::<(Map<Seq<char>, EntryView>, int)>,
                    }));
                }
                pos = e2 + 1;
            } else if sep == '}' {
                proof {
                    assert(sp_members(cb, regmap) == Some((
                        regmap.insert(kv, entv),
                        (e2 + 1 - pos) as int,
                    )));
                    assert(sp_members(m0, Map::<Seq<char>, EntryView>::empty()) == Some((
                        reg@,
                        (e2 + 1 - 1) as int,
                    )));
                    assert(sp_registry(v@) == Some((reg@, (e2 + 1) as int)));
                }
                if e2 + 1 == v.len() {
                    return Ok(reg);
                }
                return Err(RepoError::ParseError);
            } else {
                return Err(RepoError::ParseError);
            }
        }
    }
}

/// Folding the registry's members over the empty map yields exactly the
/// registry's map.
pub proof fn lemma_fold_insert_is_view(s: Seq<(String, PackageBasicInfo)>)
    ensures
        fold_insert(
            Map::<Seq<char>, EntryView>::empty(),
            s.map_values(|p: (String, PackageBasicInfo)| (p.0@, p.1@)),
        ) == map_of(s),
    decreases s.len(),
{
    let t = s.map_values(|p: (String, PackageBasicInfo)| (p.0@, p.1@));
    if s.len() == 0 {
        assert(t.len() == 0);
    } else {
        lemma_fold_insert_is_view(s.drop_last());
        let t2 = s.drop_last().map_values(|p: (String, PackageBasicInfo)| (p.0@, p.1@));
        assert(t =~= t2.push((s.last().0@, s.last().1@)));
        lemma_fold_insert_snoc(
            Map::<Seq<char>, EntryView>::empty(),
            t2,
            s.last().0@,
            s.last().1@,
        );
    }
}

/// Registry round-trip: the canonical text the registry serializes to reads
/// back as exactly the registry's own map, for any registry with zero or
/// more entries.
pub proof fn lemma_registry_round_trip(reg: &RepoInfo)
    ensures
        registry_json_value(ser_registry(reg.pairs())) == Some(reg@),
{
    lemma_sp_registry_of_ser(reg.pairs());
    lemma_fold_insert_is_view(reg.packages@);
}

/// Once an entry is added under a name, removing that name yields that very
/// entry and restores the registry; removing an absent name is refused with
/// `PackageNotFound` and changes nothing. Stated over the registry's map.
pub proof fn lemma_add_remove_symmetry(
    m: Map<Seq<char>, EntryView>,
    name: Seq<char>,
    entry: EntryView,
)
    ensures
        m.insert(name, entry).contains_key(name),
        m.insert(name, entry)[name] == entry,
        m.contains_key(name) ==> m.insert(name, entry).remove(name).insert(name, m[name]) == m,
        !m.contains_key(name) ==> m.insert(name, entry).remove(name) == m,
{
    if m.contains_key(name) {
        assert(m.insert(name, entry).remove(name).insert(name, m[name]) =~= m);
    } else {
        assert(m.insert(name, entry).remove(name) =~= m);
    }
}

} // verus!
