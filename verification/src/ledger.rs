//! The per-package hash ledger: the digest of every regular file under one
//! package's root, keyed by the slash-normalized path relative to that root,
//! excluding the ledger's own file.

use crate::chars::str_eq;
use crate::digest::{digest_bytes, digest_of};
use crate::json::{emit_str, lemma_ser_lpairs_snoc, ser_ledger, ser_lpair, ser_lpairs};
use crate::pairs::{lemma_map_of_contains, lemma_map_of_index, lemma_map_of_remove, map_of,
    unique_keys};
use vstd::prelude::*;

verus! {

/// One file's root-relative path and byte content, as handed to the ledger
/// by whatever enumerated the package tree.
pub struct FileContent {
    pub path: String,
    pub data: Vec<u8>,
}

/// The mathematical value of one enumerated file.
pub struct FileView {
    pub path: Seq<char>,
    pub data: Seq<u8>,
}

impl View for FileContent {
    type V = FileView;

    open spec fn view(&self) -> FileView {
        FileView { path: self.path@, data: self.data@ }
    }
}

/// The ledger a full recomputation yields from the enumerated files: every
/// file but the ledger's own maps to the digest of its content; a later
/// entry under the same path wins.
pub open spec fn ledger_of(files: Seq<FileView>, ledger_name: Seq<char>) -> Map<
    Seq<char>,
    Seq<char>,
>
    decreases files.len(),
{
    if files.len() == 0 {
        Map::<Seq<char>, Seq<char>>::empty()
    } else {
        let m = ledger_of(files.drop_last(), ledger_name);
        if files.last().path == ledger_name {
            m
        } else {
            m.insert(files.last().path, digest_of(files.last().data))
        }
    }
}

/// The per-package hash ledger: root-relative path -> file digest. Keys are
/// unique; insertion order carries no meaning.
pub struct HashLedger {
    entries: Vec<(String, String)>,
}

impl View for HashLedger {
    type V = Map<Seq<char>, Seq<char>>;

    closed spec fn view(&self) -> Map<Seq<char>, Seq<char>> {
        map_of(self.entries@)
    }
}

impl HashLedger {
    /// The ledger's internal invariant: no path occurs twice.
    pub closed spec fn inv(&self) -> bool {
        unique_keys(self.entries@)
    }

    /// An empty ledger.
    pub fn new() -> (r: Self)
        ensures
            r.inv(),
            r@ == Map::<Seq<char>, Seq<char>>::empty(),
    {
        HashLedger { entries: Vec::new() }
    }

    /// The position of a path, if the ledger holds it.
    fn find(&self, path: &str) -> (r: Option<usize>)
        ensures
            match r {
                Some(i) => i < self.entries@.len() && self.entries@[i as int].0@ == path@,
                None => forall|i: int|
                    0 <= i < self.entries@.len() ==> self.entries@[i].0@ != path@,
            },
    {
        let mut i: usize = 0;
        while i < self.entries.len()
            invariant
                i <= self.entries@.len(),
                forall|j: int| 0 <= j < i ==> self.entries@[j].0@ != path@,
            decreases self.entries@.len() - i,
        {
            if str_eq(self.entries[i].0.as_str(), path) {
                return Some(i);
            }
            i += 1;
        }
        None
    }

    /// Records a digest under a path, overwriting any prior entry for that
    /// exact path; no other entry changes.
    pub fn insert(&mut self, path: String, file_digest: String)
        requires
            old(self).inv(),
        ensures
            final(self).inv(),
            final(self)@ == old(self)@.insert(path@, file_digest@),
    {
        match self.find(path.as_str()) {
            Some(i) => {
                proof {
                    lemma_map_of_remove(self.entries@, i as int);
                }
                let ghost before = self.entries@;
                self.entries.remove(i);
                proof {
                    assert(unique_keys(self.entries@));
                    lemma_map_of_contains(self.entries@, path@);
                }
                self.entries.push((path, file_digest));
                proof {
                    assert(self.entries@.drop_last() =~= before.remove(i as int));
                    assert(self@ =~= map_of(before).insert(
                        self.entries@.last().0@,
                        self.entries@.last().1@,
                    ));
                }
            },
            None => {
                proof {
                    lemma_map_of_contains(self.entries@, path@);
                }
                let ghost before = self.entries@;
                self.entries.push((path, file_digest));
                proof {
                    assert(self.entries@.drop_last() =~= before);
                }
            },
        }
    }

    /// The digest recorded under a path, if any.
    pub fn get(&self, path: &str) -> (r: Option<&String>)
        requires
            self.inv(),
        ensures
            match r {
                Some(d) => self@.contains_key(path@) && d@ == self@[path@],
                None => !self@.contains_key(path@),
            },
    {
        proof {
            lemma_map_of_contains(self.entries@, path@);
        }
        match self.find(path) {
            Some(i) => {
                proof {
                    lemma_map_of_index(self.entries@, i as int);
                }
                Some(&self.entries[i].1)
            },
            None => None,
        }
    }

    /// The ledger's members in their stored order, as mathematical pairs.
    pub closed spec fn pairs(&self) -> Seq<(Seq<char>, Seq<char>)> {
        self.entries@.map_values(|p: (String, String)| (p.0@, p.1@))
    }

    /// The canonical text of the ledger file.
    pub fn to_json(&self) -> (out: Vec<char>)
        ensures
            out@ == ser_ledger(self.pairs()),
    {
        let ghost prs = self.pairs();
        let mut out: Vec<char> = Vec::new();
        out.push('{');
        if self.entries.len() == 0 {
            out.push('}');
            proof {
                assert(prs.len() == 0);
                assert(out@ =~= ser_ledger(prs));
            }
            return out;
        }
        let mut i: usize = 0;
        while i < self.entries.len()
            invariant
                i <= self.entries@.len(),
                prs == self.pairs(),
                prs.len() == self.entries@.len(),
                prs.len() >= 1,
                out@ == seq!['{'] + ser_lpairs(prs.subrange(0, i as int)),
            decreases self.entries@.len() - i,
        {
            let ghost prefix = prs.subrange(0, i as int);
            if i > 0 {
                out.push(',');
            }
            emit_str(&mut out, self.entries[i].0.as_str());
            out.push(':');
            emit_str(&mut out, self.entries[i].1.as_str());
            proof {
                assert(prs[i as int] == (self.entries@[i as int].0@, self.entries@[i as int].1@));
                if i == 0 {
                    assert(prs.subrange(0, 1).len() == 1);
                    assert(prs.subrange(0, 1)[0] == prs[0]);
                    assert(ser_lpairs(prs.subrange(0, 1)) == ser_lpair(prs[0]));
                    assert(out@ =~= seq!['{'] + ser_lpairs(prs.subrange(0, 1)));
                } else {
                    lemma_ser_lpairs_snoc(prefix, prs[i as int]);
                    assert(prefix.push(prs[i as int]) =~= prs.subrange(0, i as int + 1));
                    assert(out@ =~= seq!['{'] + (ser_lpairs(prefix) + seq![','] + ser_lpair(
                        prs[i as int],
                    )));
                }
            }
            i += 1;
        }
        out.push('}');
        proof {
            assert(prs.subrange(0, prs.len() as int) =~= prs);
            assert(out@ =~= ser_ledger(prs));
        }
        out
    }

    /// How many paths the ledger holds.
    pub fn len(&self) -> (r: usize)
        requires
            self.inv(),
        ensures
            r == self@.dom().len(),
    {
        proof {
            lemma_map_of_dom_len(self.entries@);
        }
        self.entries.len()
    }
}

/// With unique keys, the map holds exactly one entry per pair.
proof fn lemma_map_of_dom_len(s: Seq<(String, String)>)
    requires
        unique_keys(s),
    ensures
        map_of(s).dom().len() == s.len(),
        map_of(s).dom().finite(),
    decreases s.len(),
{
    if s.len() > 0 {
        lemma_map_of_dom_len(s.drop_last());
        lemma_map_of_contains(s.drop_last(), s.last().0@);
        assert(!map_of(s.drop_last()).contains_key(s.last().0@));
        assert(map_of(s).dom() =~= map_of(s.drop_last()).dom().insert(s.last().0@));
        vstd::set::axiom_set_insert_len(map_of(s.drop_last()).dom(), s.last().0@);
    }
}

/// Recomputes a package's ledger in full from the enumerated files: every
/// file under the package root except the ledger file itself is recorded
/// under its root-relative path, with the digest of its exact bytes.
pub fn recompute(files: &Vec<FileContent>, ledger_name: &str) -> (r: HashLedger)
    ensures
        r.inv(),
        r@ == ledger_of(files@.map_values(|f: FileContent| f@), ledger_name@),
{
    let ghost fviews = files@.map_values(|f: FileContent| f@);
    let mut ledger = HashLedger::new();
    let mut i: usize = 0;
    while i < files.len()
        invariant
            i <= files@.len(),
            fviews == files@.map_values(|f: FileContent| f@),
            ledger.inv(),
            ledger@ == ledger_of(fviews.subrange(0, i as int), ledger_name@),
        decreases files@.len() - i,
    {
        let ghost prefix = fviews.subrange(0, i as int);
        let ghost next_prefix = fviews.subrange(0, i as int + 1);
        if !str_eq(files[i].path.as_str(), ledger_name) {
            let d = digest_bytes(&files[i].data);
            ledger.insert(files[i].path.clone(), d);
        }
        proof {
            assert(next_prefix.drop_last() =~= prefix);
            assert(next_prefix.last() == fviews[i as int]);
        }
        i += 1;
    }
    proof {
        assert(fviews.subrange(0, files@.len() as int) =~= fviews);
    }
    ledger
}

/// Ledger completeness: when the enumerated paths are distinct, the
/// recomputed ledger holds exactly one entry per file other than the ledger
/// file itself — that file's root-relative path, mapped to the digest of its
/// content — and nothing else.
pub proof fn lemma_ledger_completeness(files: Seq<FileView>, ledger_name: Seq<char>)
    requires
        forall|i: int, j: int| 0 <= i < j < files.len() ==> files[i].path != files[j].path,
    ensures
        forall|i: int|
            0 <= i < files.len() && files[i].path != ledger_name ==> {
                &&& ledger_of(files, ledger_name).contains_key(files[i].path)
                &&& ledger_of(files, ledger_name)[files[i].path] == digest_of(files[i].data)
            },
        forall|k: Seq<char>|
            ledger_of(files, ledger_name).contains_key(k) ==> k != ledger_name && exists|i: int|
                0 <= i < files.len() && files[i].path == k,
    decreases files.len(),
{
    if files.len() > 0 {
        lemma_ledger_completeness(files.drop_last(), ledger_name);
        assert forall|i: int|
            0 <= i < files.len() && files[i].path != ledger_name implies {
            &&& ledger_of(files, ledger_name).contains_key(files[i].path)
            &&& ledger_of(files, ledger_name)[files[i].path] == digest_of(files[i].data)
        } by {
            if i < files.len() - 1 {
                assert(files.drop_last()[i] == files[i]);
                assert(files.last().path != files[i].path);
            }
        }
        assert forall|k: Seq<char>|
            ledger_of(files, ledger_name).contains_key(k) implies k != ledger_name && exists|
            i: int,
        | 0 <= i < files.len() && files[i].path == k by {
            if files.last().path != ledger_name && k == files.last().path {
                assert(files[files.len() - 1].path == k);
            } else {
                assert(ledger_of(files.drop_last(), ledger_name).contains_key(k));
                let i = choose|i: int|
                    0 <= i < files.len() - 1 && files.drop_last()[i].path == k;
                assert(files[i].path == k);
            }
        }
    }
}

} // verus!
