//! The duplicate index.
//!
//! One index is shared by all hashing workers for the lifetime of a
//! scan; the surrounding program guards it with a lock, so that each
//! `observe` call runs as one indivisible operation, and reads it only
//! after the worker pool has drained. This module holds the index
//! itself, verified against the model of `scan_model`: every mutation
//! is exactly one model step, so everything proved of the model holds
//! of a completed scan.

use vstd::prelude::*;

use crate::scan_model::{empty_index, insert_step, observe_step, IndexEntry, IndexView, Observation};

verus! {

/// One distinct fingerprint's record: the first path observed with it,
/// and every later path observed with it.
pub struct DuplicateMeta {
    pub filename: String,
    pub duplicates: Vec<String>,
}

impl View for DuplicateMeta {
    type V = IndexEntry;

    open spec fn view(&self) -> IndexEntry {
        IndexEntry {
            canonical: self.filename@,
            duplicates: self.duplicates@.map_values(|p: String| p@),
        }
    }
}

impl DuplicateMeta {
    /// A fresh record: this path is the canonical one, no duplicates
    /// yet.
    pub fn new(filename: String) -> (m: DuplicateMeta)
        ensures
            m@ == (IndexEntry { canonical: filename@, duplicates: Seq::<Seq<char>>::empty() }),
    {
        let m = DuplicateMeta { filename, duplicates: Vec::new() };
        proof {
            assert(m@.duplicates =~= Seq::<Seq<char>>::empty());
            assert(m@ =~= (IndexEntry {
                canonical: m.filename@,
                duplicates: Seq::<Seq<char>>::empty(),
            }));
        }
        m
    }
}

/// The entries a backing sequence of fingerprint/record pairs holds,
/// later pairs overriding earlier ones; with pairwise-distinct
/// fingerprints this is the evident association.
pub open spec fn entries_of(s: Seq<(String, DuplicateMeta)>) -> Map<Seq<char>, IndexEntry>
    decreases s.len(),
{
    if s.len() == 0 {
        Map::empty()
    } else {
        entries_of(s.drop_last()).insert(s.last().0@, s.last().1@)
    }
}

/// A fingerprint is in the entries exactly when some pair carries it.
proof fn lemma_entries_domain(s: Seq<(String, DuplicateMeta)>, fp: Seq<char>)
    ensures
        entries_of(s).contains_key(fp) <==> exists|i: int| 0 <= i < s.len() && s[i].0@ == fp,
    decreases s.len(),
{
    if s.len() > 0 {
        let front = s.drop_last();
        lemma_entries_domain(front, fp);
        assert(s[s.len() - 1] == s.last());
        if exists|i: int| 0 <= i < front.len() && front[i].0@ == fp {
            let i = choose|i: int| 0 <= i < front.len() && front[i].0@ == fp;
            assert(s[i].0@ == fp);
        }
        if s.last().0@ != fp && exists|i: int| 0 <= i < s.len() && s[i].0@ == fp {
            let i = choose|i: int| 0 <= i < s.len() && s[i].0@ == fp;
            assert(front[i].0@ == fp);
        }
    }
}

/// With pairwise-distinct fingerprints, each pair's record is its
/// fingerprint's entry.
proof fn lemma_entries_index(s: Seq<(String, DuplicateMeta)>, i: int)
    requires
        distinct_hashes(s),
        0 <= i < s.len(),
    ensures
        entries_of(s).contains_key(s[i].0@),
        entries_of(s)[s[i].0@] == s[i].1@,
    decreases s.len(),
{
    assert(s[s.len() - 1] == s.last());
    if i < s.len() - 1 {
        let front = s.drop_last();
        assert(distinct_hashes(front)) by {
            assert(forall|k: int| 0 <= k < front.len() ==> front[k] == s[k]);
        }
        lemma_entries_index(front, i);
        assert(s.last().0@ != s[i].0@);
    }
}

/// Replacing the record at one position replaces that fingerprint's
/// entry and no other.
proof fn lemma_entries_update(s: Seq<(String, DuplicateMeta)>, i: int, m: DuplicateMeta)
    requires
        distinct_hashes(s),
        0 <= i < s.len(),
    ensures
        entries_of(s.update(i, (s[i].0, m))) =~= entries_of(s).insert(s[i].0@, m@),
    decreases s.len(),
{
    let t = s.update(i, (s[i].0, m));
    assert(s[s.len() - 1] == s.last());
    assert(t[t.len() - 1] == t.last());
    if i == s.len() - 1 {
        assert(t.drop_last() =~= s.drop_last());
    } else {
        let front = s.drop_last();
        assert(distinct_hashes(front)) by {
            assert(forall|k: int| 0 <= k < front.len() ==> front[k] == s[k]);
        }
        assert(t.drop_last() =~= front.update(i, (s[i].0, m)));
        lemma_entries_update(front, i, m);
        assert(s.last().0@ != s[i].0@);
    }
}

/// Whether no two pairs of the backing sequence carry the same
/// fingerprint.
pub open spec fn distinct_hashes(s: Seq<(String, DuplicateMeta)>) -> bool {
    forall|i: int, j: int| 0 <= i < j < s.len() ==> s[i].0@ != s[j].0@
}

/// The duplicate index: one record per distinct fingerprint observed,
/// the count of files observed, and the bytes held by duplicate copies.
pub struct FileIndex {
    files: Vec<(String, DuplicateMeta)>,
    count: i64,
    dupe_size: u64,
}

impl View for FileIndex {
    type V = IndexView;

    closed spec fn view(&self) -> IndexView {
        IndexView {
            entries: entries_of(self.files@),
            count: self.count as int,
            dupe_size: self.dupe_size as int,
        }
    }
}

impl FileIndex {
    /// Well-formed: no fingerprint is recorded twice.
    pub closed spec fn wf(&self) -> bool {
        distinct_hashes(self.files@)
    }

    /// An index that has observed nothing.
    pub fn new() -> (idx: FileIndex)
        ensures
            idx.wf(),
            idx@ == empty_index(),
    {
        let idx = FileIndex { files: Vec::new(), count: 0, dupe_size: 0 };
        proof {
            assert(idx@ =~= empty_index());
        }
        idx
    }

    /// Count one more observed file.
    pub fn increment(&mut self)
        requires
            old(self).wf(),
            old(self)@.count < i64::MAX,
        ensures
            final(self).wf(),
            final(self)@ == (IndexView {
                entries: old(self)@.entries,
                count: old(self)@.count + 1,
                dupe_size: old(self)@.dupe_size,
            }),
    {
        self.count = self.count + 1;
        proof {
            assert(self@ =~= (IndexView {
                entries: old(self)@.entries,
                count: old(self)@.count + 1,
                dupe_size: old(self)@.dupe_size,
            }));
        }
    }

    /// Add a duplicate copy's size to the duplicated-byte total.
    pub fn duplication_size_increment(&mut self, size: u64)
        requires
            old(self).wf(),
            old(self)@.dupe_size + size <= u64::MAX,
        ensures
            final(self).wf(),
            final(self)@ == (IndexView {
                entries: old(self)@.entries,
                count: old(self)@.count,
                dupe_size: old(self)@.dupe_size + size,
            }),
    {
        self.dupe_size = self.dupe_size + size;
        proof {
            assert(self@ =~= (IndexView {
                entries: old(self)@.entries,
                count: old(self)@.count,
                dupe_size: old(self)@.dupe_size + size,
            }));
        }
    }

    /// Whether a fingerprint already has an entry.
    pub fn contains(&self, hash: &String) -> (r: bool)
        requires
            self.wf(),
        ensures
            r == self@.entries.contains_key(hash@),
    {
        let n = self.files.len();
        let mut i: usize = 0;
        while i < n
            invariant
                n == self.files@.len(),
                i <= n,
                forall|j: int| 0 <= j < i ==> self.files@[j].0@ != hash@,
            decreases n - i,
        {
            if self.files[i].0 == *hash {
                proof {
                    lemma_entries_domain(self.files@, hash@);
                }
                return true;
            }
            i = i + 1;
        }
        proof {
            lemma_entries_domain(self.files@, hash@);
        }
        false
    }

    /// Record one hashed file under its fingerprint: the first sighting
    /// of a fingerprint opens its entry with this path as canonical; a
    /// later sighting appends the path to the entry's duplicates and
    /// adds the file's size to the duplicated-byte total.
    pub fn insert(&mut self, hash: String, filepath: String, filesize: u64)
        requires
            old(self).wf(),
            old(self)@.entries.contains_key(hash@) ==> old(self)@.dupe_size + filesize
                <= u64::MAX,
        ensures
            final(self).wf(),
            final(self)@ == insert_step(old(self)@, hash@, filepath@, filesize),
    {
        let ghost s0 = self.files@;
        let n = self.files.len();
        let mut i: usize = 0;
        while i < n
            invariant
                n == self.files@.len(),
                i <= n,
                self.files@ == s0,
                s0 == old(self).files@,
                distinct_hashes(s0),
                self.count == old(self).count,
                self.dupe_size == old(self).dupe_size,
                entries_of(s0).contains_key(hash@) ==> old(self).dupe_size + filesize
                    <= u64::MAX,
                forall|j: int| 0 <= j < i ==> self.files@[j].0@ != hash@,
            decreases n - i,
        {
            if self.files[i].0 == hash {
                proof {
                    lemma_entries_domain(s0, hash@);
                    lemma_entries_index(s0, i as int);
                }
                let entry = &mut self.files[i];
                entry.1.duplicates.push(filepath);
                proof {
                    assert(self.files@ =~= s0.update(i as int, (s0[i as int].0, self.files@[i as int].1)));
                    lemma_entries_update(s0, i as int, self.files@[i as int].1);
                    assert(self.files@[i as int].1@ == (IndexEntry {
                        canonical: s0[i as int].1@.canonical,
                        duplicates: s0[i as int].1@.duplicates.push(filepath@),
                    })) by {
                        assert(self.files@[i as int].1@.duplicates =~= s0[i as int].1@.duplicates.push(
                            filepath@,
                        ));
                    }
                    assert(distinct_hashes(self.files@)) by {
                        assert(forall|k: int|
                            0 <= k < self.files@.len() ==> self.files@[k].0@ == s0[k].0@);
                    }
                }
                self.duplication_size_increment(filesize);
                proof {
                    assert(self@.entries =~= insert_step(
                        old(self)@,
                        hash@,
                        filepath@,
                        filesize,
                    ).entries);
                    assert(self@ =~= insert_step(old(self)@, hash@, filepath@, filesize));
                }
                return ;
            }
            i = i + 1;
        }
        proof {
            lemma_entries_domain(s0, hash@);
        }
        let meta = DuplicateMeta::new(filepath);
        self.files.push((hash, meta));
        proof {
            assert(self.files@.drop_last() =~= s0);
            assert(self.files@[self.files@.len() - 1] == self.files@.last());
            assert(distinct_hashes(self.files@)) by {
                assert(forall|k: int| 0 <= k < s0.len() ==> self.files@[k] == s0[k]);
            }
            assert(self@ =~= insert_step(old(self)@, hash@, filepath@, filesize));
        }
    }

    /// The one atomic operation a hashing worker performs after reading
    /// a file: count it, then record it under its fingerprint. Run
    /// under the index's lock, so no two workers can both believe they
    /// are first for one fingerprint.
    pub fn observe(&mut self, fingerprint: String, path: String, size: u64)
        requires
            old(self).wf(),
            old(self)@.count < i64::MAX,
            old(self)@.entries.contains_key(fingerprint@) ==> old(self)@.dupe_size + size
                <= u64::MAX,
        ensures
            final(self).wf(),
            final(self)@ == observe_step(
                old(self)@,
                (Observation { fingerprint: fingerprint@, path: path@, size: size }),
            ),
    {
        self.increment();
        self.insert(fingerprint, path, size);
    }

    /// Whether the machine limits on the counters leave room to observe
    /// a file of this size under this fingerprint.
    pub fn can_observe(&self, fingerprint: &String, size: u64) -> (r: bool)
        requires
            self.wf(),
        ensures
            r == (self@.count < i64::MAX && (self@.entries.contains_key(fingerprint@)
                ==> self@.dupe_size + size <= u64::MAX)),
    {
        if self.count >= i64::MAX {
            return false;
        }
        if self.dupe_size <= u64::MAX - size {
            return true;
        }
        !self.contains(fingerprint)
    }

    /// How many files were observed.
    pub fn files_seen(&self) -> (c: i64)
        ensures
            c == self@.count,
    {
        self.count
    }

    /// How many bytes duplicate copies hold.
    pub fn duplicated_bytes(&self) -> (b: u64)
        ensures
            b == self@.dupe_size,
    {
        self.dupe_size
    }

    /// How many distinct fingerprints have an entry.
    pub fn num_entries(&self) -> (n: usize)
        ensures
            n == self.num_entries_spec(),
    {
        self.files.len()
    }

    /// The fingerprint and record at one position of the index, for the
    /// reporter to walk after the scan has drained.
    pub fn entry_at(&self, i: usize) -> (e: &(String, DuplicateMeta))
        requires
            self.wf(),
            i < self.num_entries_spec(),
        ensures
            e.0@ == self.hash_at_spec(i as int),
            e.1@ == self.entry_at_spec(i as int),
            self@.entries.contains_key(e.0@),
            self@.entries[e.0@] == e.1@,
    {
        proof {
            lemma_entries_index(self.files@, i as int);
        }
        &self.files[i]
    }

    /// The number of entries, for contracts.
    pub closed spec fn num_entries_spec(&self) -> nat {
        self.files@.len()
    }

    /// The fingerprint at one position, for contracts.
    pub closed spec fn hash_at_spec(&self, i: int) -> Seq<char> {
        self.files@[i].0@
    }

    /// The record at one position, for contracts.
    pub closed spec fn entry_at_spec(&self, i: int) -> IndexEntry {
        self.files@[i].1@
    }

    /// The positions the reporter prints, in order: exactly those
    /// entries that gathered at least one duplicate.
    pub fn duplicate_positions(&self) -> (r: Vec<usize>)
        requires
            self.wf(),
        ensures
            forall|k: int|
                0 <= k < r@.len() ==> r@[k] < self.num_entries_spec() && self.entry_at_spec(
                    r@[k] as int,
                ).duplicates.len() > 0,
            forall|i: int|
                0 <= i < self.num_entries_spec() && self.entry_at_spec(i).duplicates.len() > 0
                    ==> r@.contains(i as usize),
            forall|k1: int, k2: int| 0 <= k1 < k2 < r@.len() ==> r@[k1] < r@[k2],
    {
        let mut r: Vec<usize> = Vec::new();
        let n = self.files.len();
        let mut i: usize = 0;
        while i < n
            invariant
                n == self.files@.len(),
                i <= n,
                forall|k: int|
                    0 <= k < r@.len() ==> r@[k] < i && self.entry_at_spec(r@[k] as int).duplicates.len()
                        > 0,
                forall|j: int|
                    0 <= j < i && self.entry_at_spec(j).duplicates.len() > 0 ==> r@.contains(
                        j as usize,
                    ),
                forall|k1: int, k2: int| 0 <= k1 < k2 < r@.len() ==> r@[k1] < r@[k2],
            decreases n - i,
        {
            if self.files[i].1.duplicates.len() > 0 {
                let ghost rprev = r@;
                r.push(i);
                proof {
                    assert(r@.drop_last() =~= rprev);
                    assert(r@[r@.len() - 1] == i as usize);
                    assert forall|j: int|
                        0 <= j < i + 1 && self.entry_at_spec(j).duplicates.len() > 0 implies r@.contains(
                        j as usize,
                    ) by {
                        if j < i {
                            let k = choose|k: int| 0 <= k < rprev.len() && rprev[k] == j as usize;
                            assert(r@[k] == j as usize);
                        } else {
                            assert(r@[r@.len() - 1] == j as usize);
                        }
                    }
                }
            }
            i = i + 1;
        }
        r
    }
}

}
