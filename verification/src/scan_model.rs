//! Mathematical model of one scan.
//!
//! A scan is a sequence of observations, one per successfully hashed
//! file; folding them into an index snapshot with `scan_index` says what
//! the duplicate index must hold after the worker pool has drained. The
//! lemmas below state the global properties of that fold: the file
//! counter, the duplicated-byte total, which paths each entry gathers,
//! and that the gathered path sets, the counter and the byte total do
//! not depend on the order in which the observations arrived.

use vstd::prelude::*;

verus! {

/// One successfully hashed file, as the index sees it: the hex
/// fingerprint of its content, its path, and its size in bytes.
pub struct Observation {
    pub fingerprint: Seq<char>,
    pub path: Seq<char>,
    pub size: u64,
}

/// One distinct fingerprint's record: the first path observed with it,
/// and every later path observed with it, in observation order.
#[verifier::ext_equal]
pub struct IndexEntry {
    pub canonical: Seq<char>,
    pub duplicates: Seq<Seq<char>>,
}

/// A snapshot of the duplicate index: the entries keyed by fingerprint,
/// the number of files observed, and the bytes held by duplicate copies.
#[verifier::ext_equal]
pub struct IndexView {
    pub entries: Map<Seq<char>, IndexEntry>,
    pub count: int,
    pub dupe_size: int,
}

/// The index before any file has been observed.
pub open spec fn empty_index() -> IndexView {
    IndexView { entries: Map::empty(), count: 0, dupe_size: 0 }
}

/// What one insertion does to the entries and the duplicated-byte total:
/// a fingerprint seen for the first time opens an entry whose canonical
/// path is this path and adds no bytes; a fingerprint already present
/// appends the path to its entry's duplicates and adds the file's size.
pub open spec fn insert_step(v: IndexView, fp: Seq<char>, path: Seq<char>, size: u64) -> IndexView {
    if v.entries.contains_key(fp) {
        let e = v.entries[fp];
        IndexView {
            entries: v.entries.insert(
                fp,
                IndexEntry { canonical: e.canonical, duplicates: e.duplicates.push(path) },
            ),
            count: v.count,
            dupe_size: v.dupe_size + size,
        }
    } else {
        IndexView {
            entries: v.entries.insert(
                fp,
                IndexEntry { canonical: path, duplicates: Seq::empty() },
            ),
            count: v.count,
            dupe_size: v.dupe_size,
        }
    }
}

/// What one whole observation does: the file counter rises by one, and
/// the observation is inserted.
pub open spec fn observe_step(v: IndexView, ob: Observation) -> IndexView {
    insert_step(
        IndexView { entries: v.entries, count: v.count + 1, dupe_size: v.dupe_size },
        ob.fingerprint,
        ob.path,
        ob.size,
    )
}

/// The index snapshot that a completed scan with these observations
/// leaves behind.
pub open spec fn scan_index(obs: Seq<Observation>) -> IndexView
    decreases obs.len(),
{
    if obs.len() == 0 {
        empty_index()
    } else {
        observe_step(scan_index(obs.drop_last()), obs.last())
    }
}

/// One more observation extends the fold: scanning a history with one
/// observation appended is stepping the history's snapshot once. This
/// ties each `observe` call on the index to the model, observation by
/// observation.
pub proof fn lemma_scan_index_push(obs: Seq<Observation>, ob: Observation)
    ensures
        scan_index(obs.push(ob)) == observe_step(scan_index(obs), ob),
{
    assert(obs.push(ob).drop_last() =~= obs);
    assert(obs.push(ob).last() == ob);
}

/// Whether some observation in `obs` carries this fingerprint.
pub open spec fn seen(obs: Seq<Observation>, fp: Seq<char>) -> bool {
    exists|i: int| 0 <= i < obs.len() && obs[i].fingerprint == fp
}

/// After a completed scan the file counter equals the number of
/// observations, that is, the number of successfully hashed files.
pub proof fn lemma_scan_count(obs: Seq<Observation>)
    ensures
        scan_index(obs).count == obs.len(),
    decreases obs.len(),
{
    if obs.len() > 0 {
        lemma_scan_count(obs.drop_last());
    }
}

/// A fingerprint has an entry exactly when some observation carried it.
pub proof fn lemma_scan_keys(obs: Seq<Observation>, fp: Seq<char>)
    ensures
        scan_index(obs).entries.contains_key(fp) <==> seen(obs, fp),
    decreases obs.len(),
{
    if obs.len() > 0 {
        lemma_scan_keys(obs.drop_last(), fp);
        if seen(obs.drop_last(), fp) {
            let i = choose|i: int| 0 <= i < obs.drop_last().len() && obs.drop_last()[i].fingerprint == fp;
            assert(obs[i].fingerprint == fp);
        }
        if obs.last().fingerprint == fp {
            assert(obs[obs.len() - 1].fingerprint == fp);
        }
        if seen(obs, fp) && obs.last().fingerprint != fp {
            let i = choose|i: int| 0 <= i < obs.len() && obs[i].fingerprint == fp;
            assert(obs.drop_last()[i].fingerprint == fp);
        }
    }
}

/// The bytes that the observations added to the duplicated-byte total:
/// each observation whose fingerprint was already carried by an earlier
/// one contributes its size; first sightings contribute nothing.
pub open spec fn dup_bytes(obs: Seq<Observation>) -> int
    decreases obs.len(),
{
    if obs.len() == 0 {
        0
    } else {
        dup_bytes(obs.drop_last()) + if seen(obs.drop_last(), obs.last().fingerprint) {
            obs.last().size as int
        } else {
            0
        }
    }
}

/// After a completed scan the duplicated-byte total equals the sum of
/// the sizes of exactly those observations that arrived as duplicates —
/// the first sighting of each fingerprint, whose path became canonical,
/// is never part of the sum.
pub proof fn lemma_scan_dupe_size(obs: Seq<Observation>)
    ensures
        scan_index(obs).dupe_size == dup_bytes(obs),
    decreases obs.len(),
{
    if obs.len() > 0 {
        lemma_scan_dupe_size(obs.drop_last());
        lemma_scan_keys(obs.drop_last(), obs.last().fingerprint);
    }
}

/// The paths of the observations in `obs` that carry this fingerprint,
/// in observation order.
pub open spec fn paths_with(obs: Seq<Observation>, fp: Seq<char>) -> Seq<Seq<char>>
    decreases obs.len(),
{
    if obs.len() == 0 {
        Seq::empty()
    } else if obs.last().fingerprint == fp {
        paths_with(obs.drop_last(), fp).push(obs.last().path)
    } else {
        paths_with(obs.drop_last(), fp)
    }
}

/// A fingerprint nobody observed gathers no paths.
proof fn lemma_unseen_no_paths(obs: Seq<Observation>, fp: Seq<char>)
    requires
        !seen(obs, fp),
    ensures
        paths_with(obs, fp).len() == 0,
    decreases obs.len(),
{
    if obs.len() > 0 {
        let front = obs.drop_last();
        assert(!seen(front, fp)) by {
            if seen(front, fp) {
                let i = choose|i: int| 0 <= i < front.len() && front[i].fingerprint == fp;
                assert(obs[i].fingerprint == fp);
            }
        }
        assert(obs[obs.len() - 1] == obs.last());
        lemma_unseen_no_paths(front, fp);
    }
}

/// After a completed scan, a fingerprint's entry holds the path of the
/// first observation that carried it as canonical, and the paths of
/// every later one as its duplicates, in order. So every duplicate path
/// was counted into the duplicated-byte total, and the canonical path
/// never was.
pub proof fn lemma_scan_entry(obs: Seq<Observation>, fp: Seq<char>)
    requires
        seen(obs, fp),
    ensures
        scan_index(obs).entries.contains_key(fp),
        paths_with(obs, fp).len() > 0,
        scan_index(obs).entries[fp].canonical == paths_with(obs, fp).first(),
        scan_index(obs).entries[fp].duplicates == paths_with(obs, fp).drop_first(),
    decreases obs.len(),
{
    lemma_scan_keys(obs, fp);
    let front = obs.drop_last();
    if obs.last().fingerprint == fp {
        lemma_scan_keys(front, fp);
        if seen(front, fp) {
            lemma_scan_entry(front, fp);
            assert(paths_with(obs, fp).first() == paths_with(front, fp).first());
            assert(paths_with(obs, fp).drop_first() =~= paths_with(front, fp).drop_first().push(
                obs.last().path,
            ));
        } else {
            lemma_unseen_no_paths(front, fp);
            assert(paths_with(obs, fp).drop_first() =~= Seq::<Seq<char>>::empty());
        }
    } else {
        assert(seen(front, fp)) by {
            let i = choose|i: int| 0 <= i < obs.len() && obs[i].fingerprint == fp;
            assert(front[i].fingerprint == fp);
        }
        lemma_scan_entry(front, fp);
    }
}

/// The set of paths observed with this fingerprint, with no regard to
/// the order in which the workers delivered them.
pub open spec fn path_set(obs: Seq<Observation>, fp: Seq<char>) -> Set<Seq<char>> {
    Set::new(
        |p: Seq<char>|
            exists|i: int| 0 <= i < obs.len() && obs[i].fingerprint == fp && obs[i].path == p,
    )
}

/// The set of paths an entry records: its canonical path together with
/// its duplicates.
pub open spec fn entry_paths(e: IndexEntry) -> Set<Seq<char>> {
    e.duplicates.to_set().insert(e.canonical)
}

/// A path is gathered for a fingerprint exactly when some observation
/// carried both.
proof fn lemma_paths_with_members(obs: Seq<Observation>, fp: Seq<char>, p: Seq<char>)
    ensures
        paths_with(obs, fp).contains(p) <==> path_set(obs, fp).contains(p),
    decreases obs.len(),
{
    if obs.len() > 0 {
        let front = obs.drop_last();
        lemma_paths_with_members(front, fp, p);
        assert(obs[obs.len() - 1] == obs.last());
        if path_set(front, fp).contains(p) {
            let i = choose|i: int|
                0 <= i < front.len() && front[i].fingerprint == fp && front[i].path == p;
            assert(obs[i].fingerprint == fp && obs[i].path == p);
        }
        if paths_with(front, fp).contains(p) {
            let j = choose|j: int| 0 <= j < paths_with(front, fp).len() && paths_with(front, fp)[j] == p;
            if obs.last().fingerprint == fp {
                assert(paths_with(obs, fp)[j] == p);
            }
        }
        if path_set(obs, fp).contains(p) {
            let i = choose|i: int|
                0 <= i < obs.len() && obs[i].fingerprint == fp && obs[i].path == p;
            if i < obs.len() - 1 {
                assert(front[i].fingerprint == fp && front[i].path == p);
            } else {
                assert(paths_with(obs, fp).last() == p);
            }
        }
        if obs.last().fingerprint == fp && obs.last().path == p {
            assert(paths_with(obs, fp).last() == p);
        }
    }
}

/// A fingerprint was seen exactly when its path set is inhabited.
proof fn lemma_seen_path_set(obs: Seq<Observation>, fp: Seq<char>)
    ensures
        seen(obs, fp) <==> exists|p: Seq<char>| path_set(obs, fp).contains(p),
{
    if seen(obs, fp) {
        let i = choose|i: int| 0 <= i < obs.len() && obs[i].fingerprint == fp;
        assert(path_set(obs, fp).contains(obs[i].path));
    }
}

/// After a completed scan an entry records exactly the paths that were
/// observed with its fingerprint.
pub proof fn lemma_entry_path_set(obs: Seq<Observation>, fp: Seq<char>)
    requires
        seen(obs, fp),
    ensures
        scan_index(obs).entries.contains_key(fp),
        entry_paths(scan_index(obs).entries[fp]) == path_set(obs, fp),
{
    lemma_scan_entry(obs, fp);
    let group = paths_with(obs, fp);
    let e = scan_index(obs).entries[fp];
    assert forall|p: Seq<char>| entry_paths(e).contains(p) <==> path_set(obs, fp).contains(
        p,
    ) by {
        lemma_paths_with_members(obs, fp, p);
        if entry_paths(e).contains(p) && p != e.canonical {
            let j = choose|j: int| 0 <= j < e.duplicates.len() && e.duplicates[j] == p;
            assert(group[j + 1] == p);
        }
        if group.contains(p) {
            let j = choose|j: int| 0 <= j < group.len() && group[j] == p;
            if j > 0 {
                assert(e.duplicates[j - 1] == p);
                assert(e.duplicates.contains(p));
            }
        }
    }
    assert(entry_paths(e) =~= path_set(obs, fp));
}

/// Idempotent re-scan: two runs over the same unmodified tree deliver
/// the same observations, though worker timing may order them
/// differently and may pick different first sightings. However they are
/// ordered, if the two runs observed the same paths for every
/// fingerprint, the two snapshots have entries for the same fingerprints
/// and record the same path set for each — only which path stands as
/// canonical may differ between the runs.
pub proof fn lemma_rescan_agreement(obs1: Seq<Observation>, obs2: Seq<Observation>, fp: Seq<char>)
    requires
        path_set(obs1, fp) == path_set(obs2, fp),
    ensures
        scan_index(obs1).entries.contains_key(fp) <==> scan_index(obs2).entries.contains_key(fp),
        scan_index(obs1).entries.contains_key(fp) ==> entry_paths(scan_index(obs1).entries[fp])
            == entry_paths(scan_index(obs2).entries[fp]),
{
    lemma_scan_keys(obs1, fp);
    lemma_scan_keys(obs2, fp);
    lemma_seen_path_set(obs1, fp);
    lemma_seen_path_set(obs2, fp);
    if seen(obs1, fp) {
        lemma_entry_path_set(obs1, fp);
        lemma_entry_path_set(obs2, fp);
    }
}

/// Whether all observations of one fingerprint carry one size, as
/// holds of real files: a file's size is determined by its content,
/// and its fingerprint stands for that content.
pub open spec fn sizes_consistent(obs: Seq<Observation>) -> bool {
    forall|i: int, j: int|
        0 <= i < obs.len() && 0 <= j < obs.len() && obs[i].fingerprint == obs[j].fingerprint
            ==> obs[i].size == obs[j].size
}

/// Appending one observation adds its fingerprint to those seen.
proof fn lemma_seen_push(obs: Seq<Observation>, ob: Observation, fp: Seq<char>)
    ensures
        seen(obs.push(ob), fp) <==> (seen(obs, fp) || ob.fingerprint == fp),
{
    let t = obs.push(ob);
    if seen(t, fp) {
        let i = choose|i: int| 0 <= i < t.len() && t[i].fingerprint == fp;
        if i < obs.len() {
            assert(obs[i].fingerprint == fp);
        }
    }
    if seen(obs, fp) {
        let i = choose|i: int| 0 <= i < obs.len() && obs[i].fingerprint == fp;
        assert(t[i].fingerprint == fp);
    }
    if ob.fingerprint == fp {
        assert(t[t.len() - 1].fingerprint == fp);
    }
}

/// Removing one observation removes at most its own fingerprint from
/// those seen.
proof fn lemma_seen_remove(obs: Seq<Observation>, k: int, fp: Seq<char>)
    requires
        0 <= k < obs.len(),
    ensures
        seen(obs, fp) <==> (seen(obs.remove(k), fp) || obs[k].fingerprint == fp),
{
    obs.remove_ensures(k);
    let r = obs.remove(k);
    if seen(obs, fp) {
        let i = choose|i: int| 0 <= i < obs.len() && obs[i].fingerprint == fp;
        if i < k {
            assert(r[i].fingerprint == fp);
        } else if i > k {
            assert(r[i - 1].fingerprint == fp);
        }
    }
    if seen(r, fp) {
        let i = choose|i: int| 0 <= i < r.len() && r[i].fingerprint == fp;
        if i < k {
            assert(obs[i].fingerprint == fp);
        } else {
            assert(obs[i + 1].fingerprint == fp);
        }
    }
}

/// Sequences with the same observations see the same fingerprints.
proof fn lemma_seen_same_multiset(obs1: Seq<Observation>, obs2: Seq<Observation>, fp: Seq<char>)
    requires
        obs1.to_multiset() == obs2.to_multiset(),
    ensures
        seen(obs1, fp) <==> seen(obs2, fp),
{
    obs1.to_multiset_ensures();
    obs2.to_multiset_ensures();
    if seen(obs1, fp) {
        let i = choose|i: int| 0 <= i < obs1.len() && obs1[i].fingerprint == fp;
        assert(obs1.contains(obs1[i]));
        assert(obs1.to_multiset().count(obs1[i]) > 0);
        assert(obs2.to_multiset().count(obs1[i]) > 0);
        assert(obs2.contains(obs1[i]));
        let j = choose|j: int| 0 <= j < obs2.len() && obs2[j] == obs1[i];
        assert(obs2[j].fingerprint == fp);
    }
    if seen(obs2, fp) {
        let i = choose|i: int| 0 <= i < obs2.len() && obs2[i].fingerprint == fp;
        assert(obs2.contains(obs2[i]));
        assert(obs2.to_multiset().count(obs2[i]) > 0);
        assert(obs1.to_multiset().count(obs2[i]) > 0);
        assert(obs1.contains(obs2[i]));
        let j = choose|j: int| 0 <= j < obs1.len() && obs1[j] == obs2[i];
        assert(obs1[j].fingerprint == fp);
    }
}

/// Taking one observation out of the middle takes exactly its own
/// contribution out of the duplicated-byte sum, provided sizes are
/// consistent per fingerprint.
proof fn lemma_dup_bytes_remove(obs: Seq<Observation>, k: int)
    requires
        sizes_consistent(obs),
        0 <= k < obs.len(),
    ensures
        dup_bytes(obs) == dup_bytes(obs.remove(k)) + if seen(obs.remove(k), obs[k].fingerprint) {
            obs[k].size as int
        } else {
            0
        },
    decreases obs.len(),
{
    obs.remove_ensures(k);
    assert(obs[obs.len() - 1] == obs.last());
    if k == obs.len() - 1 {
        assert(obs.remove(k) =~= obs.drop_last());
    } else {
        let front = obs.drop_last();
        let o = obs.last();
        let r = front.remove(k);
        front.remove_ensures(k);
        assert(sizes_consistent(front)) by {
            assert(forall|i: int| 0 <= i < front.len() ==> front[i] == obs[i]);
        }
        assert(obs.remove(k) =~= r.push(o));
        assert(r.push(o).drop_last() =~= r);
        assert(r.push(o)[r.len() as int] == o);
        assert(dup_bytes(r.push(o)) == dup_bytes(r) + if seen(r, o.fingerprint) {
            o.size as int
        } else {
            0
        });
        lemma_dup_bytes_remove(front, k);
        lemma_seen_remove(front, k, o.fingerprint);
        lemma_seen_push(r, o, obs[k].fingerprint);
        assert(front[k] == obs[k]);
        if obs[k].fingerprint == o.fingerprint {
            assert(obs[k].size == o.size);
        }
    }
}

/// The duplicated-byte sum does not depend on the order in which the
/// observations arrived, provided sizes are consistent per fingerprint.
proof fn lemma_dup_bytes_permutation(obs1: Seq<Observation>, obs2: Seq<Observation>)
    requires
        obs1.to_multiset() == obs2.to_multiset(),
        sizes_consistent(obs1),
    ensures
        dup_bytes(obs1) == dup_bytes(obs2),
    decreases obs1.len(),
{
    obs1.to_multiset_ensures();
    obs2.to_multiset_ensures();
    if obs1.len() == 0 {
        assert(obs2.len() == 0);
    } else {
        let o = obs1.last();
        assert(obs1[obs1.len() - 1] == o);
        assert(obs1.contains(o));
        assert(obs1.to_multiset().count(o) > 0);
        assert(obs2.to_multiset().count(o) > 0);
        assert(obs2.contains(o));
        let k = choose|k: int| 0 <= k < obs2.len() && obs2[k] == o;
        let front1 = obs1.drop_last();
        let rest2 = obs2.remove(k);
        assert(front1 =~= obs1.remove(obs1.len() - 1));
        assert(front1.to_multiset() =~= rest2.to_multiset()) by {
            assert(obs1.remove(obs1.len() - 1).to_multiset() =~= obs1.to_multiset().remove(o));
            assert(rest2.to_multiset() =~= obs2.to_multiset().remove(o));
        }
        assert(sizes_consistent(front1)) by {
            assert(forall|i: int| 0 <= i < front1.len() ==> front1[i] == obs1[i]);
        }
        assert(sizes_consistent(obs2)) by {
            assert forall|i: int, j: int|
                0 <= i < obs2.len() && 0 <= j < obs2.len() && obs2[i].fingerprint
                    == obs2[j].fingerprint implies obs2[i].size == obs2[j].size by {
                assert(obs2.contains(obs2[i]));
                assert(obs2.contains(obs2[j]));
                assert(obs2.to_multiset().count(obs2[i]) > 0);
                assert(obs2.to_multiset().count(obs2[j]) > 0);
                assert(obs1.to_multiset().count(obs2[i]) > 0);
                assert(obs1.to_multiset().count(obs2[j]) > 0);
                assert(obs1.contains(obs2[i]));
                assert(obs1.contains(obs2[j]));
                let a = choose|a: int| 0 <= a < obs1.len() && obs1[a] == obs2[i];
                let b = choose|b: int| 0 <= b < obs1.len() && obs1[b] == obs2[j];
                assert(obs1[a].size == obs1[b].size);
            }
        }
        lemma_dup_bytes_remove(obs2, k);
        lemma_dup_bytes_permutation(front1, rest2);
        lemma_seen_same_multiset(front1, rest2, o.fingerprint);
    }
}

/// Idempotent re-scan, the totals: two runs that deliver the same
/// observations — in whatever order the workers raced them in, and
/// with sizes consistent per fingerprint, as a file's content
/// determines its size — leave equal file counts and equal
/// duplicated-byte totals, whichever paths became canonical.
pub proof fn lemma_rescan_totals(obs1: Seq<Observation>, obs2: Seq<Observation>)
    requires
        obs1.to_multiset() == obs2.to_multiset(),
        sizes_consistent(obs1),
    ensures
        scan_index(obs1).count == scan_index(obs2).count,
        scan_index(obs1).dupe_size == scan_index(obs2).dupe_size,
{
    obs1.to_multiset_ensures();
    obs2.to_multiset_ensures();
    lemma_scan_count(obs1);
    lemma_scan_count(obs2);
    lemma_scan_dupe_size(obs1);
    lemma_scan_dupe_size(obs2);
    lemma_dup_bytes_permutation(obs1, obs2);
}

/// Whether no two observations carry the same path, as holds of the
/// files of one directory tree.
pub open spec fn distinct_paths(obs: Seq<Observation>) -> bool {
    forall|i: int, j: int| 0 <= i < j < obs.len() ==> obs[i].path != obs[j].path
}

/// With distinct paths, the paths gathered for a fingerprint are
/// pairwise distinct as well.
proof fn lemma_paths_with_distinct(obs: Seq<Observation>, fp: Seq<char>)
    requires
        distinct_paths(obs),
    ensures
        forall|i: int, j: int|
            0 <= i < j < paths_with(obs, fp).len() ==> paths_with(obs, fp)[i] != paths_with(
                obs,
                fp,
            )[j],
    decreases obs.len(),
{
    if obs.len() > 0 {
        let front = obs.drop_last();
        assert(distinct_paths(front)) by {
            assert(forall|i: int| 0 <= i < front.len() ==> front[i] == obs[i]);
        }
        lemma_paths_with_distinct(front, fp);
        if obs.last().fingerprint == fp {
            assert(!paths_with(front, fp).contains(obs.last().path)) by {
                lemma_paths_with_members(front, fp, obs.last().path);
                if path_set(front, fp).contains(obs.last().path) {
                    let i = choose|i: int|
                        0 <= i < front.len() && front[i].fingerprint == fp && front[i].path
                            == obs.last().path;
                    assert(obs[i].path == obs[obs.len() - 1].path);
                }
            }
            assert(forall|i: int|
                0 <= i < paths_with(front, fp).len() ==> paths_with(obs, fp)[i] == paths_with(
                    front,
                    fp,
                )[i]);
        }
    }
}

/// With every observed path distinct, no entry lists its canonical path
/// among its duplicates, and no path appears as a duplicate twice.
pub proof fn lemma_canonical_not_duplicate(obs: Seq<Observation>, fp: Seq<char>)
    requires
        distinct_paths(obs),
        seen(obs, fp),
    ensures
        scan_index(obs).entries.contains_key(fp),
        !scan_index(obs).entries[fp].duplicates.contains(scan_index(obs).entries[fp].canonical),
        forall|i: int, j: int|
            0 <= i < j < scan_index(obs).entries[fp].duplicates.len() ==> scan_index(
                obs,
            ).entries[fp].duplicates[i] != scan_index(obs).entries[fp].duplicates[j],
{
    lemma_scan_entry(obs, fp);
    lemma_paths_with_distinct(obs, fp);
    let group = paths_with(obs, fp);
    let e = scan_index(obs).entries[fp];
    assert(forall|i: int| 0 <= i < e.duplicates.len() ==> e.duplicates[i] == group[i + 1]);
    if e.duplicates.contains(e.canonical) {
        let j = choose|j: int| 0 <= j < e.duplicates.len() && e.duplicates[j] == e.canonical;
        assert(group[j + 1] == group[0]);
    }
}

}

