//! Preparing a commit: which files it records, which of them need a new
//! asset, and whether anything changed since the parent commit.

use vstd::prelude::*;
use crate::manifest::{distinct_paths, index_map, lemma_index_map_at, ManifestIndex, Record};
use crate::status::{tree_status, file_change, removal, disk_paths, DiskView};

verus! {

/// A readable file of the working tree, as the commit walk finds it: its
/// relative path, the hash of its content, the blob that stores it, and
/// whether it is read-only.
#[derive(Debug)]
pub struct ScannedFile {
    pub path: String,
    pub hash: String,
    pub blob_id: i64,
    pub readonly: bool,
}

pub type ScannedView = (Seq<char>, Seq<char>, i64, bool);

impl View for ScannedFile {
    type V = ScannedView;

    open spec fn view(&self) -> ScannedView {
        (self.path@, self.hash@, self.blob_id, self.readonly)
    }
}

pub open spec fn scanned_view(s: Seq<ScannedFile>) -> Seq<ScannedView> {
    s.map_values(|f: ScannedFile| f@)
}

/// One row of the new commit's manifest. `asset_id` is `None` when the file
/// is new and a fresh asset must be created for it.
#[derive(Debug)]
pub struct ManifestEntry {
    pub path: String,
    pub blob_id: i64,
    pub asset_id: Option<i64>,
    pub perm: i64,
}

pub type EntryView = (Seq<char>, i64, Option<i64>, i64);

impl View for ManifestEntry {
    type V = EntryView;

    open spec fn view(&self) -> EntryView {
        (self.path@, self.blob_id, self.asset_id, self.perm)
    }
}

/// The result of preparing a commit.
#[derive(Debug)]
pub struct CommitPlan {
    /// New, modified and deleted files counted together.
    pub changes: usize,
    /// The manifest rows, in the order the files were found.
    pub entries: Vec<ManifestEntry>,
}

/// Whether the parent's record `r` can be the origin of a renamed file with
/// content `hash`: its path is gone from the working tree, its content is
/// the same, and no earlier file of the scan was renamed from it.
pub open spec fn rename_source(
    scanned: Seq<Seq<char>>,
    taken: Seq<Option<Seq<char>>>,
    hash: Seq<char>,
    r: Record,
) -> bool {
    &&& !scanned.contains(r.0)
    &&& r.1 == hash
    &&& !taken.contains(Some(r.0))
}

/// The path of the first record of `parent`, from position `k` on, that can
/// be the origin of a renamed file with content `hash`.
pub open spec fn first_source(
    parent: Seq<Record>,
    scanned: Seq<Seq<char>>,
    taken: Seq<Option<Seq<char>>>,
    hash: Seq<char>,
    k: int,
) -> Option<Seq<char>>
    decreases parent.len() - k,
{
    if k < 0 || k >= parent.len() {
        None
    } else if rename_source(scanned, taken, hash, parent[k]) {
        Some(parent[k].0)
    } else {
        first_source(parent, scanned, taken, hash, k + 1)
    }
}

/// For each of the first `n` scanned files, the path in the parent commit
/// that it was renamed from, if any. A file whose path the parent lacks
/// takes, in scan order, the first record of the parent with the same
/// content whose path is gone and that no earlier file took.
pub open spec fn renamed_from(parent: Seq<Record>, files: Seq<ScannedView>, n: int) -> Seq<
    Option<Seq<char>>,
>
    decreases n,
{
    if n <= 0 {
        Seq::empty()
    } else {
        let taken = renamed_from(parent, files, n - 1);
        let f = files[n - 1];
        taken.push(
            if index_map(parent).contains_key(f.0) {
                None
            } else {
                first_source(parent, scanned_paths(files), taken, f.1, 0)
            },
        )
    }
}

/// For each scanned file, the path in the parent commit that it was renamed
/// from, if any.
pub open spec fn renames(parent: Seq<Record>, files: Seq<ScannedView>) -> Seq<Option<Seq<char>>> {
    renamed_from(parent, files, files.len() as int)
}

/// The manifest row of a scanned file: the parent's asset for its path, or
/// else the asset of the file it was renamed from, or else none (a fresh
/// asset); permissions 444 when read-only, else 644.
pub open spec fn planned_entry(
    parent: Map<Seq<char>, (Seq<char>, i64)>,
    f: ScannedView,
    from: Option<Seq<char>>,
) -> EntryView {
    (
        f.0,
        f.2,
        if parent.contains_key(f.0) {
            Some(parent[f.0].1)
        } else if from is Some {
            Some(parent[from->0].1)
        } else {
            None
        },
        if f.3 { 444 } else { 644 },
    )
}

/// Whether a scanned file is a change: new (a renamed file included), or
/// with content that differs from the parent's.
pub open spec fn is_change(parent: Map<Seq<char>, (Seq<char>, i64)>, f: ScannedView) -> bool {
    !parent.contains_key(f.0) || parent[f.0].0 != f.1
}

/// Whether a record of the parent is a deletion: its path is gone and no
/// scanned file was renamed from it.
pub open spec fn is_deletion(
    scanned: Seq<Seq<char>>,
    taken: Seq<Option<Seq<char>>>,
    r: Record,
) -> bool {
    !scanned.contains(r.0) && !taken.contains(Some(r.0))
}

/// The number of elements satisfying `pred`.
pub open spec fn count_where<A>(s: Seq<A>, pred: spec_fn(A) -> bool) -> nat
    decreases s.len(),
{
    if s.len() == 0 {
        0
    } else {
        count_where(s.drop_last(), pred) + if pred(s.last()) { 1nat } else { 0nat }
    }
}

pub open spec fn scanned_paths(files: Seq<ScannedView>) -> Seq<Seq<char>> {
    files.map_values(|f: ScannedView| f.0)
}

/// The number of changes of a commit: scanned files that are new, renamed
/// or modified, plus deleted files of the parent. A rename counts once.
pub open spec fn change_count(parent: Seq<Record>, files: Seq<ScannedView>) -> nat {
    count_where(files, |f: ScannedView| is_change(index_map(parent), f)) + count_where(
        parent,
        |r: Record| is_deletion(scanned_paths(files), renames(parent, files), r),
    )
}

/// The number of scanned files that were renamed from a file of the parent.
pub open spec fn rename_count(parent: Seq<Record>, files: Seq<ScannedView>) -> nat {
    count_where(renames(parent, files), |o: Option<Seq<char>>| o is Some)
}

pub open spec fn planned_entries(parent: Seq<Record>, files: Seq<ScannedView>) -> Seq<EntryView> {
    Seq::new(
        files.len(),
        |i: int| planned_entry(index_map(parent), files[i], renames(parent, files)[i]),
    )
}

pub open spec fn opt_path(o: Option<String>) -> Option<Seq<char>> {
    match o {
        Some(p) => Some(p@),
        None => None,
    }
}

pub open spec fn taken_view(taken: Seq<Option<String>>) -> Seq<Option<Seq<char>>> {
    taken.map_values(|o: Option<String>| opt_path(o))
}

fn found(files: &Vec<ScannedFile>, path: &String) -> (b: bool)
    ensures
        b == scanned_paths(scanned_view(files@)).contains(path@),
{
    let ghost paths = scanned_paths(scanned_view(files@));
    let mut i: usize = 0;
    while i < files.len()
        invariant
            i <= files@.len(),
            paths == scanned_paths(scanned_view(files@)),
            paths.len() == files@.len(),
            forall|j: int| 0 <= j < i ==> paths[j] != path@,
        decreases files@.len() - i,
    {
        if files[i].path == *path {
            assert(paths[i as int] == path@);
            return true;
        }
        i = i + 1;
    }
    false
}

fn is_taken(taken: &Vec<Option<String>>, path: &String) -> (b: bool)
    ensures
        b == taken_view(taken@).contains(Some(path@)),
{
    let ghost tv = taken_view(taken@);
    let mut i: usize = 0;
    while i < taken.len()
        invariant
            i <= taken@.len(),
            tv == taken_view(taken@),
            tv.len() == taken@.len(),
            forall|j: int| 0 <= j < i ==> tv[j] != Some(path@),
        decreases taken@.len() - i,
    {
        match &taken[i] {
            Some(q) => {
                if *q == *path {
                    assert(tv[i as int] == Some(path@));
                    return true;
                }
            },
            None => {},
        }
        i = i + 1;
    }
    false
}

/// The position in the parent's records of the first origin for a renamed
/// file with content `hash`.
fn find_source(
    parent: &ManifestIndex,
    files: &Vec<ScannedFile>,
    taken: &Vec<Option<String>>,
    hash: &String,
) -> (res: Option<usize>)
    ensures
        match res {
            Some(k) => k < parent.records().len() && first_source(
                parent.records(),
                scanned_paths(scanned_view(files@)),
                taken_view(taken@),
                hash@,
                0,
            ) == Some(parent.records()[k as int].0),
            None => first_source(
                parent.records(),
                scanned_paths(scanned_view(files@)),
                taken_view(taken@),
                hash@,
                0,
            ) is None,
        },
{
    let ghost records = parent.records();
    let ghost scanned = scanned_paths(scanned_view(files@));
    let ghost tv = taken_view(taken@);
    let mut k: usize = 0;
    while k < parent.len()
        invariant
            k <= records.len(),
            records == parent.records(),
            scanned == scanned_paths(scanned_view(files@)),
            tv == taken_view(taken@),
            first_source(records, scanned, tv, hash@, 0) == first_source(
                records,
                scanned,
                tv,
                hash@,
                k as int,
            ),
        decreases records.len() - k,
    {
        let e = parent.entry(k);
        if !found(files, &e.path) && e.hash == *hash && !is_taken(taken, &e.path) {
            return Some(k);
        }
        k = k + 1;
    }
    None
}

/// Prepares a commit of the scanned files against the parent's manifest.
pub fn plan_commit(parent: &ManifestIndex, files: &Vec<ScannedFile>) -> (res: CommitPlan)
    requires
        files@.len() + parent.records().len() <= usize::MAX,
    ensures
        res.changes == change_count(parent.records(), scanned_view(files@)),
        res.entries@.map_values(|e: ManifestEntry| e@) == planned_entries(
            parent.records(),
            scanned_view(files@),
        ),
{
    proof {
        use_type_invariant(parent);
    }
    let ghost records = parent.records();
    let ghost fv = scanned_view(files@);
    let ghost changed = |f: ScannedView| is_change(index_map(records), f);
    let mut entries: Vec<ManifestEntry> = Vec::new();
    let mut taken: Vec<Option<String>> = Vec::new();
    let mut changes: usize = 0;
    let mut i: usize = 0;
    while i < files.len()
        invariant
            i <= files@.len(),
            fv == scanned_view(files@),
            records == parent.records(),
            distinct_paths(records),
            parent.view() == index_map(records),
            changed == (|f: ScannedView| is_change(index_map(records), f)),
            changes == count_where(fv.subrange(0, i as int), changed),
            changes <= i,
            taken_view(taken@) == renamed_from(records, fv, i as int),
            entries@.map_values(|e: ManifestEntry| e@) =~= Seq::new(
                i as nat,
                |j: int| planned_entry(index_map(records), fv[j], renamed_from(records, fv, i as int)[j]),
            ),
        decreases files@.len() - i,
    {
        let f = &files[i];
        proof {
            lemma_renamed_from_len(records, fv, i as int);
        }
        assert(fv.subrange(0, i + 1).drop_last() =~= fv.subrange(0, i as int));
        assert(fv.subrange(0, i + 1).last() == f@);
        assert(fv[i as int] == f@);
        let (asset_id, from): (Option<i64>, Option<String>) = match parent.get(&f.path) {
            Some((h, a)) => {
                if *h != f.hash {
                    changes = changes + 1;
                }
                (Some(a), None)
            },
            None => {
                changes = changes + 1;
                match find_source(parent, files, &taken, &f.hash) {
                    Some(k) => {
                        let e = parent.entry(k);
                        proof {
                            lemma_index_map_at(records, k as int);
                        }
                        (Some(e.asset_id), Some(e.path.clone()))
                    },
                    None => (None, None),
                }
            },
        };
        let perm: i64 = if f.readonly { 444 } else { 644 };
        let ghost prev = entries@.map_values(|e: ManifestEntry| e@);
        let ghost prev_taken = renamed_from(records, fv, i as int);
        let ghost next_taken = renamed_from(records, fv, i + 1);
        let ghost from_view = opt_path(from);
        let entry = ManifestEntry { path: f.path.clone(), blob_id: f.blob_id, asset_id, perm };
        let ghost ev = entry@;
        assert(planned_entry(index_map(records), f@, from_view) == ev);
        entries.push(entry);
        taken.push(from);
        proof {
            assert(next_taken == prev_taken.push(from_view));
            assert(taken_view(taken@) =~= next_taken);
            assert forall|j: int| 0 <= j < i implies next_taken[j] == prev_taken[j] by {}
            assert(next_taken[i as int] == from_view);
            assert(entries@.map_values(|e: ManifestEntry| e@) =~= prev.push(ev));
            assert forall|j: int| 0 <= j < i implies #[trigger] prev[j] == planned_entry(
                index_map(records),
                fv[j],
                next_taken[j],
            ) by {
                assert(prev[j] == planned_entry(index_map(records), fv[j], prev_taken[j]));
            }
            assert(entries@.map_values(|e: ManifestEntry| e@) =~= Seq::new(
                (i + 1) as nat,
                |j: int| planned_entry(index_map(records), fv[j], next_taken[j]),
            ));
        }
        i = i + 1;
    }
    assert(fv.subrange(0, files@.len() as int) =~= fv);
    let ghost scanned_changes = changes as nat;
    let ghost deletion = |r: Record| is_deletion(scanned_paths(fv), renames(records, fv), r);
    let mut k: usize = 0;
    while k < parent.len()
        invariant
            k <= records.len(),
            fv == scanned_view(files@),
            records == parent.records(),
            files@.len() + records.len() <= usize::MAX,
            scanned_changes <= files@.len(),
            taken_view(taken@) == renames(records, fv),
            deletion == (|r: Record| is_deletion(scanned_paths(fv), renames(records, fv), r)),
            changes == scanned_changes + count_where(records.subrange(0, k as int), deletion),
            changes <= scanned_changes + k,
        decreases records.len() - k,
    {
        let e = parent.entry(k);
        assert(records.subrange(0, k + 1).drop_last() =~= records.subrange(0, k as int));
        assert(records.subrange(0, k + 1).last() == e@);
        if !found(files, &e.path) && !is_taken(&taken, &e.path) {
            changes = changes + 1;
        }
        k = k + 1;
    }
    assert(records.subrange(0, records.len() as int) =~= records);
    CommitPlan { changes, entries }
}

proof fn lemma_renamed_from_len(parent: Seq<Record>, files: Seq<ScannedView>, n: int)
    requires
        n >= 0,
    ensures
        renamed_from(parent, files, n).len() == n,
    decreases n,
{
    if n > 0 {
        lemma_renamed_from_len(parent, files, n - 1);
    }
}

/// The readable working-tree files that a scan describes.
pub open spec fn as_disk_files(files: Seq<ScannedView>) -> Seq<DiskView> {
    files.map_values(|f: ScannedView| (f.0, Some(f.1)))
}

proof fn lemma_count_filter_map<A, B>(s: Seq<A>, pred: spec_fn(A) -> bool, f: spec_fn(A) -> Option<B>)
    requires
        forall|x: A| #[trigger] pred(x) <==> f(x) is Some,
    ensures
        count_where(s, pred) == s.filter_map(f).len(),
    decreases s.len(),
{
    if s.len() > 0 {
        lemma_count_filter_map(s.drop_last(), pred, f);
    }
}

/// A commit counts the changes that the status reports for the same working
/// tree, when every file of it could be read, except that a rename, which
/// the status reports as a new and a deleted file, counts once.
pub proof fn lemma_commit_counts_status_changes(parent: Seq<Record>, files: Seq<ScannedView>)
    requires
        distinct_paths(parent),
    ensures
        change_count(parent, files) + rename_count(parent, files) == tree_status(
            parent,
            as_disk_files(files),
        ).len(),
{
    let m = index_map(parent);
    let disk = as_disk_files(files);
    let scanned = scanned_paths(files);
    let taken = renames(parent, files);
    let changed = |f: ScannedView| is_change(m, f);
    let missing = |r: Record| !scanned.contains(r.0);
    let deleted = |r: Record| is_deletion(scanned, taken, r);
    let claimed = |r: Record| !scanned.contains(r.0) && taken.contains(Some(r.0));
    let report = |f: ScannedView| file_change(m, (f.0, Some(f.1)));
    let change = |f: DiskView| file_change(m, f);
    let gone = |r: Record| removal(disk_paths(disk), r);
    assert(disk_paths(disk) =~= scanned_paths(files));
    lemma_count_filter_map(files, changed, report);
    lemma_count_filter_map(parent, missing, gone);
    assert(files.filter_map(report) =~= disk.filter_map(change)) by {
        lemma_filter_map_map(files, |f: ScannedView| (f.0, Some(f.1)), change, report);
        assert(disk =~= files.map_values(|f: ScannedView| (f.0, Some(f.1))));
    }
    lemma_count_split(parent, missing, deleted, claimed);
    lemma_claimed_count(parent, files, files.len() as int);
    assert(claimed =~= (|r: Record|
        !scanned_paths(files).contains(r.0) && renamed_from(parent, files, files.len() as int).contains(
            Some(r.0),
        )));
}

/// A file whose path the parent commit lacks keeps the asset of the
/// parent's file it was renamed from: when exactly one file of the parent is
/// gone from the working tree with its content, and no other new file has
/// that content, the new file's manifest row carries that file's asset.
pub proof fn lemma_rename_keeps_asset(parent: Seq<Record>, files: Seq<ScannedView>, i: int, k: int)
    requires
        distinct_paths(parent),
        0 <= i < files.len(),
        0 <= k < parent.len(),
        !index_map(parent).contains_key(files[i].0),
        !scanned_paths(files).contains(parent[k].0),
        parent[k].1 == files[i].1,
        forall|j: int|
            0 <= j < parent.len() && j != k && !scanned_paths(files).contains(#[trigger] parent[j].0)
                ==> parent[j].1 != files[i].1,
        forall|j: int|
            0 <= j < files.len() && j != i && !index_map(parent).contains_key(#[trigger] files[j].0)
                ==> files[j].1 != files[i].1,
    ensures
        renames(parent, files)[i] == Some(parent[k].0),
        planned_entries(parent, files)[i].2 == Some(parent[k].2),
{
    let scanned = scanned_paths(files);
    let before = renamed_from(parent, files, i);
    lemma_renamed_from_prefix(parent, files, i + 1, files.len() as int, i);
    lemma_renamed_from_len(parent, files, i);
    assert(renamed_from(parent, files, i + 1)[i] == first_source(parent, scanned, before, files[i].1, 0));
    if before.contains(Some(parent[k].0)) {
        let j = choose|j: int| 0 <= j < before.len() && before[j] == Some(parent[k].0);
        let idx = lemma_renamed_from_origin(parent, files, i, j);
        assert(parent[idx].0 == parent[k].0);
        assert(idx == k);
    }
    assert(rename_source(scanned, before, files[i].1, parent[k]));
    lemma_first_source_unique(parent, scanned, before, files[i].1, 0, k);
    lemma_index_map_at(parent, k);
}

/// The file at position `j` was renamed from a record of the parent with
/// its content whose path is gone, and its own path is not in the parent.
proof fn lemma_renamed_from_origin(parent: Seq<Record>, files: Seq<ScannedView>, n: int, j: int) -> (idx: int)
    requires
        0 <= j < n <= files.len(),
        renamed_from(parent, files, n)[j] is Some,
    ensures
        0 <= idx < parent.len(),
        parent[idx].0 == renamed_from(parent, files, n)[j]->0,
        parent[idx].1 == files[j].1,
        !index_map(parent).contains_key(files[j].0),
{
    lemma_renamed_from_prefix(parent, files, j + 1, n, j);
    lemma_renamed_from_len(parent, files, j);
    let before = renamed_from(parent, files, j);
    assert(renamed_from(parent, files, j + 1)[j] == (if index_map(parent).contains_key(files[j].0) {
        None
    } else {
        first_source(parent, scanned_paths(files), before, files[j].1, 0)
    }));
    lemma_first_source_found(parent, scanned_paths(files), before, files[j].1, 0)
}

/// Later files do not change what earlier files were renamed from.
proof fn lemma_renamed_from_prefix(parent: Seq<Record>, files: Seq<ScannedView>, n: int, m: int, j: int)
    requires
        0 <= j < n <= m,
    ensures
        renamed_from(parent, files, m)[j] == renamed_from(parent, files, n)[j],
    decreases m,
{
    if m > n {
        lemma_renamed_from_prefix(parent, files, n, m - 1, j);
        lemma_renamed_from_len(parent, files, m - 1);
    }
}

/// When `k` is the only position from `start` on whose record can be the
/// origin, `first_source` gives that record's path.
proof fn lemma_first_source_unique(
    parent: Seq<Record>,
    scanned: Seq<Seq<char>>,
    taken: Seq<Option<Seq<char>>>,
    hash: Seq<char>,
    start: int,
    k: int,
)
    requires
        0 <= start <= k < parent.len(),
        rename_source(scanned, taken, hash, parent[k]),
        forall|j: int|
            start <= j < parent.len() && j != k ==> !rename_source(scanned, taken, hash, #[trigger] parent[j]),
    ensures
        first_source(parent, scanned, taken, hash, start) == Some(parent[k].0),
    decreases k - start,
{
    if start < k {
        lemma_first_source_unique(parent, scanned, taken, hash, start + 1, k);
    }
}

/// Splitting the elements that satisfy `all` by a second condition.
proof fn lemma_count_split<A>(
    s: Seq<A>,
    all: spec_fn(A) -> bool,
    part: spec_fn(A) -> bool,
    rest: spec_fn(A) -> bool,
)
    requires
        forall|x: A| #[trigger] all(x) == (part(x) || rest(x)),
        forall|x: A| !(#[trigger] part(x) && rest(x)),
    ensures
        count_where(s, all) == count_where(s, part) + count_where(s, rest),
    decreases s.len(),
{
    if s.len() > 0 {
        lemma_count_split(s.drop_last(), all, part, rest);
        assert(part(s.last()) || rest(s.last()) || !all(s.last()));
    }
}

/// Two conditions that agree on every element count alike.
proof fn lemma_count_same<A>(s: Seq<A>, p: spec_fn(A) -> bool, q: spec_fn(A) -> bool)
    requires
        forall|i: int| 0 <= i < s.len() ==> p(#[trigger] s[i]) == q(s[i]),
    ensures
        count_where(s, p) == count_where(s, q),
    decreases s.len(),
{
    if s.len() > 0 {
        assert forall|i: int| 0 <= i < s.drop_last().len() implies p(#[trigger] s.drop_last()[i])
            == q(s.drop_last()[i]) by {
            assert(s.drop_last()[i] == s[i]);
        }
        lemma_count_same(s.drop_last(), p, q);
        assert(p(s[s.len() - 1]) == q(s[s.len() - 1]));
    }
}

/// Adding the path of one more record, that did not satisfy `p`, to a
/// condition on records with distinct paths counts one more.
proof fn lemma_count_one_more(s: Seq<Record>, p: spec_fn(Record) -> bool, q: spec_fn(Record) -> bool, k: int)
    requires
        distinct_paths(s),
        0 <= k < s.len(),
        !p(s[k]),
        forall|r: Record| #[trigger] q(r) == (p(r) || r.0 == s[k].0),
    ensures
        count_where(s, q) == count_where(s, p) + 1,
    decreases s.len(),
{
    let rest = s.drop_last();
    assert(distinct_paths(rest));
    if k == s.len() - 1 {
        assert forall|i: int| 0 <= i < rest.len() implies p(#[trigger] rest[i]) == q(rest[i]) by {
            assert(rest[i] == s[i]);
            assert(s[i].0 != s[k].0);
        }
        lemma_count_same(rest, p, q);
    } else {
        assert(rest[k] == s[k]);
        lemma_count_one_more(rest, p, q, k);
        assert(s[s.len() - 1].0 != s[k].0);
    }
}

/// A path that `first_source` gives is that of a record that can be the
/// origin of the rename.
proof fn lemma_first_source_found(
    parent: Seq<Record>,
    scanned: Seq<Seq<char>>,
    taken: Seq<Option<Seq<char>>>,
    hash: Seq<char>,
    k: int,
) -> (j: int)
    requires
        first_source(parent, scanned, taken, hash, k) is Some,
    ensures
        k <= j < parent.len(),
        0 <= j,
        parent[j].0 == first_source(parent, scanned, taken, hash, k)->0,
        rename_source(scanned, taken, hash, parent[j]),
    decreases parent.len() - k,
{
    if rename_source(scanned, taken, hash, parent[k]) {
        k
    } else {
        lemma_first_source_found(parent, scanned, taken, hash, k + 1)
    }
}

/// The records of the parent whose files were renamed are as many as the
/// scanned files that were renamed.
proof fn lemma_claimed_count(parent: Seq<Record>, files: Seq<ScannedView>, n: int)
    requires
        distinct_paths(parent),
        0 <= n <= files.len(),
    ensures
        count_where(
            parent,
            |r: Record|
                !scanned_paths(files).contains(r.0) && renamed_from(parent, files, n).contains(
                    Some(r.0),
                ),
        ) == count_where(renamed_from(parent, files, n), |o: Option<Seq<char>>| o is Some),
    decreases n,
{
    let scanned = scanned_paths(files);
    let now = renamed_from(parent, files, n);
    let p_now = |r: Record| !scanned.contains(r.0) && now.contains(Some(r.0));
    if n == 0 {
        assert forall|i: int| 0 <= i < parent.len() implies !p_now(#[trigger] parent[i]) by {}
        lemma_count_same(parent, p_now, |r: Record| false);
        lemma_count_none(parent);
    } else {
        lemma_claimed_count(parent, files, n - 1);
        let before = renamed_from(parent, files, n - 1);
        let p_before = |r: Record| !scanned.contains(r.0) && before.contains(Some(r.0));
        let x = now.last();
        lemma_renamed_from_len(parent, files, n - 1);
        assert(now =~= before.push(x));
        assert(now.drop_last() =~= before);
        assert forall|o: Option<Seq<char>>| #[trigger] now.contains(o) == (before.contains(o) || o == x) by {
            if now.contains(o) {
                let i = choose|i: int| 0 <= i < now.len() && now[i] == o;
                if i < before.len() {
                    assert(before[i] == o);
                }
            }
            if before.contains(o) {
                let i = choose|i: int| 0 <= i < before.len() && before[i] == o;
                assert(now[i] == o);
            }
            if o == x {
                assert(now[now.len() - 1] == o);
            }
        }
        if x is Some {
            let f = files[n - 1];
            let k = lemma_first_source_found(parent, scanned, before, f.1, 0);
            assert(!p_before(parent[k]));
            assert forall|r: Record| #[trigger] p_now(r) == (p_before(r) || r.0 == parent[k].0) by {
                assert(now.contains(Some(r.0)) == (before.contains(Some(r.0)) || Some(r.0) == x));
            }
            lemma_count_one_more(parent, p_before, p_now, k);
        } else {
            assert forall|i: int| 0 <= i < parent.len() implies p_before(#[trigger] parent[i]) == p_now(
                parent[i],
            ) by {
                assert(now.contains(Some(parent[i].0)) == before.contains(Some(parent[i].0)));
            }
            lemma_count_same(parent, p_before, p_now);
        }
    }
}

proof fn lemma_count_none<A>(s: Seq<A>)
    ensures
        count_where(s, |x: A| false) == 0,
    decreases s.len(),
{
    if s.len() > 0 {
        lemma_count_none(s.drop_last());
    }
}

proof fn lemma_filter_map_map<A, B, C>(
    s: Seq<A>,
    g: spec_fn(A) -> B,
    f: spec_fn(B) -> Option<C>,
    h: spec_fn(A) -> Option<C>,
)
    requires
        forall|x: A| #[trigger] h(x) == f(g(x)),
    ensures
        s.map_values(g).filter_map(f) == s.filter_map(h),
    decreases s.len(),
{
    if s.len() > 0 {
        lemma_filter_map_map(s.drop_last(), g, f, h);
        assert(s.map_values(g).drop_last() =~= s.drop_last().map_values(g));
    } else {
        assert(s.map_values(g) =~= Seq::<B>::empty());
    }
}

} // verus!
