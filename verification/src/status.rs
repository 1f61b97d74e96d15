//! Comparing the working tree with the head commit's manifest.

use vstd::prelude::*;
use vstd::string::*;
use crate::manifest::{index_map, ManifestIndex, Record};
use crate::seqs::lemma_filter_map_empty;

verus! {

/// How a file of the working tree differs from the head commit.
#[derive(Debug)]
pub enum FileStatus {
    /// Not in the head commit: it will become a new asset.
    New(String),
    /// In the head commit (with this asset) but its content changed.
    Modified(String, i64),
    /// In the head commit (with this asset) but gone from the disk.
    Deleted(String, i64),
    Unchanged,
}

/// The abstract form of a [`FileStatus`].
pub enum StatusView {
    New(Seq<char>),
    Modified(Seq<char>, i64),
    Deleted(Seq<char>, i64),
    Unchanged,
}

impl View for FileStatus {
    type V = StatusView;

    open spec fn view(&self) -> StatusView {
        match self {
            FileStatus::New(p) => StatusView::New(p@),
            FileStatus::Modified(p, a) => StatusView::Modified(p@, *a),
            FileStatus::Deleted(p, a) => StatusView::Deleted(p@, *a),
            FileStatus::Unchanged => StatusView::Unchanged,
        }
    }
}

/// The abstract form of a sequence of statuses.
pub open spec fn statuses_view(s: Seq<FileStatus>) -> Seq<StatusView> {
    s.map_values(|x: FileStatus| x@)
}

/// A file found in the working tree: its path relative to the root and the
/// hash of its content, or `None` when it could not be read.
#[derive(Debug)]
pub struct DiskFile {
    pub path: String,
    pub hash: Option<String>,
}

/// The abstract form of a [`DiskFile`].
pub type DiskView = (Seq<char>, Option<Seq<char>>);

impl View for DiskFile {
    type V = DiskView;

    open spec fn view(&self) -> DiskView {
        (
            self.path@,
            match &self.hash {
                Some(h) => Some(h@),
                None => None,
            },
        )
    }
}

pub open spec fn disk_view(files: Seq<DiskFile>) -> Seq<DiskView> {
    files.map_values(|f: DiskFile| f@)
}

/// What a readable file of the working tree reports: new when the head
/// commit lacks its path, modified when its hash differs; an unreadable
/// file reports nothing.
pub open spec fn file_change(head: Map<Seq<char>, (Seq<char>, i64)>, f: DiskView) -> Option<
    StatusView,
> {
    match f.1 {
        None => None,
        Some(h) => if head.contains_key(f.0) {
            if head[f.0].0 != h {
                Some(StatusView::Modified(f.0, head[f.0].1))
            } else {
                None
            }
        } else {
            Some(StatusView::New(f.0))
        },
    }
}

/// What a file of the head commit reports: deleted when no file of the
/// working tree (readable or not) has its path.
pub open spec fn removal(disk_paths: Seq<Seq<char>>, r: Record) -> Option<StatusView> {
    if disk_paths.contains(r.0) {
        None
    } else {
        Some(StatusView::Deleted(r.0, r.2))
    }
}

pub open spec fn disk_paths(files: Seq<DiskView>) -> Seq<Seq<char>> {
    files.map_values(|f: DiskView| f.0)
}

/// The status of the working tree `files` against the head manifest
/// `records`: first the new and modified files in the order they were
/// found, then the deleted files in manifest order.
pub open spec fn tree_status(records: Seq<Record>, files: Seq<DiskView>) -> Seq<StatusView> {
    files.filter_map(|f: DiskView| file_change(index_map(records), f)) + records.filter_map(
        |r: Record| removal(disk_paths(files), r),
    )
}

/// Whether a path (given by its components) lies in the repository's own
/// `.silex` directory, which the status and the commit leave out.
pub fn in_silex_dir(components: &Vec<String>) -> (res: bool)
    ensures
        res == exists|i: int| 0 <= i < components@.len() && #[trigger] components@[i]@ == ".silex"@,
{
    let silex = String::from_str(".silex");
    let mut i: usize = 0;
    while i < components.len()
        invariant
            i <= components@.len(),
            silex@ == ".silex"@,
            forall|j: int| 0 <= j < i ==> #[trigger] components@[j]@ != ".silex"@,
        decreases components@.len() - i,
    {
        if components[i] == silex {
            return true;
        }
        i = i + 1;
    }
    false
}

/// Whether some file of the working tree has `path`.
fn on_disk(files: &Vec<DiskFile>, path: &String) -> (b: bool)
    ensures
        b == disk_paths(disk_view(files@)).contains(path@),
{
    let ghost paths = disk_paths(disk_view(files@));
    let mut i: usize = 0;
    while i < files.len()
        invariant
            i <= files@.len(),
            paths == disk_paths(disk_view(files@)),
            paths.len() == files@.len(),
            forall|j: int| 0 <= j < i ==> paths[j] != path@,
        decreases files@.len() - i,
    {
        if files[i].path == *path {
            assert(paths[i as int] == path@);
            return true;
        }
        i = i + 1;
    }
    false
}

/// Compares the files of the working tree with the head manifest.
pub fn compute_status(head: &ManifestIndex, files: &Vec<DiskFile>) -> (res: Vec<FileStatus>)
    ensures
        statuses_view(res@) == tree_status(head.records(), disk_view(files@)),
{
    proof {
        use_type_invariant(head);
    }
    let ghost records = head.records();
    let ghost fv = disk_view(files@);
    let ghost change = |f: DiskView| file_change(index_map(records), f);
    let ghost gone = |r: Record| removal(disk_paths(fv), r);
    let mut res: Vec<FileStatus> = Vec::new();
    let mut i: usize = 0;
    while i < files.len()
        invariant
            i <= files@.len(),
            fv == disk_view(files@),
            records == head.records(),
            head.view() == index_map(records),
            change == (|f: DiskView| file_change(index_map(records), f)),
            statuses_view(res@) =~= fv.subrange(0, i as int).filter_map(change),
        decreases files@.len() - i,
    {
        let f = &files[i];
        assert(fv.subrange(0, i + 1).drop_last() =~= fv.subrange(0, i as int));
        assert(fv[i as int] == f@);
        match &f.hash {
            None => {},
            Some(h) => {
                match head.get(&f.path) {
                    Some((dh, a)) => {
                        if *dh != *h {
                            res.push(FileStatus::Modified(f.path.clone(), a));
                        }
                    },
                    None => {
                        res.push(FileStatus::New(f.path.clone()));
                    },
                }
            },
        }
        i = i + 1;
        assert(statuses_view(res@) =~= fv.subrange(0, i as int).filter_map(change));
    }
    assert(fv.subrange(0, files@.len() as int) =~= fv);
    let ghost found = statuses_view(res@);
    let mut k: usize = 0;
    while k < head.len()
        invariant
            k <= records.len(),
            fv == disk_view(files@),
            records == head.records(),
            gone == (|r: Record| removal(disk_paths(fv), r)),
            statuses_view(res@) =~= found + records.subrange(0, k as int).filter_map(gone),
        decreases records.len() - k,
    {
        let e = head.entry(k);
        assert(records.subrange(0, k + 1).drop_last() =~= records.subrange(0, k as int));
        assert(records.subrange(0, k + 1).last() == e@);
        let ghost prev = statuses_view(res@);
        let present = on_disk(files, &e.path);
        if !present {
            res.push(FileStatus::Deleted(e.path.clone(), e.asset_id));
            assert(statuses_view(res@) =~= prev.push(StatusView::Deleted(e@.0, e@.2)));
            assert(gone(e@) == Some(StatusView::Deleted(e@.0, e@.2)));
        } else {
            assert(gone(e@) is None);
        }
        k = k + 1;
        assert(statuses_view(res@) =~= found + records.subrange(0, k as int).filter_map(gone));
    }
    assert(records.subrange(0, records.len() as int) =~= records);
    res
}

/// The working tree is reported clean exactly when every readable file
/// is in the head commit with the same content hash, and every file of the
/// head commit is still present in the working tree.
pub proof fn lemma_clean_iff_matches_head(records: Seq<Record>, files: Seq<DiskView>)
    ensures
        tree_status(records, files).len() == 0 <==> {
            &&& forall|i: int|
                0 <= i < files.len() && (#[trigger] files[i]).1 is Some ==> {
                    &&& index_map(records).contains_key(files[i].0)
                    &&& index_map(records)[files[i].0].0 == files[i].1->0
                }
            &&& forall|k: int| 0 <= k < records.len() ==> disk_paths(files).contains(#[trigger] records[k].0)
        },
{
    let change = |f: DiskView| file_change(index_map(records), f);
    let gone = |r: Record| removal(disk_paths(files), r);
    lemma_filter_map_empty(files, change);
    lemma_filter_map_empty(records, gone);
    assert(tree_status(records, files).len() == files.filter_map(change).len()
        + records.filter_map(gone).len());
    assert((forall|i: int| 0 <= i < files.len() ==> (#[trigger] change(files[i])) is None) <==> (
    forall|i: int|
        0 <= i < files.len() && (#[trigger] files[i]).1 is Some ==> {
            &&& index_map(records).contains_key(files[i].0)
            &&& index_map(records)[files[i].0].0 == files[i].1->0
        })) by {
        if forall|i: int| 0 <= i < files.len() ==> (#[trigger] change(files[i])) is None {
            assert forall|i: int|
                0 <= i < files.len() && (#[trigger] files[i]).1 is Some implies {
                    &&& index_map(records).contains_key(files[i].0)
                    &&& index_map(records)[files[i].0].0 == files[i].1->0
                } by {
                assert(change(files[i]) is None);
            }
        }
        if forall|i: int|
            0 <= i < files.len() && (#[trigger] files[i]).1 is Some ==> {
                &&& index_map(records).contains_key(files[i].0)
                &&& index_map(records)[files[i].0].0 == files[i].1->0
            } {
            assert forall|i: int| 0 <= i < files.len() implies (#[trigger] change(files[i])) is None by {
                if files[i].1 is Some {
                    assert(index_map(records).contains_key(files[i].0));
                }
            }
        }
    }
    assert((forall|k: int| 0 <= k < records.len() ==> (#[trigger] gone(records[k])) is None) <==> (
    forall|k: int| 0 <= k < records.len() ==> disk_paths(files).contains(#[trigger] records[k].0)))
        by {
        if forall|k: int| 0 <= k < records.len() ==> (#[trigger] gone(records[k])) is None {
            assert forall|k: int| 0 <= k < records.len() implies disk_paths(files).contains(
                #[trigger] records[k].0,
            ) by {
                assert(gone(records[k]) is None);
            }
        }
    }
}

} // verus!
