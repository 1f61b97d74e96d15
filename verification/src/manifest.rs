//! The files that a commit records: for each path, the content hash of its
//! blob and the asset (the file's stable identity). The database hands
//! them over as rows; this index keeps one entry per path, a later row for
//! the same path replacing an earlier one.

use vstd::prelude::*;

verus! {

/// One file of a commit's manifest.
#[derive(Debug)]
pub struct TrackedFile {
    pub path: String,
    pub hash: String,
    pub asset_id: i64,
}

/// The abstract form of a manifest entry: path, content hash, asset.
pub type Record = (Seq<char>, Seq<char>, i64);

impl View for TrackedFile {
    type V = Record;

    open spec fn view(&self) -> Record {
        (self.path@, self.hash@, self.asset_id)
    }
}

/// The map that a sequence of rows builds when each is inserted in turn,
/// a later row for a path replacing an earlier one.
pub open spec fn index_map(records: Seq<Record>) -> Map<Seq<char>, (Seq<char>, i64)>
    decreases records.len(),
{
    if records.len() == 0 {
        Map::empty()
    } else {
        let last = records.last();
        index_map(records.drop_last()).insert(last.0, (last.1, last.2))
    }
}

/// No path occurs twice.
pub open spec fn distinct_paths(records: Seq<Record>) -> bool {
    forall|i: int, j: int|
        0 <= i < records.len() && 0 <= j < records.len() && i != j ==> #[trigger] records[i].0
            != #[trigger] records[j].0
}

/// The paths of the records, in order.
pub open spec fn paths_of(records: Seq<Record>) -> Seq<Seq<char>> {
    records.map_values(|r: Record| r.0)
}

/// Facts that hold of any records with distinct paths: the map's domain
/// is their paths, and each path maps to what its record says.
pub proof fn lemma_index_facts(records: Seq<Record>)
    requires
        distinct_paths(records),
    ensures
        forall|p: Seq<char>| #[trigger]
            index_map(records).contains_key(p) <==> paths_of(records).contains(p),
        forall|k: int|
            0 <= k < records.len() ==> {
                &&& #[trigger] index_map(records).contains_key(records[k].0)
                &&& index_map(records)[records[k].0] == (records[k].1, records[k].2)
            },
{
    assert forall|p: Seq<char>| #[trigger]
        index_map(records).contains_key(p) <==> paths_of(records).contains(p) by {
        lemma_index_map_domain(records, p);
    }
    assert forall|k: int| 0 <= k < records.len() implies {
        &&& #[trigger] index_map(records).contains_key(records[k].0)
        &&& index_map(records)[records[k].0] == (records[k].1, records[k].2)
    } by {
        lemma_index_map_at(records, k);
    }
}

/// The manifest of one commit, keyed by path.
pub struct ManifestIndex {
    entries: Vec<TrackedFile>,
}

pub proof fn lemma_index_map_domain(records: Seq<Record>, p: Seq<char>)
    ensures
        index_map(records).contains_key(p) <==> paths_of(records).contains(p),
    decreases records.len(),
{
    if records.len() > 0 {
        lemma_index_map_domain(records.drop_last(), p);
        assert(paths_of(records.drop_last()) =~= paths_of(records).drop_last());
        if records.last().0 == p {
            assert(paths_of(records)[records.len() - 1] == p);
        }
        if paths_of(records).contains(p) {
            let k = choose|k: int| 0 <= k < paths_of(records).len() && paths_of(records)[k] == p;
            if k < records.len() - 1 {
                assert(paths_of(records.drop_last())[k] == p);
            }
        }
        if paths_of(records.drop_last()).contains(p) {
            let k = choose|k: int|
                0 <= k < paths_of(records.drop_last()).len() && paths_of(records.drop_last())[k]
                    == p;
            assert(paths_of(records)[k] == p);
        }
    }
}

pub proof fn lemma_index_map_at(records: Seq<Record>, k: int)
    requires
        distinct_paths(records),
        0 <= k < records.len(),
    ensures
        index_map(records).contains_key(records[k].0),
        index_map(records)[records[k].0] == (records[k].1, records[k].2),
    decreases records.len(),
{
    if k < records.len() - 1 {
        let rest = records.drop_last();
        assert(distinct_paths(rest));
        lemma_index_map_at(rest, k);
        assert(records[k].0 != records[records.len() - 1].0);
    }
}

pub proof fn lemma_index_map_update(records: Seq<Record>, k: int, r: Record)
    requires
        distinct_paths(records),
        0 <= k < records.len(),
        r.0 == records[k].0,
    ensures
        distinct_paths(records.update(k, r)),
        index_map(records.update(k, r)) =~= index_map(records).insert(r.0, (r.1, r.2)),
    decreases records.len(),
{
    let updated = records.update(k, r);
    if k == records.len() - 1 {
        assert(updated.drop_last() =~= records.drop_last());
    } else {
        let rest = records.drop_last();
        assert(distinct_paths(rest));
        lemma_index_map_update(rest, k, r);
        assert(updated.drop_last() =~= rest.update(k, r));
        assert(records.last().0 != r.0);
    }
}

impl ManifestIndex {
    /// The entries, one per path, in the order their paths first came.
    pub closed spec fn records(&self) -> Seq<Record> {
        self.entries@.map_values(|e: TrackedFile| e@)
    }

    /// One entry per path; every index satisfies this.
    #[verifier::type_invariant]
    pub open spec fn well_formed(&self) -> bool {
        distinct_paths(self.records())
    }

    /// The manifest as a map from path to (content hash, asset).
    pub open spec fn view(&self) -> Map<Seq<char>, (Seq<char>, i64)> {
        index_map(self.records())
    }

    /// An empty manifest.
    pub fn new() -> (res: Self)
        ensures
            res.records() == Seq::<Record>::empty(),
            res.view() == Map::<Seq<char>, (Seq<char>, i64)>::empty(),
    {
        let res = ManifestIndex { entries: Vec::new() };
        assert(res.records() =~= Seq::<Record>::empty());
        res
    }

    /// Number of paths.
    pub fn len(&self) -> (n: usize)
        ensures
            n == self.records().len(),
    {
        self.entries.len()
    }

    /// The entry at position `i`.
    pub fn entry(&self, i: usize) -> (e: &TrackedFile)
        requires
            i < self.records().len(),
        ensures
            e@ == self.records()[i as int],
    {
        &self.entries[i]
    }

    /// Where `path` stands among the entries, if anywhere.
    pub fn position(&self, path: &String) -> (res: Option<usize>)
        ensures
            match res {
                Some(k) => k < self.records().len() && self.records()[k as int].0 == path@,
                None => !self.view().contains_key(path@),
            },
            res is Some <==> self.view().contains_key(path@),
    {
        proof {
            use_type_invariant(self);
            lemma_index_facts(self.records());
        }
        let mut i: usize = 0;
        while i < self.entries.len()
            invariant
                i <= self.entries@.len(),
                self.records().len() == self.entries@.len(),
                forall|j: int| 0 <= j < i ==> self.records()[j].0 != path@,
                distinct_paths(self.records()),
            decreases self.entries@.len() - i,
        {
            if self.entries[i].path == *path {
                proof {
                    lemma_index_map_at(self.records(), i as int);
                }
                return Some(i);
            }
            i = i + 1;
        }
        proof {
            if paths_of(self.records()).contains(path@) {
                let k = choose|k: int|
                    0 <= k < paths_of(self.records()).len() && paths_of(self.records())[k]
                        == path@;
                assert(self.records()[k].0 == path@);
            }
        }
        None
    }

    /// The content hash and asset recorded for `path`.
    pub fn get(&self, path: &String) -> (res: Option<(&String, i64)>)
        ensures
            match res {
                Some((h, a)) => self.view().contains_key(path@) && self.view()[path@] == (
                    h@,
                    a,
                ),
                None => !self.view().contains_key(path@),
            },
    {
        proof {
            use_type_invariant(self);
            lemma_index_facts(self.records());
        }
        match self.position(path) {
            Some(k) => {
                let e = &self.entries[k];
                Some((&e.hash, e.asset_id))
            },
            None => None,
        }
    }

    /// Whether `path` has an entry.
    pub fn contains(&self, path: &String) -> (b: bool)
        ensures
            b == self.view().contains_key(path@),
    {
        self.position(path).is_some()
    }

    /// Records `path` with its content hash and asset, replacing what was
    /// recorded for it before (as inserting into a map does).
    pub fn insert(&mut self, path: String, hash: String, asset_id: i64)
        ensures
            final(self).view() == old(self).view().insert(path@, (hash@, asset_id)),
            old(self).view().contains_key(path@) ==> final(self).records().len() == old(
                self,
            ).records().len(),
            !old(self).view().contains_key(path@) ==> final(self).records() == old(
                self,
            ).records().push((path@, hash@, asset_id)),
    {
        proof {
            use_type_invariant(&*self);
        }
        let ghost before = self.records();
        let entry = TrackedFile { path, hash, asset_id };
        match self.position(&entry.path) {
            Some(k) => {
                let ghost r = entry@;
                proof {
                    lemma_index_map_update(before, k as int, r);
                }
                let mut entries: Vec<TrackedFile> = Vec::new();
                std::mem::swap(&mut entries, &mut self.entries);
                entries.set(k, entry);
                assert(entries@.map_values(|e: TrackedFile| e@) =~= before.update(k as int, r));
                self.entries = entries;
                assert(self.records() =~= before.update(k as int, r));
            },
            None => {
                let ghost r = entry@;
                proof {
                    lemma_index_map_domain(before, r.0);
                    assert forall|i: int| 0 <= i < before.len() implies before[i].0 != r.0 by {
                        assert(paths_of(before)[i] == before[i].0);
                    }
                }
                let mut entries: Vec<TrackedFile> = Vec::new();
                std::mem::swap(&mut entries, &mut self.entries);
                entries.push(entry);
                assert(entries@.map_values(|e: TrackedFile| e@) =~= before.push(r));
                assert(distinct_paths(before.push(r)));
                self.entries = entries;
                assert(self.records() =~= before.push(r));
                assert(self.records().drop_last() =~= before);
            },
        }
    }

    /// Builds the index from rows in the order the database returned them.
    pub fn from_rows(rows: Vec<TrackedFile>) -> (res: Self)
        ensures
            res.view() == index_map(rows@.map_values(|e: TrackedFile| e@)),
    {
        let ghost all = rows@.map_values(|e: TrackedFile| e@);
        let mut res = ManifestIndex::new();
        let mut i: usize = 0;
        while i < rows.len()
            invariant
                i <= rows@.len(),
                all == rows@.map_values(|e: TrackedFile| e@),
                res.view() == index_map(all.subrange(0, i as int)),
            decreases rows@.len() - i,
        {
            let row = &rows[i];
            res.insert(row.path.clone(), row.hash.clone(), row.asset_id);
            i = i + 1;
            assert(all.subrange(0, i as int).drop_last() =~= all.subrange(0, i - 1));
        }
        assert(all.subrange(0, rows@.len() as int) =~= all);
        res
    }
}

} // verus!
