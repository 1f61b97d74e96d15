//! Switching branches: deciding whether a checkout may proceed and which
//! files of the working tree it rewrites or removes.

use vstd::prelude::*;
use crate::manifest::{index_map, distinct_paths, lemma_index_facts, paths_of, ManifestIndex, Record};
use crate::seqs::lemma_filter_map_contains;

verus! {

/// What a checkout does.
#[derive(Debug)]
pub enum CheckoutPlan {
    /// The target is the current branch: nothing to do.
    AlreadyOn,
    /// The working tree has uncommitted changes: nothing is touched.
    WouldOverwrite,
    /// The target branch has no commit (and is not `main`).
    BranchNotFound,
    /// Write these files (path and content hash of the blob to write),
    /// remove these paths, then make the target the current branch.
    Switch { writes: Vec<(String, String)>, removals: Vec<String> },
}

/// The abstract form of a plan.
pub enum PlanView {
    AlreadyOn,
    WouldOverwrite,
    BranchNotFound,
    Switch { writes: Seq<(Seq<char>, Seq<char>)>, removals: Seq<Seq<char>> },
}

impl View for CheckoutPlan {
    type V = PlanView;

    open spec fn view(&self) -> PlanView {
        match self {
            CheckoutPlan::AlreadyOn => PlanView::AlreadyOn,
            CheckoutPlan::WouldOverwrite => PlanView::WouldOverwrite,
            CheckoutPlan::BranchNotFound => PlanView::BranchNotFound,
            CheckoutPlan::Switch { writes, removals } => PlanView::Switch {
                writes: writes@.map_values(|w: (String, String)| (w.0@, w.1@)),
                removals: removals@.map_values(|r: String| r@),
            },
        }
    }
}

/// A file of the target commit must be written when the current commit
/// lacks it or holds different content.
pub open spec fn needs_write(current: Map<Seq<char>, (Seq<char>, i64)>, r: Record) -> Option<
    (Seq<char>, Seq<char>),
> {
    if !current.contains_key(r.0) || current[r.0].0 != r.1 {
        Some((r.0, r.1))
    } else {
        None
    }
}

/// A file of the current commit must be removed when the target commit
/// lacks it.
pub open spec fn needs_removal(target: Map<Seq<char>, (Seq<char>, i64)>, r: Record) -> Option<
    Seq<char>,
> {
    if target.contains_key(r.0) {
        None
    } else {
        Some(r.0)
    }
}

pub open spec fn planned_writes(current: Seq<Record>, target: Seq<Record>) -> Seq<
    (Seq<char>, Seq<char>),
> {
    target.filter_map(|r: Record| needs_write(index_map(current), r))
}

pub open spec fn planned_removals(current: Seq<Record>, target: Seq<Record>) -> Seq<Seq<char>> {
    current.filter_map(|r: Record| needs_removal(index_map(target), r))
}

/// The plan of a checkout from `current_branch` to `target_branch`, given
/// how many uncommitted changes the working tree has, whether the target
/// branch has a head commit, and the manifests of both heads (an empty
/// manifest for a branch without commits).
pub open spec fn checkout_plan(
    current_branch: Seq<char>,
    target_branch: Seq<char>,
    pending_changes: nat,
    target_exists: bool,
    current: Seq<Record>,
    target: Seq<Record>,
) -> PlanView {
    if current_branch == target_branch {
        PlanView::AlreadyOn
    } else if pending_changes > 0 {
        PlanView::WouldOverwrite
    } else if !target_exists && target_branch != "main"@ {
        PlanView::BranchNotFound
    } else {
        PlanView::Switch {
            writes: planned_writes(current, target),
            removals: planned_removals(current, target),
        }
    }
}

/// Plans a checkout.
pub fn plan_checkout(
    current_branch: &String,
    target_branch: &String,
    pending_changes: usize,
    target_exists: bool,
    current: &ManifestIndex,
    target: &ManifestIndex,
) -> (res: CheckoutPlan)
    ensures
        res@ == checkout_plan(
            current_branch@,
            target_branch@,
            pending_changes as nat,
            target_exists,
            current.records(),
            target.records(),
        ),
{
    if *current_branch == *target_branch {
        return CheckoutPlan::AlreadyOn;
    }
    if pending_changes > 0 {
        return CheckoutPlan::WouldOverwrite;
    }
    let main = String::from_str("main");
    if !target_exists && *target_branch != main {
        return CheckoutPlan::BranchNotFound;
    }
    let ghost cur = current.records();
    let ghost tgt = target.records();
    let ghost wf = |r: Record| needs_write(index_map(cur), r);
    let ghost rf = |r: Record| needs_removal(index_map(tgt), r);
    let mut writes: Vec<(String, String)> = Vec::new();
    let mut i: usize = 0;
    while i < target.len()
        invariant
            i <= tgt.len(),
            cur == current.records(),
            tgt == target.records(),
            current.view() == index_map(cur),
            wf == (|r: Record| needs_write(index_map(cur), r)),
            writes@.map_values(|w: (String, String)| (w.0@, w.1@)) =~= tgt.subrange(0, i as int).filter_map(wf),
        decreases tgt.len() - i,
    {
        let e = target.entry(i);
        assert(tgt.subrange(0, i + 1).drop_last() =~= tgt.subrange(0, i as int));
        assert(tgt.subrange(0, i + 1).last() == e@);
        let write = match current.get(&e.path) {
            Some((h, _)) => *h != e.hash,
            None => true,
        };
        if write {
            writes.push((e.path.clone(), e.hash.clone()));
        }
        i = i + 1;
        assert(writes@.map_values(|w: (String, String)| (w.0@, w.1@)) =~= tgt.subrange(0, i as int).filter_map(wf));
    }
    assert(tgt.subrange(0, tgt.len() as int) =~= tgt);
    let mut removals: Vec<String> = Vec::new();
    let mut k: usize = 0;
    while k < current.len()
        invariant
            k <= cur.len(),
            cur == current.records(),
            tgt == target.records(),
            target.view() == index_map(tgt),
            rf == (|r: Record| needs_removal(index_map(tgt), r)),
            removals@.map_values(|r: String| r@) =~= cur.subrange(0, k as int).filter_map(rf),
        decreases cur.len() - k,
    {
        let e = current.entry(k);
        assert(cur.subrange(0, k + 1).drop_last() =~= cur.subrange(0, k as int));
        assert(cur.subrange(0, k + 1).last() == e@);
        if !target.contains(&e.path) {
            removals.push(e.path.clone());
        }
        k = k + 1;
        assert(removals@.map_values(|r: String| r@) =~= cur.subrange(0, k as int).filter_map(rf));
    }
    assert(cur.subrange(0, cur.len() as int) =~= cur);
    CheckoutPlan::Switch { writes, removals }
}

/// The working tree as a map from path to content hash.
pub open spec fn tree_of(records: Seq<Record>) -> Map<Seq<char>, Seq<char>> {
    index_map(records).map_values(|v: (Seq<char>, i64)| v.0)
}

/// Writing files in turn (a later write of a path winning).
pub open spec fn write_files(tree: Map<Seq<char>, Seq<char>>, writes: Seq<(Seq<char>, Seq<char>)>) -> Map<
    Seq<char>,
    Seq<char>,
>
    decreases writes.len(),
{
    if writes.len() == 0 {
        tree
    } else {
        write_files(tree, writes.drop_last()).insert(writes.last().0, writes.last().1)
    }
}

/// Removing files in turn.
pub open spec fn remove_files(tree: Map<Seq<char>, Seq<char>>, paths: Seq<Seq<char>>) -> Map<
    Seq<char>,
    Seq<char>,
>
    decreases paths.len(),
{
    if paths.len() == 0 {
        tree
    } else {
        remove_files(tree, paths.drop_last()).remove(paths.last())
    }
}

proof fn lemma_write_files(
    tree: Map<Seq<char>, Seq<char>>,
    writes: Seq<(Seq<char>, Seq<char>)>,
    value: Map<Seq<char>, Seq<char>>,
    p: Seq<char>,
)
    requires
        forall|i: int| 0 <= i < writes.len() ==> value.contains_key(#[trigger] writes[i].0) && value[writes[i].0] == writes[i].1,
    ensures
        (exists|i: int| 0 <= i < writes.len() && #[trigger] writes[i].0 == p) ==> write_files(tree, writes).contains_key(p)
            && write_files(tree, writes)[p] == value[p],
        !(exists|i: int| 0 <= i < writes.len() && #[trigger] writes[i].0 == p) ==> (write_files(tree, writes).contains_key(p)
            == tree.contains_key(p)) && (tree.contains_key(p) ==> write_files(tree, writes)[p] == tree[p]),
    decreases writes.len(),
{
    if writes.len() > 0 {
        let rest = writes.drop_last();
        assert forall|i: int| 0 <= i < rest.len() implies value.contains_key(#[trigger] rest[i].0) && value[rest[i].0] == rest[i].1 by {
            assert(rest[i] == writes[i]);
        }
        lemma_write_files(tree, rest, value, p);
        if exists|i: int| 0 <= i < writes.len() && #[trigger] writes[i].0 == p {
            let i = choose|i: int| 0 <= i < writes.len() && #[trigger] writes[i].0 == p;
            if i < writes.len() - 1 && writes.last().0 != p {
                assert(rest[i].0 == p);
            }
        } else {
            assert forall|i: int| 0 <= i < rest.len() implies #[trigger] rest[i].0 != p by {
                assert(rest[i] == writes[i]);
            }
            assert(writes[writes.len() - 1].0 != p);
        }
    }
}

proof fn lemma_remove_files(tree: Map<Seq<char>, Seq<char>>, paths: Seq<Seq<char>>, p: Seq<char>)
    ensures
        remove_files(tree, paths).contains_key(p) <==> tree.contains_key(p) && !paths.contains(p),
        remove_files(tree, paths).contains_key(p) ==> remove_files(tree, paths)[p] == tree[p],
    decreases paths.len(),
{
    if paths.len() > 0 {
        let rest = paths.drop_last();
        lemma_remove_files(tree, rest, p);
        if paths.contains(p) && paths.last() != p {
            let i = choose|i: int| 0 <= i < paths.len() && paths[i] == p;
            assert(rest[i] == p);
        }
        if rest.contains(p) {
            let i = choose|i: int| 0 <= i < rest.len() && rest[i] == p;
            assert(paths[i] == p);
        }
        if paths.last() == p {
            assert(paths[paths.len() - 1] == p);
        }
    }
}

/// A checkout reconstructs the target: when the working tree holds exactly
/// the current commit's files, applying the planned writes and then the
/// planned removals leaves exactly the target commit's files.
pub proof fn lemma_checkout_reaches_target(current: Seq<Record>, target: Seq<Record>)
    requires
        distinct_paths(current),
        distinct_paths(target),
    ensures
        remove_files(
            write_files(tree_of(current), planned_writes(current, target)),
            planned_removals(current, target),
        ) =~= tree_of(target),
{
    let cm = index_map(current);
    let tm = index_map(target);
    let writes = planned_writes(current, target);
    let removals = planned_removals(current, target);
    let wf = |r: Record| needs_write(cm, r);
    let rf = |r: Record| needs_removal(tm, r);
    let goal = tree_of(target);
    lemma_index_facts(current);
    lemma_index_facts(target);
    assert forall|i: int| 0 <= i < writes.len() implies goal.contains_key(#[trigger] writes[i].0) && goal[writes[i].0] == writes[i].1 by {
        lemma_filter_map_contains(target, wf, writes[i]);
        let j = choose|j: int| 0 <= j < target.len() && #[trigger] wf(target[j]) == Some(writes[i]);
        assert(tm.contains_key(target[j].0));
    }
    let written = write_files(tree_of(current), writes);
    let result = remove_files(written, removals);
    assert forall|p: Seq<char>| #[trigger] result.contains_key(p) == goal.contains_key(p) && (goal.contains_key(p) ==> result[p] == goal[p]) by {
        lemma_write_files(tree_of(current), writes, goal, p);
        lemma_remove_files(written, removals, p);
        lemma_filter_map_contains(current, rf, p);
        if tm.contains_key(p) {
            assert(paths_of(target).contains(p));
            let j = choose|j: int| 0 <= j < paths_of(target).len() && paths_of(target)[j] == p;
            assert(target[j].0 == p);
            if exists|i: int| 0 <= i < current.len() && #[trigger] rf(current[i]) == Some(p) {
                let i = choose|i: int| 0 <= i < current.len() && #[trigger] rf(current[i]) == Some(p);
                assert(current[i].0 == p);
            }
            if wf(target[j]) is Some {
                lemma_filter_map_contains(target, wf, wf(target[j])->0);
                let k = choose|k: int| 0 <= k < writes.len() && writes[k] == wf(target[j])->0;
                assert(writes[k].0 == p);
            } else {
                assert(cm.contains_key(p));
            }
        } else {
            if exists|i: int| 0 <= i < writes.len() && #[trigger] writes[i].0 == p {
                let i = choose|i: int| 0 <= i < writes.len() && #[trigger] writes[i].0 == p;
                assert(goal.contains_key(writes[i].0));
            }
            if cm.contains_key(p) {
                assert(paths_of(current).contains(p));
                let j = choose|j: int| 0 <= j < paths_of(current).len() && paths_of(current)[j] == p;
                assert(current[j].0 == p);
                assert(rf(current[j]) == Some(p));
            }
        }
    }
}

} // verus!
