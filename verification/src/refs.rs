//! Branches and the git-flow commands that create, fast-forward and delete
//! them. The database's `branches` table (joined with the commits it points
//! to) is loaded into [`Refs`]; each command updates the model and returns
//! the actions that the database and the working tree must undergo.

use vstd::prelude::*;
use vstd::string::*;

verus! {

/// A branch and the commit it points to.
#[derive(Debug)]
pub struct BranchHead {
    pub name: String,
    pub commit_id: i64,
    pub commit_hash: String,
}

pub type HeadView = (i64, Seq<char>);

/// What the database and the working tree must undergo after a command.
#[derive(Debug)]
pub enum RefAction {
    /// `INSERT INTO branches (name, head_commit_id)`.
    InsertBranch { name: String, commit_id: i64 },
    /// `UPDATE branches SET head_commit_id WHERE name` (no effect when the
    /// branch does not exist).
    SetHead { name: String, commit_id: i64 },
    /// `DELETE FROM branches WHERE name`.
    DeleteBranch { name: String },
    /// Run the checkout procedure towards this branch.
    Checkout { name: String },
}

pub enum ActionView {
    InsertBranch { name: Seq<char>, commit_id: i64 },
    SetHead { name: Seq<char>, commit_id: i64 },
    DeleteBranch { name: Seq<char> },
    Checkout { name: Seq<char> },
}

impl View for RefAction {
    type V = ActionView;

    open spec fn view(&self) -> ActionView {
        match self {
            RefAction::InsertBranch { name, commit_id } => ActionView::InsertBranch {
                name: name@,
                commit_id: *commit_id,
            },
            RefAction::SetHead { name, commit_id } => ActionView::SetHead {
                name: name@,
                commit_id: *commit_id,
            },
            RefAction::DeleteBranch { name } => ActionView::DeleteBranch { name: name@ },
            RefAction::Checkout { name } => ActionView::Checkout { name: name@ },
        }
    }
}

pub open spec fn actions_view(a: Seq<RefAction>) -> Seq<ActionView> {
    a.map_values(|x: RefAction| x@)
}

/// How creating a branch ended.
#[derive(Debug, Clone, Copy, PartialEq, Eq, Structural)]
pub enum CreateOutcome {
    Created,
    /// A branch of that name exists: nothing changes.
    AlreadyExists,
    /// The current branch has no commit to branch from: nothing changes.
    EmptyRepository,
}

/// Why a git-flow command was refused.
#[derive(Debug, Clone, Copy, PartialEq, Eq, Structural)]
pub enum FlowError {
    /// `main` has no commit: a hotfix cannot start from it, and no branch
    /// can be finished into it.
    NoMainBranch,
    /// The hotfix branch to start exists already.
    HotfixExists,
    /// The hotfix branch to finish does not exist.
    HotfixNotFound,
    /// The feature branch to finish does not exist.
    FeatureNotFound,
    /// `main` has commits that the branch to finish does not hold: moving
    /// `main` to the branch would lose them.
    MainDiverged,
}

/// Why a tag could not be created.
#[derive(Debug, Clone, Copy, PartialEq, Eq, Structural)]
pub enum TagError {
    /// The current branch has no commit to tag.
    EmptyBranch,
}

pub open spec fn main_name() -> Seq<char> {
    "main"@
}

pub open spec fn feature_name(name: Seq<char>) -> Seq<char> {
    "feature/"@ + name
}

pub open spec fn hotfix_name(name: Seq<char>) -> Seq<char> {
    "hotfix/"@ + name
}

/// The branches after creating `new_name` at the head of `current`.
pub open spec fn created(m: Map<Seq<char>, HeadView>, current: Seq<char>, new_name: Seq<char>) -> (
    Map<Seq<char>, HeadView>,
    CreateOutcome,
) {
    if !m.contains_key(current) {
        (m, CreateOutcome::EmptyRepository)
    } else if m.contains_key(new_name) {
        (m, CreateOutcome::AlreadyExists)
    } else {
        (m.insert(new_name, m[current]), CreateOutcome::Created)
    }
}

/// The parent of commit `c` in `graph` (pairs of a commit id and its
/// parent's id; the first pair for `c` counts), or `None` for a root
/// commit or a commit the graph lacks.
pub open spec fn parent_in(graph: Seq<(i64, Option<i64>)>, c: i64) -> Option<i64>
    decreases graph.len(),
{
    if graph.len() == 0 {
        None
    } else if graph[0].0 == c {
        graph[0].1
    } else {
        parent_in(graph.drop_first(), c)
    }
}

/// The commit `k` parent steps above `c`, if the chain is that long.
pub open spec fn ancestor_at(graph: Seq<(i64, Option<i64>)>, c: i64, k: nat) -> Option<i64>
    decreases k,
{
    if k == 0 {
        Some(c)
    } else {
        match ancestor_at(graph, c, (k - 1) as nat) {
            Some(x) => parent_in(graph, x),
            None => None,
        }
    }
}

/// Commit `a` is reachable from commit `c` by parent steps (`c` itself
/// included).
pub open spec fn reaches(graph: Seq<(i64, Option<i64>)>, c: i64, a: i64) -> bool {
    exists|k: nat| #[trigger] ancestor_at(graph, c, k) == Some(a)
}

/// Commit `a` is `c` or an ancestor of `c` within as many parent steps as
/// the graph has commits (which every chain of a graph without cycles is).
pub open spec fn is_ancestor(graph: Seq<(i64, Option<i64>)>, a: i64, c: i64) -> bool {
    exists|k: nat| k <= graph.len() && #[trigger] ancestor_at(graph, c, k) == Some(a)
}

/// The branches after finishing `branch` into `main`: `main` is
/// fast-forwarded to `branch`'s head and `branch` is deleted. Refused with
/// `missing` when `branch` does not exist, when there is no `main`, and
/// when `main`'s head is not an ancestor of `branch`'s head (a fast-forward
/// would lose `main`'s own commits).
pub open spec fn finished(
    m: Map<Seq<char>, HeadView>,
    branch: Seq<char>,
    graph: Seq<(i64, Option<i64>)>,
    missing: FlowError,
) -> Result<Map<Seq<char>, HeadView>, FlowError> {
    if !m.contains_key(branch) {
        Err(missing)
    } else if !m.contains_key(main_name()) {
        Err(FlowError::NoMainBranch)
    } else if !is_ancestor(graph, m[main_name()].0, m[branch].0) {
        Err(FlowError::MainDiverged)
    } else {
        Ok(m.insert(main_name(), m[branch]).remove(branch))
    }
}

/// What finishing `branch` does, in order: switch to `branch` (so that the
/// working files hold its head), move `main` to that head, switch to `main`
/// (which now holds the same files), and delete `branch`.
pub open spec fn finish_actions(branch: Seq<char>, head: i64) -> Seq<ActionView> {
    seq![
        ActionView::Checkout { name: branch },
        ActionView::SetHead { name: main_name(), commit_id: head },
        ActionView::Checkout { name: main_name() },
        ActionView::DeleteBranch { name: branch },
    ]
}

fn parent_of(graph: &Vec<(i64, Option<i64>)>, c: i64) -> (res: Option<i64>)
    ensures
        res == parent_in(graph@, c),
{
    let mut i: usize = 0;
    assert(graph@.skip(0) =~= graph@);
    while i < graph.len()
        invariant
            i <= graph@.len(),
            parent_in(graph@, c) == parent_in(graph@.skip(i as int), c),
        decreases graph@.len() - i,
    {
        assert(graph@.skip(i as int).drop_first() =~= graph@.skip(i + 1));
        assert(graph@.skip(i as int)[0] == graph@[i as int]);
        if graph[i].0 == c {
            return graph[i].1;
        }
        i = i + 1;
    }
    assert(graph@.skip(i as int).len() == 0);
    None
}

/// Whether commit `a` is `c` or an ancestor of `c` in `graph`.
pub fn ancestor_in(graph: &Vec<(i64, Option<i64>)>, a: i64, c: i64) -> (res: bool)
    ensures
        res == is_ancestor(graph@, a, c),
{
    let mut k: usize = 0;
    let mut cur: Option<i64> = Some(c);
    loop
        invariant
            k <= graph@.len(),
            cur == ancestor_at(graph@, c, k as nat),
            forall|j: nat| j < k ==> #[trigger] ancestor_at(graph@, c, j) != Some(a),
        decreases graph@.len() - k,
    {
        let here = match cur {
            Some(x) => x == a,
            None => false,
        };
        if here {
            assert(ancestor_at(graph@, c, k as nat) == Some(a));
            return true;
        }
        if k == graph.len() {
            assert forall|j: nat| j <= graph@.len() implies #[trigger] ancestor_at(graph@, c, j) != Some(a) by {
                if j < k {
                }
            }
            return false;
        }
        cur = match cur {
            Some(x) => parent_of(graph, x),
            None => None,
        };
        k = k + 1;
    }
}

/// Going `k1` parent steps and then `k2` more is going `k1 + k2` steps.
pub proof fn lemma_ancestor_steps(graph: Seq<(i64, Option<i64>)>, c: i64, k1: nat, k2: nat)
    ensures
        ancestor_at(graph, c, k1 + k2) == match ancestor_at(graph, c, k1) {
            Some(x) => ancestor_at(graph, x, k2),
            None => None,
        },
    decreases k2,
{
    if k2 > 0 {
        lemma_ancestor_steps(graph, c, k1, (k2 - 1) as nat);
        assert((k1 + k2 - 1) as nat == k1 + (k2 - 1) as nat);
    }
}

/// Finishing a branch into `main` loses none of `main`'s commits: every
/// commit reachable from `main`'s head before is reachable from it after.
pub proof fn lemma_finish_keeps_main_history(
    m: Map<Seq<char>, HeadView>,
    branch: Seq<char>,
    graph: Seq<(i64, Option<i64>)>,
    missing: FlowError,
    a: i64,
)
    requires
        branch != main_name(),
        finished(m, branch, graph, missing) is Ok,
        reaches(graph, m[main_name()].0, a),
    ensures
        finished(m, branch, graph, missing)->Ok_0.contains_key(main_name()),
        reaches(graph, finished(m, branch, graph, missing)->Ok_0[main_name()].0, a),
{
    let k1 = choose|k: nat| k <= graph.len() && #[trigger] ancestor_at(graph, m[branch].0, k) == Some(
        m[main_name()].0,
    );
    let k2 = choose|k: nat| #[trigger] ancestor_at(graph, m[main_name()].0, k) == Some(a);
    lemma_ancestor_steps(graph, m[branch].0, k1, k2);
    assert(ancestor_at(graph, m[branch].0, k1 + k2) == Some(a));
}

/// The branches after starting hotfix `name` from `main`.
pub open spec fn hotfix_started(m: Map<Seq<char>, HeadView>, name: Seq<char>) -> Result<
    Map<Seq<char>, HeadView>,
    FlowError,
> {
    if !m.contains_key(main_name()) {
        Err(FlowError::NoMainBranch)
    } else if m.contains_key(hotfix_name(name)) {
        Err(FlowError::HotfixExists)
    } else {
        Ok(m.insert(hotfix_name(name), m[main_name()]))
    }
}

/// The branches of a repository, each with its head commit, and the
/// current branch.
pub struct Refs {
    branches: Vec<BranchHead>,
    current: String,
}

pub open spec fn head_view(b: BranchHead) -> (Seq<char>, HeadView) {
    (b.name@, (b.commit_id, b.commit_hash@))
}

pub open spec fn distinct_names(s: Seq<(Seq<char>, HeadView)>) -> bool {
    forall|i: int, j: int|
        0 <= i < s.len() && 0 <= j < s.len() && i != j ==> #[trigger] s[i].0 != #[trigger] s[j].0
}

pub open spec fn heads_map(s: Seq<(Seq<char>, HeadView)>) -> Map<Seq<char>, HeadView>
    decreases s.len(),
{
    if s.len() == 0 {
        Map::empty()
    } else {
        heads_map(s.drop_last()).insert(s.last().0, s.last().1)
    }
}

proof fn lemma_heads_map_find(s: Seq<(Seq<char>, HeadView)>, k: int)
    requires
        distinct_names(s),
        0 <= k < s.len(),
    ensures
        heads_map(s).contains_key(s[k].0),
        heads_map(s)[s[k].0] == s[k].1,
    decreases s.len(),
{
    if k < s.len() - 1 {
        lemma_heads_map_find(s.drop_last(), k);
    }
}

proof fn lemma_heads_map_absent(s: Seq<(Seq<char>, HeadView)>, name: Seq<char>)
    requires
        forall|j: int| 0 <= j < s.len() ==> #[trigger] s[j].0 != name,
    ensures
        !heads_map(s).contains_key(name),
    decreases s.len(),
{
    if s.len() > 0 {
        lemma_heads_map_absent(s.drop_last(), name);
    }
}

proof fn lemma_heads_map_remove(s: Seq<(Seq<char>, HeadView)>, k: int)
    requires
        distinct_names(s),
        0 <= k < s.len(),
    ensures
        distinct_names(s.remove(k)),
        heads_map(s.remove(k)) =~= heads_map(s).remove(s[k].0),
    decreases s.len(),
{
    let r = s.remove(k);
    if k == s.len() - 1 {
        assert(r =~= s.drop_last());
        assert forall|j: int| 0 <= j < r.len() implies #[trigger] r[j].0 != s[k].0 by {
            assert(r[j] == s[j]);
        }
        lemma_heads_map_absent(r, s[k].0);
    } else {
        lemma_heads_map_remove(s.drop_last(), k);
        assert(r.drop_last() =~= s.drop_last().remove(k));
        assert(r.last() == s.last());
    }
}

proof fn lemma_heads_map_update(s: Seq<(Seq<char>, HeadView)>, k: int, v: HeadView)
    requires
        distinct_names(s),
        0 <= k < s.len(),
    ensures
        distinct_names(s.update(k, (s[k].0, v))),
        heads_map(s.update(k, (s[k].0, v))) =~= heads_map(s).insert(s[k].0, v),
    decreases s.len(),
{
    let u = s.update(k, (s[k].0, v));
    if k == s.len() - 1 {
        assert(u.drop_last() =~= s.drop_last());
    } else {
        lemma_heads_map_update(s.drop_last(), k, v);
        assert(u.drop_last() =~= s.drop_last().update(k, (s[k].0, v)));
    }
}

impl Refs {
    pub closed spec fn heads(&self) -> Seq<(Seq<char>, HeadView)> {
        self.branches@.map_values(|b: BranchHead| head_view(b))
    }

    #[verifier::type_invariant]
    pub open spec fn well_formed(&self) -> bool {
        distinct_names(self.heads())
    }

    /// The branches: name to (commit id, commit hash).
    pub open spec fn view(&self) -> Map<Seq<char>, HeadView> {
        heads_map(self.heads())
    }

    pub closed spec fn current_branch(&self) -> Seq<char> {
        self.current@
    }

    /// Loads the branches (rows of the `branches` table joined with their
    /// head commits; where a name came twice, its last row would count) and
    /// the current branch.
    pub fn new(rows: Vec<BranchHead>, current: String) -> (res: Self)
        ensures
            res.current_branch() == current@,
            res.view() == heads_map(rows@.map_values(|b: BranchHead| head_view(b))),
    {
        let ghost all = rows@.map_values(|b: BranchHead| head_view(b));
        let mut res = Refs { branches: Vec::new(), current };
        assert(res.heads() =~= Seq::<(Seq<char>, HeadView)>::empty());
        let mut i: usize = 0;
        while i < rows.len()
            invariant
                i <= rows@.len(),
                all == rows@.map_values(|b: BranchHead| head_view(b)),
                res.current_branch() == current@,
                res.view() == heads_map(all.subrange(0, i as int)),
            decreases rows@.len() - i,
        {
            let row = &rows[i];
            if res.has(&row.name) {
                res.set_head(&row.name, (row.commit_id, row.commit_hash.clone()));
            } else {
                res.push_head(BranchHead {
                    name: row.name.clone(),
                    commit_id: row.commit_id,
                    commit_hash: row.commit_hash.clone(),
                });
            }
            assert(all.subrange(0, i + 1).drop_last() =~= all.subrange(0, i as int));
            assert(all.subrange(0, i + 1).last() == head_view(*row));
            i = i + 1;
        }
        assert(all.subrange(0, rows@.len() as int) =~= all);
        res
    }

    fn push_head(&mut self, b: BranchHead)
        requires
            !old(self).view().contains_key(b.name@),
        ensures
            final(self).view() == old(self).view().insert(b.name@, (b.commit_id, b.commit_hash@)),
            final(self).current_branch() == old(self).current_branch(),
    {
        proof {
            use_type_invariant(&*self);
        }
        let ghost before = self.heads();
        let ghost hv = head_view(b);
        proof {
            assert forall|j: int| 0 <= j < before.len() implies before[j].0 != hv.0 by {
                if before[j].0 == hv.0 {
                    lemma_heads_map_find(before, j);
                }
            }
        }
        let mut branches: Vec<BranchHead> = Vec::new();
        std::mem::swap(&mut branches, &mut self.branches);
        branches.push(b);
        assert(branches@.map_values(|x: BranchHead| head_view(x)) =~= before.push(hv));
        assert(distinct_names(before.push(hv)));
        self.branches = branches;
        assert(self.heads().drop_last() =~= before);
    }

    fn find(&self, name: &String) -> (res: Option<usize>)
        ensures
            match res {
                Some(k) => k < self.heads().len() && self.heads()[k as int].0 == name@
                    && self.view().contains_key(name@) && self.view()[name@] == self.heads()[k as int].1,
                None => !self.view().contains_key(name@),
            },
    {
        proof {
            use_type_invariant(self);
        }
        let mut i: usize = 0;
        while i < self.branches.len()
            invariant
                i <= self.branches@.len(),
                self.heads().len() == self.branches@.len(),
                distinct_names(self.heads()),
                forall|j: int| 0 <= j < i ==> #[trigger] self.heads()[j].0 != name@,
            decreases self.branches@.len() - i,
        {
            if self.branches[i].name == *name {
                proof {
                    lemma_heads_map_find(self.heads(), i as int);
                }
                return Some(i);
            }
            i = i + 1;
        }
        proof {
            lemma_heads_map_absent(self.heads(), name@);
        }
        None
    }

    /// Whether branch `name` exists.
    pub fn has(&self, name: &String) -> (b: bool)
        ensures
            b == self.view().contains_key(name@),
    {
        self.find(name).is_some()
    }

    /// The head commit (id and hash) of branch `name`, if it has one.
    pub fn head_of(&self, name: &String) -> (res: Option<(i64, String)>)
        ensures
            match res {
                Some((id, hash)) => self.view().contains_key(name@) && self.view()[name@] == (id, hash@),
                None => !self.view().contains_key(name@),
            },
    {
        match self.find(name) {
            Some(k) => Some((self.branches[k].commit_id, self.branches[k].commit_hash.clone())),
            None => None,
        }
    }

    /// The current branch.
    pub fn current(&self) -> (res: &String)
        ensures
            res@ == self.current_branch(),
    {
        &self.current
    }

    fn set_head(&mut self, name: &String, head: (i64, String))
        requires
            old(self).view().contains_key(name@),
        ensures
            final(self).view() == old(self).view().insert(name@, (head.0, head.1@)),
            final(self).current_branch() == old(self).current_branch(),
    {
        proof {
            use_type_invariant(&*self);
        }
        let k = self.find(name).unwrap();
        let ghost before = self.heads();
        let ghost v: HeadView = (head.0, head.1@);
        proof {
            lemma_heads_map_update(before, k as int, v);
        }
        let mut branches: Vec<BranchHead> = Vec::new();
        std::mem::swap(&mut branches, &mut self.branches);
        let b = BranchHead { name: name.clone(), commit_id: head.0, commit_hash: head.1 };
        branches.set(k, b);
        assert(branches@.map_values(|x: BranchHead| head_view(x)) =~= before.update(k as int, (before[k as int].0, v)));
        self.branches = branches;
    }

    fn delete(&mut self, name: &String)
        requires
            old(self).view().contains_key(name@),
        ensures
            final(self).view() == old(self).view().remove(name@),
            final(self).current_branch() == old(self).current_branch(),
    {
        proof {
            use_type_invariant(&*self);
        }
        let k = self.find(name).unwrap();
        let ghost before = self.heads();
        proof {
            lemma_heads_map_remove(before, k as int);
        }
        let mut branches: Vec<BranchHead> = Vec::new();
        std::mem::swap(&mut branches, &mut self.branches);
        branches.remove(k);
        assert(branches@.map_values(|x: BranchHead| head_view(x)) =~= before.remove(k as int));
        self.branches = branches;
    }

    /// Creates branch `new_name` at the head of the current branch (the
    /// `branch` command).
    pub fn create_branch(&mut self, new_name: &String) -> (res: (CreateOutcome, Vec<RefAction>))
        ensures
            (final(self).view(), res.0) == created(old(self).view(), old(self).current_branch(), new_name@),
            final(self).current_branch() == old(self).current_branch(),
            actions_view(res.1@) == if res.0 == CreateOutcome::Created {
                seq![ActionView::InsertBranch { name: new_name@, commit_id: old(self).view()[old(self).current_branch()].0 }]
            } else {
                Seq::<ActionView>::empty()
            },
    {
        let mut actions: Vec<RefAction> = Vec::new();
        let current = self.current.clone();
        match self.head_of(&current) {
            None => {
                assert(actions_view(actions@) =~= Seq::<ActionView>::empty());
                (CreateOutcome::EmptyRepository, actions)
            },
            Some(head) => {
                if self.has(new_name) {
                    assert(actions_view(actions@) =~= Seq::<ActionView>::empty());
                    (CreateOutcome::AlreadyExists, actions)
                } else {
                    let id = head.0;
                    self.push_head(BranchHead { name: new_name.clone(), commit_id: head.0, commit_hash: head.1 });
                    actions.push(RefAction::InsertBranch { name: new_name.clone(), commit_id: id });
                    assert(actions_view(actions@) =~= seq![ActionView::InsertBranch { name: new_name@, commit_id: id }]);
                    (CreateOutcome::Created, actions)
                }
            },
        }
    }

    /// The commit that a new tag points to: the head of the current branch.
    /// A tag cannot be created on a branch without commits.
    pub fn tag_target(&self) -> (res: Result<(i64, String), TagError>)
        ensures
            match res {
                Ok((id, hash)) => self.view().contains_key(self.current_branch())
                    && self.view()[self.current_branch()] == (id, hash@),
                Err(e) => e == TagError::EmptyBranch && !self.view().contains_key(self.current_branch()),
            },
    {
        match self.head_of(&self.current) {
            Some(head) => Ok(head),
            None => Err(TagError::EmptyBranch),
        }
    }

    /// Starts feature `name`: creates `feature/<name>` at the current head
    /// and switches to it.
    pub fn feature_start(&mut self, name: &str) -> (res: (CreateOutcome, Vec<RefAction>))
        ensures
            (final(self).view(), res.0) == created(old(self).view(), old(self).current_branch(), feature_name(name@)),
            final(self).current_branch() == old(self).current_branch(),
            actions_view(res.1@) == if res.0 == CreateOutcome::Created {
                seq![
                    ActionView::InsertBranch { name: feature_name(name@), commit_id: old(self).view()[old(self).current_branch()].0 },
                    ActionView::Checkout { name: feature_name(name@) },
                ]
            } else {
                seq![ActionView::Checkout { name: feature_name(name@) }]
            },
    {
        let branch = crate::text::join_strs("feature/", name);
        let (outcome, mut actions) = self.create_branch(&branch);
        let ghost a0 = actions_view(actions@);
        actions.push(RefAction::Checkout { name: branch });
        assert(actions_view(actions@) =~= a0.push(ActionView::Checkout { name: feature_name(name@) }));
        proof {
            if outcome == CreateOutcome::Created {
                assert(actions_view(actions@) =~= seq![
                    ActionView::InsertBranch { name: feature_name(name@), commit_id: old(self).view()[old(self).current_branch()].0 },
                    ActionView::Checkout { name: feature_name(name@) },
                ]);
            } else {
                assert(actions_view(actions@) =~= seq![ActionView::Checkout { name: feature_name(name@) }]);
            }
        }
        (outcome, actions)
    }

    /// Finishes `branch` into `main` (see [`finished`]).
    fn finish_into_main(
        &mut self,
        branch: &String,
        graph: &Vec<(i64, Option<i64>)>,
        missing: FlowError,
    ) -> (res: Result<Vec<RefAction>, FlowError>)
        ensures
            match res {
                Ok(actions) => {
                    &&& finished(old(self).view(), branch@, graph@, missing) == Ok::<
                        Map<Seq<char>, HeadView>,
                        FlowError,
                    >(final(self).view())
                    &&& actions_view(actions@) == finish_actions(branch@, old(self).view()[branch@].0)
                },
                Err(e) => finished(old(self).view(), branch@, graph@, missing) == Err::<
                    Map<Seq<char>, HeadView>,
                    FlowError,
                >(e) && final(self).view() == old(self).view(),
            },
            final(self).current_branch() == old(self).current_branch(),
    {
        let head = match self.head_of(branch) {
            None => {
                return Err(missing);
            },
            Some(h) => h,
        };
        let main = String::from_str("main");
        let main_head = match self.head_of(&main) {
            None => {
                return Err(FlowError::NoMainBranch);
            },
            Some(h) => h,
        };
        if !ancestor_in(graph, main_head.0, head.0) {
            return Err(FlowError::MainDiverged);
        }
        let id = head.0;
        let ghost before = self.view();
        self.set_head(&main, head);
        self.delete(branch);
        let mut actions: Vec<RefAction> = Vec::new();
        actions.push(RefAction::Checkout { name: branch.clone() });
        actions.push(RefAction::SetHead { name: String::from_str("main"), commit_id: id });
        actions.push(RefAction::Checkout { name: main });
        actions.push(RefAction::DeleteBranch { name: branch.clone() });
        assert(actions_view(actions@) =~= finish_actions(branch@, before[branch@].0));
        Ok(actions)
    }

    /// Finishes feature `name`: fast-forwards `main` to `feature/<name>`,
    /// leaves the working tree on `main`, and deletes the feature branch.
    /// `graph` gives each commit's parent.
    pub fn feature_finish(&mut self, name: &str, graph: &Vec<(i64, Option<i64>)>) -> (res: Result<
        Vec<RefAction>,
        FlowError,
    >)
        ensures
            match res {
                Ok(actions) => {
                    &&& finished(old(self).view(), feature_name(name@), graph@, FlowError::FeatureNotFound)
                        == Ok::<Map<Seq<char>, HeadView>, FlowError>(final(self).view())
                    &&& actions_view(actions@) == finish_actions(
                        feature_name(name@),
                        old(self).view()[feature_name(name@)].0,
                    )
                },
                Err(e) => finished(old(self).view(), feature_name(name@), graph@, FlowError::FeatureNotFound)
                    == Err::<Map<Seq<char>, HeadView>, FlowError>(e) && final(self).view() == old(
                    self,
                ).view(),
            },
            final(self).current_branch() == old(self).current_branch(),
    {
        let branch = crate::text::join_strs("feature/", name);
        self.finish_into_main(&branch, graph, FlowError::FeatureNotFound)
    }

    /// Starts hotfix `name`: creates `hotfix/<name>` at the head of `main`
    /// and switches to it.
    pub fn hotfix_start(&mut self, name: &str) -> (res: Result<Vec<RefAction>, FlowError>)
        ensures
            match res {
                Ok(actions) => {
                    &&& hotfix_started(old(self).view(), name@) == Ok::<Map<Seq<char>, HeadView>, FlowError>(final(self).view())
                    &&& actions_view(actions@) == seq![
                        ActionView::InsertBranch { name: hotfix_name(name@), commit_id: old(self).view()[main_name()].0 },
                        ActionView::Checkout { name: hotfix_name(name@) },
                    ]
                },
                Err(e) => hotfix_started(old(self).view(), name@) == Err::<Map<Seq<char>, HeadView>, FlowError>(e)
                    && final(self).view() == old(self).view(),
            },
            final(self).current_branch() == old(self).current_branch(),
    {
        let branch = crate::text::join_strs("hotfix/", name);
        let main = String::from_str("main");
        match self.head_of(&main) {
            None => Err(FlowError::NoMainBranch),
            Some(head) => {
                if self.has(&branch) {
                    return Err(FlowError::HotfixExists);
                }
                let id = head.0;
                self.push_head(BranchHead { name: branch.clone(), commit_id: head.0, commit_hash: head.1 });
                let mut actions: Vec<RefAction> = Vec::new();
                actions.push(RefAction::InsertBranch { name: branch.clone(), commit_id: id });
                actions.push(RefAction::Checkout { name: branch });
                assert(actions_view(actions@) =~= seq![
                    ActionView::InsertBranch { name: hotfix_name(name@), commit_id: old(self).view()[main_name()].0 },
                    ActionView::Checkout { name: hotfix_name(name@) },
                ]);
                Ok(actions)
            },
        }
    }

    /// Finishes hotfix `name`: fast-forwards `main` to `hotfix/<name>`,
    /// leaves the working tree on `main`, and deletes the hotfix branch.
    /// `graph` gives each commit's parent.
    pub fn hotfix_finish(&mut self, name: &str, graph: &Vec<(i64, Option<i64>)>) -> (res: Result<
        Vec<RefAction>,
        FlowError,
    >)
        ensures
            match res {
                Ok(actions) => {
                    &&& finished(old(self).view(), hotfix_name(name@), graph@, FlowError::HotfixNotFound)
                        == Ok::<Map<Seq<char>, HeadView>, FlowError>(final(self).view())
                    &&& actions_view(actions@) == finish_actions(
                        hotfix_name(name@),
                        old(self).view()[hotfix_name(name@)].0,
                    )
                },
                Err(e) => finished(old(self).view(), hotfix_name(name@), graph@, FlowError::HotfixNotFound)
                    == Err::<Map<Seq<char>, HeadView>, FlowError>(e) && final(self).view() == old(
                    self,
                ).view(),
            },
            final(self).current_branch() == old(self).current_branch(),
    {
        let branch = crate::text::join_strs("hotfix/", name);
        self.finish_into_main(&branch, graph, FlowError::HotfixNotFound)
    }
}

/// Starting a feature and finishing it with no commit in between
/// fast-forwards `main` to the commit the feature started from, when
/// `main`'s head is that commit or one of its ancestors, and leaves no
/// feature branch behind; otherwise the finish is refused and `main` keeps
/// its commits.
pub proof fn lemma_feature_round_trip(
    m: Map<Seq<char>, HeadView>,
    current: Seq<char>,
    name: Seq<char>,
    graph: Seq<(i64, Option<i64>)>,
)
    requires
        m.contains_key(current),
        m.contains_key(main_name()),
        !m.contains_key(feature_name(name)),
    ensures
        created(m, current, feature_name(name)).1 == CreateOutcome::Created,
        finished(created(m, current, feature_name(name)).0, feature_name(name), graph, FlowError::FeatureNotFound)
            == if is_ancestor(graph, m[main_name()].0, m[current].0) {
            Ok::<Map<Seq<char>, HeadView>, FlowError>(m.insert(main_name(), m[current]))
        } else {
            Err::<Map<Seq<char>, HeadView>, FlowError>(FlowError::MainDiverged)
        },
{
    let f = feature_name(name);
    let m1 = created(m, current, f).0;
    reveal_strlit("main");
    reveal_strlit("feature/");
    assert(f[0] == 'f');
    assert(main_name()[0] == 'm');
    assert(f != main_name());
    assert(m1[main_name()] == m[main_name()]);
    assert(m1.insert(main_name(), m1[f]).remove(f) =~= m.insert(main_name(), m[current]));
}

/// Starting a hotfix and finishing it with no commit in between leaves the
/// branches as they were.
pub proof fn lemma_hotfix_round_trip(m: Map<Seq<char>, HeadView>, name: Seq<char>, graph: Seq<(i64, Option<i64>)>)
    requires
        m.contains_key(main_name()),
        !m.contains_key(hotfix_name(name)),
    ensures
        hotfix_started(m, name) is Ok,
        finished(hotfix_started(m, name)->Ok_0, hotfix_name(name), graph, FlowError::HotfixNotFound)
            == Ok::<Map<Seq<char>, HeadView>, FlowError>(m),
{
    let h = hotfix_name(name);
    let m1 = hotfix_started(m, name)->Ok_0;
    reveal_strlit("main");
    reveal_strlit("hotfix/");
    assert(h[0] == 'h');
    assert(main_name()[0] == 'm');
    assert(h != main_name());
    assert(ancestor_at(graph, m[main_name()].0, 0) == Some(m[main_name()].0));
    assert(is_ancestor(graph, m1[main_name()].0, m1[h].0));
    assert(m1.insert(main_name(), m1[h]).remove(h) =~= m);
}

} // verus!
