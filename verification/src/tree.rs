//! The repository tree view: a tree of the paths found under the root,
//! and its rendering, directories first, then by name.

use vstd::prelude::*;
use vstd::string::*;
use crate::sizes::{format_permissions, human_bytes, human_size, permissions};
use crate::text::{pad_right, push_padded};

verus! {

/// The kind of a directory entry.
#[derive(Debug, Clone, Copy, PartialEq, Eq, Structural)]
pub enum EntryKind {
    Dir,
    Symlink,
    File,
    /// The file type could not be determined.
    Unknown,
}

/// What the tree view shows of an entry's metadata.
#[derive(Debug)]
pub struct Metadata {
    /// The Unix mode bits.
    pub mode: u32,
    pub is_dir: bool,
    /// The size in bytes.
    pub len: u64,
    /// The modification time, already formatted.
    pub modified: String,
}

/// A directory entry found by the walk.
#[derive(Debug)]
pub struct EntryInfo {
    pub kind: EntryKind,
    /// The entry's file name as displayed.
    pub file_name: String,
    /// `None` when the metadata could not be read.
    pub metadata: Option<Metadata>,
}

/// A node of the tree: one path component, the entry found there (none for
/// a directory known only through its contents, and for the root), and the
/// nodes below it.
#[derive(Debug)]
pub struct TreeNode {
    /// The path component, or the root's path.
    pub path: String,
    pub entry: Option<EntryInfo>,
    /// The nodes below, with distinct names in a well-formed tree.
    pub children: Vec<TreeNode>,
}

/// Where the child named `name` stands, if any.
pub open spec fn child_index(children: Seq<TreeNode>, name: Seq<char>) -> Option<int>
    decreases children.len(),
{
    if children.len() == 0 {
        None
    } else if children.last().path@ == name {
        Some(children.len() - 1)
    } else {
        child_index(children.drop_last(), name)
    }
}

/// No two children share a name.
pub open spec fn distinct_children(children: Seq<TreeNode>) -> bool {
    forall|i: int, j: int|
        0 <= i < children.len() && 0 <= j < children.len() && i != j ==> #[trigger] children[i].path@
            != #[trigger] children[j].path@
}

/// The node reached from `node` by following the component names of `path`:
/// `Some` of its entry when there is one, `None` when the path leads nowhere.
pub open spec fn lookup(node: TreeNode, path: Seq<Seq<char>>) -> Option<Option<EntryInfo>>
    decreases path.len(),
{
    if path.len() == 0 {
        Some(node.entry)
    } else {
        match child_index(node.children@, path[0]) {
            None => None,
            Some(i) => lookup(node.children@[i], path.drop_first()),
        }
    }
}

/// `q` is a non-empty proper prefix of `p`.
pub open spec fn proper_prefix(q: Seq<Seq<char>>, p: Seq<Seq<char>>) -> bool {
    0 < q.len() < p.len() && q == p.subrange(0, q.len() as int)
}

/// The tree after recording `entry` at `path` (a non-empty path): the
/// nodes on the way that did not exist appear without entries.
pub open spec fn added(node: TreeNode, path: Seq<Seq<char>>, entry: EntryInfo, q: Seq<Seq<char>>) -> Option<Option<EntryInfo>> {
    if q == path {
        Some(Some(entry))
    } else if proper_prefix(q, path) && lookup(node, q) is None {
        Some(None)
    } else {
        lookup(node, q)
    }
}

proof fn lemma_child_index(children: Seq<TreeNode>, name: Seq<char>)
    requires
        distinct_children(children),
    ensures
        match child_index(children, name) {
            Some(i) => 0 <= i < children.len() && children[i].path@ == name,
            None => forall|j: int| 0 <= j < children.len() ==> #[trigger] children[j].path@ != name,
        },
        forall|j: int| 0 <= j < children.len() && #[trigger] children[j].path@ == name ==> child_index(children, name) == Some(j),
    decreases children.len(),
{
    if children.len() > 0 {
        let rest = children.drop_last();
        assert(distinct_children(rest));
        lemma_child_index(rest, name);
        assert forall|j: int| 0 <= j < children.len() && #[trigger] children[j].path@ == name implies child_index(children, name) == Some(j) by {
            if j < children.len() - 1 {
                assert(rest[j] == children[j]);
                assert(children.last().path@ != name);
            }
        }
        if child_index(children, name) is None {
            assert forall|j: int| 0 <= j < children.len() implies #[trigger] children[j].path@ != name by {
                if j < children.len() - 1 {
                    assert(rest[j] == children[j]);
                }
            }
        }
    }
}

impl TreeNode {
    /// The name of the node's path component.
    pub open spec fn name(&self) -> Seq<char> {
        self.path@
    }

    /// Every node's children have distinct names.
    pub open spec fn well_formed(&self) -> bool
        decreases self,
    {
        &&& distinct_children(self.children@)
        &&& forall|i: int| 0 <= i < self.children@.len() ==> (#[trigger] self.children@[i]).well_formed()
    }

    /// A node without children.
    pub fn new(path: String, entry: Option<EntryInfo>) -> (res: Self)
        ensures
            res.well_formed(),
            res.name() == path@,
            lookup(res, Seq::empty()) == Some(entry),
            forall|q: Seq<Seq<char>>| q.len() > 0 ==> lookup(res, q) is None,
    {
        let res = TreeNode { path, entry, children: Vec::new() };
        assert(res.children@ =~= Seq::<TreeNode>::empty());
        res
    }

    fn find_child(&self, name: &String) -> (res: Option<usize>)
        requires
            distinct_children(self.children@),
        ensures
            res matches Some(i) ==> i < self.children@.len() && child_index(self.children@, name@) == Some(i as int),
            res is None ==> child_index(self.children@, name@) is None,
    {
        proof {
            lemma_child_index(self.children@, name@);
        }
        let mut i: usize = 0;
        while i < self.children.len()
            invariant
                i <= self.children@.len(),
                forall|j: int| 0 <= j < i ==> #[trigger] self.children@[j].path@ != name@,
                distinct_children(self.children@),
            decreases self.children@.len() - i,
        {
            if self.children[i].path == *name {
                proof {
                    lemma_child_index(self.children@, name@);
                }
                return Some(i);
            }
            i = i + 1;
        }
        None
    }

    /// The components of a path, as names.
    pub open spec fn path_view(comps: Seq<String>) -> Seq<Seq<char>> {
        comps.map_values(|c: String| c@)
    }

    fn add_from(&mut self, comps: &Vec<String>, start: usize, entry: EntryInfo)
        requires
            old(self).well_formed(),
            start < comps@.len(),
        ensures
            final(self).well_formed(),
            final(self).name() == old(self).name(),
            forall|q: Seq<Seq<char>>|
                #[trigger] lookup(*final(self), q) == added(
                    *old(self),
                    Self::path_view(comps@).subrange(start as int, comps@.len() as int),
                    entry,
                    q,
                ),
        decreases comps@.len() - start,
    {
        let ghost o = *old(self);
        let ghost path = Self::path_view(comps@).subrange(start as int, comps@.len() as int);
        let ghost c0 = self.children@;
        let first = &comps[start];
        assert(path[0] == first@);
        let ghost mut fresh: Option<TreeNode> = None;
        let idx = match self.find_child(first) {
            Some(i) => i,
            None => {
                proof {
                    lemma_child_index(c0, first@);
                }
                let node = TreeNode::new(first.clone(), None);
                proof {
                    fresh = Some(node);
                }
                self.children.push(node);
                self.children.len() - 1
            },
        };
        let ghost c1 = self.children@;
        let ghost existed = c1.len() == c0.len();
        proof {
            assert(distinct_children(c1));
            lemma_child_index(c1, first@);
            assert(c1[idx as int].path@ == first@);
            assert forall|i: int| 0 <= i < c1.len() implies (#[trigger] c1[i]).well_formed() by {
                if i < c0.len() {
                    assert(c1[i] == c0[i]);
                }
            }
            assert forall|n: Seq<char>| n != first@ implies #[trigger] child_index(c1, n) == child_index(c0, n) by {
                lemma_child_index(c0, n);
                lemma_child_index(c1, n);
                if let Some(j) = child_index(c0, n) {
                    assert(c1[j] == c0[j]);
                }
                if let Some(j) = child_index(c1, n) {
                    if j < c0.len() {
                        assert(c1[j] == c0[j]);
                    }
                }
            }
        }
        let mut child = self.children.remove(idx);
        let ghost child_old = child;
        assert(child_old == c1[idx as int]);
        if start == comps.len() - 1 {
            child.entry = Some(entry);
        } else {
            child.add_from(comps, start + 1, entry);
        }
        let ghost child_new = child;
        self.children.insert(idx, child);
        assert(self.children@ =~= c1.update(idx as int, child_new));
        proof {
            let c2 = self.children@;
            assert(distinct_children(c2)) by {
                assert forall|i: int, j: int|
                    0 <= i < c2.len() && 0 <= j < c2.len() && i != j implies #[trigger] c2[i].path@ != #[trigger] c2[j].path@ by {
                    assert(c2[i].path@ == c1[i].path@);
                    assert(c2[j].path@ == c1[j].path@);
                }
            }
            assert forall|i: int| 0 <= i < c2.len() implies (#[trigger] c2[i]).well_formed() by {
                if i != idx {
                    assert(c2[i] == c1[i]);
                }
            }
            lemma_child_index(c2, first@);
            assert forall|n: Seq<char>| n != first@ implies #[trigger] child_index(c2, n) == child_index(c1, n) by {
                lemma_child_index(c1, n);
                lemma_child_index(c2, n);
                if let Some(j) = child_index(c1, n) {
                    assert(c2[j].path@ == c1[j].path@);
                }
                if let Some(j) = child_index(c2, n) {
                    assert(c2[j].path@ == c1[j].path@);
                }
            }
            let rest = path.drop_first();
            if !existed {
                assert(fresh == Some(child_old));
                assert(lookup(child_old, Seq::empty()) == Some(None::<EntryInfo>));
            }
            assert(c2[idx as int].path@ == first@);
            assert forall|q: Seq<Seq<char>>|
                #[trigger] lookup(*self, q) == added(o, path, entry, q) by {
                if q.len() > 0 {
                    if q[0] != first@ {
                        assert(q != path);
                        assert(!proper_prefix(q, path));
                        lemma_child_index(c0, q[0]);
                        if let Some(j) = child_index(c0, q[0]) {
                            assert(c1[j] == c0[j]);
                            assert(j != idx);
                            assert(c2[j] == c0[j]);
                        }
                    } else {
                        let r = q.drop_first();
                        assert(lookup(*self, q) == lookup(child_new, r));
                        if existed {
                            assert(child_index(c0, first@) == Some(idx as int));
                            assert(c0[idx as int] == child_old);
                            assert(lookup(o, q) == lookup(child_old, r));
                        } else {
                            assert(child_index(c0, first@) is None);
                            assert(lookup(o, q) is None);
                        }
                        assert((q == path) == (r == rest)) by {
                            if r == rest {
                                assert forall|i: int| 0 <= i < q.len() implies q[i] == path[i] by {
                                    if i > 0 {
                                        assert(q[i] == r[i - 1]);
                                        assert(path[i] == rest[i - 1]);
                                    }
                                }
                                assert(q =~= path);
                            }
                        }
                        if start + 1 == comps@.len() {
                            assert(path.len() == 1);
                            assert(!proper_prefix(q, path));
                            if r.len() == 0 {
                                assert(q.len() == 1);
                                assert(q[0] == path[0]);
                                assert(q =~= path);
                            }
                        } else {
                            assert(rest =~= Self::path_view(comps@).subrange(start + 1, comps@.len() as int));
                            assert(lookup(child_new, r) == added(child_old, rest, entry, r));
                            if r.len() == 0 {
                                assert(proper_prefix(q, path)) by {
                                    assert(q =~= path.subrange(0, 1));
                                }
                            } else {
                                assert(proper_prefix(q, path) == proper_prefix(r, rest)) by {
                                    if proper_prefix(q, path) {
                                        assert(r =~= rest.subrange(0, r.len() as int));
                                    }
                                    if proper_prefix(r, rest) {
                                        assert forall|i: int| 0 <= i < q.len() implies q[i] == path.subrange(0, q.len() as int)[i] by {
                                            if i > 0 {
                                                assert(q[i] == r[i - 1]);
                                                assert(r[i - 1] == rest.subrange(0, r.len() as int)[i - 1]);
                                            }
                                        }
                                        assert(q =~= path.subrange(0, q.len() as int));
                                    }
                                }
                            }
                        }
                    }
                }
            }
        }
    }

    /// Records `entry` at the path given by `components` (below this node),
    /// creating the intermediate nodes that do not exist yet without entries.
    /// An empty path records nothing.
    pub fn add_child(&mut self, components: &Vec<String>, entry: EntryInfo)
        requires
            old(self).well_formed(),
        ensures
            final(self).well_formed(),
            final(self).name() == old(self).name(),
            components@.len() == 0 ==> forall|q: Seq<Seq<char>>| #[trigger] lookup(*final(self), q) == lookup(*old(self), q),
            components@.len() > 0 ==> forall|q: Seq<Seq<char>>|
                #[trigger] lookup(*final(self), q) == added(*old(self), Self::path_view(components@), entry, q),
    {
        if components.len() > 0 {
            self.add_from(components, 0, entry);
            assert(Self::path_view(components@).subrange(0, components@.len() as int) =~= Self::path_view(components@));
        }
    }
}


/// Strict lexicographic order of names, character by character.
pub open spec fn name_lt(a: Seq<char>, b: Seq<char>) -> bool
    decreases a.len(),
{
    if b.len() == 0 {
        false
    } else if a.len() == 0 {
        true
    } else if a[0] != b[0] {
        (a[0] as u32) < (b[0] as u32)
    } else {
        name_lt(a.drop_first(), b.drop_first())
    }
}

/// Whether a node's entry is a directory.
pub open spec fn is_dir_node(n: TreeNode) -> bool {
    match n.entry {
        Some(e) => e.kind == EntryKind::Dir,
        None => false,
    }
}

/// The display order of siblings: directories before other entries, and
/// by name within each group.
pub open spec fn shown_before(a: TreeNode, b: TreeNode) -> bool {
    if is_dir_node(a) != is_dir_node(b) {
        is_dir_node(a)
    } else {
        name_lt(a.path@, b.path@)
    }
}

/// Inserts index `j` into `order` before the first index it is shown before.
pub open spec fn insert_by(order: Seq<int>, children: Seq<TreeNode>, j: int) -> Seq<int>
    decreases order.len(),
{
    if order.len() == 0 {
        seq![j]
    } else if shown_before(children[j], children[order[0]]) {
        seq![j] + order
    } else {
        seq![order[0]] + insert_by(order.drop_first(), children, j)
    }
}

/// The order in which the first `n` children are shown (indices).
pub open spec fn display_order(children: Seq<TreeNode>, n: nat) -> Seq<int>
    decreases n,
{
    if n == 0 {
        Seq::empty()
    } else {
        insert_by(display_order(children, (n - 1) as nat), children, n - 1)
    }
}

fn name_less(a: &String, b: &String) -> (res: bool)
    ensures
        res == name_lt(a@, b@),
{
    let la = a.as_str().unicode_len();
    let lb = b.as_str().unicode_len();
    let mut i: usize = 0;
    assert(a@.subrange(0, la as int) =~= a@);
    assert(b@.subrange(0, lb as int) =~= b@);
    while i < la && i < lb
        invariant
            la == a@.len(),
            lb == b@.len(),
            i <= la,
            i <= lb,
            a@.subrange(0, i as int) == b@.subrange(0, i as int),
            name_lt(a@, b@) == name_lt(a@.subrange(i as int, la as int), b@.subrange(i as int, lb as int)),
        decreases la - i,
    {
        let ca = a.as_str().get_char(i);
        let cb = b.as_str().get_char(i);
        let ghost ra = a@.subrange(i as int, la as int);
        let ghost rb = b@.subrange(i as int, lb as int);
        assert(ra[0] == ca && rb[0] == cb);
        if ca != cb {
            return (ca as u32) < (cb as u32);
        }
        assert(ra.drop_first() =~= a@.subrange(i + 1, la as int));
        assert(rb.drop_first() =~= b@.subrange(i + 1, lb as int));
        i = i + 1;
        assert(a@.subrange(0, i as int) =~= a@.subrange(0, i - 1).push(ca));
        assert(b@.subrange(0, i as int) =~= b@.subrange(0, i - 1).push(cb));
    }
    i < lb
}

impl TreeNode {
    fn is_dir(&self) -> (b: bool)
        ensures
            b == is_dir_node(*self),
    {
        match &self.entry {
            Some(e) => match e.kind {
                EntryKind::Dir => true,
                _ => false,
            },
            None => false,
        }
    }

    fn before(a: &TreeNode, b: &TreeNode) -> (res: bool)
        ensures
            res == shown_before(*a, *b),
    {
        let da = a.is_dir();
        let db = b.is_dir();
        if da != db {
            da
        } else {
            name_less(&a.path, &b.path)
        }
    }
}

proof fn lemma_insert_at(order: Seq<int>, children: Seq<TreeNode>, j: int, p: int)
    requires
        0 <= p <= order.len(),
        forall|q: int| 0 <= q < p ==> !shown_before(children[j], #[trigger] children[order[q]]),
        p < order.len() ==> shown_before(children[j], children[order[p]]),
    ensures
        insert_by(order, children, j) == order.subrange(0, p).push(j) + order.subrange(p, order.len() as int),
    decreases order.len(),
{
    if order.len() == 0 {
        assert(order.subrange(0, p).push(j) + order.subrange(p, order.len() as int) =~= seq![j]);
    } else if p == 0 {
        assert(order.subrange(0, p).push(j) + order.subrange(p, order.len() as int) =~= seq![j] + order);
    } else {
        let rest = order.drop_first();
        assert forall|q: int| 0 <= q < p - 1 implies !shown_before(children[j], #[trigger] children[rest[q]]) by {
            assert(rest[q] == order[q + 1]);
        }
        assert(!shown_before(children[j], children[order[0]]));
        lemma_insert_at(rest, children, j, p - 1);
        assert(seq![order[0]] + (rest.subrange(0, p - 1).push(j) + rest.subrange(p - 1, rest.len() as int))
            =~= order.subrange(0, p).push(j) + order.subrange(p, order.len() as int));
    }
}

impl TreeNode {
    /// The indices of the children in display order.
    fn sorted_children(&self) -> (res: Vec<usize>)
        ensures
            res@.map_values(|i: usize| i as int) == display_order(self.children@, self.children@.len()),
            forall|k: int| 0 <= k < res@.len() ==> #[trigger] res@[k] < self.children@.len(),
    {
        let n = self.children.len();
        let mut order: Vec<usize> = Vec::new();
        let mut j: usize = 0;
        while j < n
            invariant
                j <= n,
                n == self.children@.len(),
                order@.len() == j,
                order@.map_values(|i: usize| i as int) == display_order(self.children@, j as nat),
                forall|k: int| 0 <= k < order@.len() ==> #[trigger] order@[k] < j,
            decreases n - j,
        {
            let ghost ov = order@.map_values(|i: usize| i as int);
            let mut p: usize = 0;
            while p < order.len() && !TreeNode::before(&self.children[j], &self.children[order[p]])
                invariant
                    p <= order@.len(),
                    j < n,
                    n == self.children@.len(),
                    ov == order@.map_values(|i: usize| i as int),
                    forall|k: int| 0 <= k < order@.len() ==> #[trigger] order@[k] < j,
                    forall|q: int| 0 <= q < p ==> !shown_before(self.children@[j as int], #[trigger] self.children@[ov[q]]),
                decreases order@.len() - p,
            {
                p = p + 1;
            }
            proof {
                lemma_insert_at(ov, self.children@, j as int, p as int);
            }
            order.insert(p, j);
            assert(order@.map_values(|i: usize| i as int) =~= ov.subrange(0, p as int).push(j as int) + ov.subrange(p as int, ov.len() as int));
            j = j + 1;
            assert forall|k: int| 0 <= k < order@.len() implies #[trigger] order@[k] < j by {
                if k < p {
                    assert(order@[k] as int == ov[k]);
                }
            }
        }
        order
    }
}


/// The type column: `D`, `L`, `F`, or `?` when the type is unknown.
pub open spec fn type_column(kind: EntryKind) -> Seq<char> {
    match kind {
        EntryKind::Dir => "D"@,
        EntryKind::Symlink => "L"@,
        EntryKind::File => "F"@,
        EntryKind::Unknown => "?"@,
    }
}

/// The mode, size and date columns of an entry's metadata.
pub open spec fn metadata_columns(meta: Option<Metadata>) -> (Seq<char>, Seq<char>, Seq<char>) {
    match meta {
        Some(m) => (
            permissions(m.mode as nat),
            if m.is_dir { "-"@ } else { human_size(m.len as nat) },
            m.modified@,
        ),
        None => ("????"@, "?"@, "?"@),
    }
}

/// The line of an entry: type, mode, size and date columns, then the tree
/// drawing and the entry's name.
pub open spec fn entry_line(e: EntryInfo, prefix: Seq<char>, is_last: bool) -> Seq<char> {
    let cols = metadata_columns(e.metadata);
    pad_right(type_column(e.kind), 4) + " "@ + pad_right(cols.0, 12) + " "@ + pad_right(cols.1, 12) + " "@
        + pad_right(cols.2, 20) + " "@ + prefix + (if is_last { "└──"@ } else { "├──"@ }) + " "@
        + e.file_name@
}

/// The prefix of the lines below a node.
pub open spec fn child_prefix(node: TreeNode, prefix: Seq<char>, is_last: bool) -> Seq<char> {
    if node.entry is None {
        Seq::empty()
    } else if is_last {
        prefix + "    "@
    } else {
        prefix + "│   "@
    }
}

/// The lines that show `node` and everything below it.
pub open spec fn rendered(node: TreeNode, prefix: Seq<char>, is_last: bool) -> Seq<Seq<char>>
    decreases node, 1int, 0int,
{
    let own = match node.entry {
        Some(e) => seq![entry_line(e, prefix, is_last)],
        None => Seq::empty(),
    };
    own + rendered_children(
        node,
        display_order(node.children@, node.children@.len()),
        child_prefix(node, prefix, is_last),
        0,
    )
}

/// The lines of the children of `node` listed in `order` from position `k`.
pub open spec fn rendered_children(node: TreeNode, order: Seq<int>, prefix: Seq<char>, k: int) -> Seq<
    Seq<char>,
>
    decreases node, 0int, order.len() - k,
{
    if k < 0 || k >= order.len() {
        Seq::empty()
    } else if 0 <= order[k] < node.children@.len() {
        rendered(node.children@[order[k]], prefix, k == order.len() - 1) + rendered_children(
            node,
            order,
            prefix,
            k + 1,
        )
    } else {
        Seq::empty()
    }
}

pub open spec fn lines_view(lines: Seq<String>) -> Seq<Seq<char>> {
    lines.map_values(|l: String| l@)
}

/// Renders an entry's line.
pub fn render_entry(e: &EntryInfo, prefix: &String, is_last: bool) -> (res: String)
    ensures
        res@ == entry_line(*e, prefix@, is_last),
{
    let (mode, size, date) = match &e.metadata {
        Some(m) => (
            format_permissions(m.mode),
            if m.is_dir { String::from_str("-") } else { human_bytes(m.len) },
            m.modified.clone(),
        ),
        None => (String::from_str("????"), String::from_str("?"), String::from_str("?")),
    };
    let kind = match e.kind {
        EntryKind::Dir => "D",
        EntryKind::Symlink => "L",
        EntryKind::File => "F",
        EntryKind::Unknown => "?",
    };
    let mut line = String::new();
    push_padded(&mut line, kind, 4);
    line.append(" ");
    push_padded(&mut line, mode.as_str(), 12);
    line.append(" ");
    push_padded(&mut line, size.as_str(), 12);
    line.append(" ");
    push_padded(&mut line, date.as_str(), 20);
    line.append(" ");
    line.append(prefix.as_str());
    line.append(if is_last { "└──" } else { "├──" });
    line.append(" ");
    line.append(e.file_name.as_str());
    assert(line@ =~= entry_line(*e, prefix@, is_last));
    line
}

impl TreeNode {
    /// Appends the lines that show this node and everything below it.
    pub fn render(&self, prefix: &String, is_last: bool, out: &mut Vec<String>)
        ensures
            lines_view(final(out)@) == lines_view(old(out)@) + rendered(*self, prefix@, is_last),
        decreases *self, 1int, 0int,
    {
        let ghost start = lines_view(out@);
        match &self.entry {
            Some(e) => {
                out.push(render_entry(e, prefix, is_last));
            },
            None => {},
        }
        let ghost own = match &self.entry {
            Some(e) => seq![entry_line(*e, prefix@, is_last)],
            None => Seq::<Seq<char>>::empty(),
        };
        assert(lines_view(out@) =~= start + own);
        let below: String = match &self.entry {
            None => String::new(),
            Some(_) => {
                let mut p = prefix.clone();
                p.append(if is_last { "    " } else { "│   " });
                p
            },
        };
        assert(below@ =~= child_prefix(*self, prefix@, is_last));
        let order = self.sorted_children();
        self.render_children(&order, &below, 0, out);
        assert(lines_view(out@) =~= start + rendered(*self, prefix@, is_last));
    }

    fn render_children(&self, order: &Vec<usize>, prefix: &String, k: usize, out: &mut Vec<String>)
        requires
            k <= order@.len(),
            forall|i: int| 0 <= i < order@.len() ==> #[trigger] order@[i] < self.children@.len(),
        ensures
            lines_view(final(out)@) == lines_view(old(out)@) + rendered_children(
                *self,
                order@.map_values(|i: usize| i as int),
                prefix@,
                k as int,
            ),
        decreases *self, 0int, order@.len() - k,
    {
        let ghost ov = order@.map_values(|i: usize| i as int);
        if k == order.len() {
            assert(lines_view(out@) =~= lines_view(old(out)@) + rendered_children(*self, ov, prefix@, k as int));
            return;
        }
        let idx = order[k];
        assert(ov[k as int] == idx as int);
        let last = k == order.len() - 1;
        self.children[idx].render(prefix, last, out);
        self.render_children(order, prefix, k + 1, out);
        assert(lines_view(out@) =~= lines_view(old(out)@) + rendered_children(*self, ov, prefix@, k as int));
    }
}


/// The name order is the standard lexicographic order: `a` comes before
/// `b` exactly when `a` is a proper prefix of `b`, or when at the first
/// position where they differ `a` has the smaller character.
pub proof fn lemma_name_lt_lexicographic(a: Seq<char>, b: Seq<char>)
    ensures
        name_lt(a, b) <==> (a.len() < b.len() && a == b.subrange(0, a.len() as int)) || exists|i: int|
            0 <= i < a.len() && i < b.len() && a.subrange(0, i) == b.subrange(0, i) && (#[trigger] a[i]
                as u32) < (b[i] as u32),
    decreases a.len(),
{
    let diff = exists|i: int|
        0 <= i < a.len() && i < b.len() && a.subrange(0, i) == b.subrange(0, i) && (#[trigger] a[i]
            as u32) < (b[i] as u32);
    if b.len() == 0 {
    } else if a.len() == 0 {
        assert(a =~= b.subrange(0, 0));
    } else if a[0] != b[0] {
        if a.len() < b.len() && a == b.subrange(0, a.len() as int) {
            assert(a[0] == b.subrange(0, a.len() as int)[0]);
        }
        if (a[0] as u32) < (b[0] as u32) {
            assert(a.subrange(0, 0) =~= b.subrange(0, 0));
            assert(diff);
        }
        if diff {
            let i = choose|i: int|
                0 <= i < a.len() && i < b.len() && a.subrange(0, i) == b.subrange(0, i) && (#[trigger] a[i]
                    as u32) < (b[i] as u32);
            if i > 0 {
                assert(a.subrange(0, i)[0] == b.subrange(0, i)[0]);
            }
        }
    } else {
        let a1 = a.drop_first();
        let b1 = b.drop_first();
        lemma_name_lt_lexicographic(a1, b1);
        let diff1 = exists|i: int|
            0 <= i < a1.len() && i < b1.len() && a1.subrange(0, i) == b1.subrange(0, i) && (#[trigger] a1[i]
                as u32) < (b1[i] as u32);
        assert((a1.len() < b1.len() && a1 == b1.subrange(0, a1.len() as int)) <==> (a.len() < b.len() && a
            == b.subrange(0, a.len() as int))) by {
            if a1.len() < b1.len() && a1 == b1.subrange(0, a1.len() as int) {
                assert forall|j: int| 0 <= j < a.len() implies #[trigger] a[j] == b.subrange(0, a.len() as int)[j] by {
                    if j > 0 {
                        assert(a[j] == a1[j - 1]);
                        assert(b1.subrange(0, a1.len() as int)[j - 1] == b[j]);
                    }
                }
                assert(a =~= b.subrange(0, a.len() as int));
            }
            if a.len() < b.len() && a == b.subrange(0, a.len() as int) {
                assert forall|j: int| 0 <= j < a1.len() implies #[trigger] a1[j] == b1.subrange(0, a1.len() as int)[j] by {
                    assert(a[j + 1] == b.subrange(0, a.len() as int)[j + 1]);
                }
                assert(a1 =~= b1.subrange(0, a1.len() as int));
            }
        }
        if diff1 {
            let i = choose|i: int|
                0 <= i < a1.len() && i < b1.len() && a1.subrange(0, i) == b1.subrange(0, i) && (#[trigger] a1[i]
                    as u32) < (b1[i] as u32);
            assert forall|j: int| 0 <= j < i + 1 implies #[trigger] a.subrange(0, i + 1)[j] == b.subrange(0, i + 1)[j] by {
                if j > 0 {
                    assert(a1.subrange(0, i)[j - 1] == b1.subrange(0, i)[j - 1]);
                }
            }
            assert(a.subrange(0, i + 1) =~= b.subrange(0, i + 1));
            assert(a[i + 1] == a1[i]);
            assert(diff);
        }
        if diff {
            let i = choose|i: int|
                0 <= i < a.len() && i < b.len() && a.subrange(0, i) == b.subrange(0, i) && (#[trigger] a[i]
                    as u32) < (b[i] as u32);
            assert(i != 0);
            assert forall|j: int| 0 <= j < i - 1 implies #[trigger] a1.subrange(0, i - 1)[j] == b1.subrange(0, i - 1)[j] by {
                assert(a.subrange(0, i)[j + 1] == b.subrange(0, i)[j + 1]);
            }
            assert(a1.subrange(0, i - 1) =~= b1.subrange(0, i - 1));
            assert(a1[i - 1] == a[i]);
            assert(diff1);
        }
    }
}

/// Every node of the tree, from `node` down, has an entry.
pub open spec fn has_entries(node: TreeNode) -> bool
    decreases node,
{
    &&& node.entry is Some
    &&& forall|i: int| 0 <= i < node.children@.len() ==> has_entries(#[trigger] node.children@[i])
}

/// `e` is the entry of `node` or of a node below it.
pub open spec fn holds_entry(node: TreeNode, e: EntryInfo) -> bool
    decreases node,
{
    ||| node.entry == Some(e)
    ||| exists|i: int| 0 <= i < node.children@.len() && holds_entry(#[trigger] node.children@[i], e)
}

/// `line` is the line of an entry of the tree `root` whose tree drawing
/// starts with `p`.
pub open spec fn drawn_line(line: Seq<char>, p: Seq<char>, root: TreeNode) -> bool {
    exists|e: EntryInfo, s: Seq<char>, l: bool|
        holds_entry(root, e) && #[trigger] entry_line(e, p + s, l) == line
}

/// Every line of `lines` is the line of an entry of `root` whose tree
/// drawing starts with `p`.
pub open spec fn drawn_under(lines: Seq<Seq<char>>, p: Seq<char>, root: TreeNode) -> bool {
    forall|i: int| 0 <= i < lines.len() ==> drawn_line(#[trigger] lines[i], p, root)
}

/// How a node's drawing continues below it: blank under the last child of
/// its parent, a vertical bar otherwise.
pub open spec fn drawing_step(is_last: bool) -> Seq<char> {
    if is_last {
        "    "@
    } else {
        "│   "@
    }
}

/// In a tree whose nodes all have entries, a node's first line is its own,
/// drawn with `prefix`, and every line below it is the line of one of its
/// descendants drawn with `prefix` extended by one step: the drawing of a
/// line lists the steps of its ancestors from the root down.
pub proof fn lemma_render_draws_under_prefix(node: TreeNode, prefix: Seq<char>, is_last: bool)
    requires
        has_entries(node),
    ensures
        rendered(node, prefix, is_last).len() > 0,
        rendered(node, prefix, is_last)[0] == entry_line(node.entry->0, prefix, is_last),
        drawn_under(rendered(node, prefix, is_last).drop_first(), prefix + drawing_step(is_last), node),
        drawn_under(rendered(node, prefix, is_last), prefix, node),
{
    lemma_rendered_under(node, prefix, is_last);
}

proof fn lemma_drawn_under_concat(a: Seq<Seq<char>>, b: Seq<Seq<char>>, p: Seq<char>, root: TreeNode)
    requires
        drawn_under(a, p, root),
        drawn_under(b, p, root),
    ensures
        drawn_under(a + b, p, root),
{
    assert forall|i: int| 0 <= i < (a + b).len() implies drawn_line(#[trigger] (a + b)[i], p, root) by {
        if i < a.len() {
            assert((a + b)[i] == a[i]);
        } else {
            assert((a + b)[i] == b[i - a.len()]);
        }
    }
}

proof fn lemma_drawn_under_shorter(lines: Seq<Seq<char>>, p: Seq<char>, q: Seq<char>, root: TreeNode)
    requires
        drawn_under(lines, p + q, root),
    ensures
        drawn_under(lines, p, root),
{
    assert forall|i: int| 0 <= i < lines.len() implies drawn_line(#[trigger] lines[i], p, root) by {
        assert(drawn_line(lines[i], p + q, root));
        let (e, s, l) = choose|e: EntryInfo, s: Seq<char>, l: bool|
            holds_entry(root, e) && #[trigger] entry_line(e, (p + q) + s, l) == lines[i];
        assert((p + q) + s =~= p + (q + s));
        assert(entry_line(e, p + (q + s), l) == lines[i]);
    }
}

proof fn lemma_drawn_under_parent(lines: Seq<Seq<char>>, p: Seq<char>, node: TreeNode, k: int)
    requires
        0 <= k < node.children@.len(),
        drawn_under(lines, p, node.children@[k]),
    ensures
        drawn_under(lines, p, node),
{
    assert forall|i: int| 0 <= i < lines.len() implies drawn_line(#[trigger] lines[i], p, node) by {
        assert(drawn_line(lines[i], p, node.children@[k]));
        let (e, s, l) = choose|e: EntryInfo, s: Seq<char>, l: bool|
            holds_entry(node.children@[k], e) && #[trigger] entry_line(e, p + s, l) == lines[i];
        assert(holds_entry(node, e));
    }
}

proof fn lemma_rendered_under(node: TreeNode, prefix: Seq<char>, is_last: bool)
    requires
        has_entries(node),
    ensures
        rendered(node, prefix, is_last).len() > 0,
        rendered(node, prefix, is_last)[0] == entry_line(node.entry->0, prefix, is_last),
        drawn_under(rendered(node, prefix, is_last).drop_first(), prefix + drawing_step(is_last), node),
        drawn_under(rendered(node, prefix, is_last), prefix, node),
    decreases node, 1int, 0int,
{
    let e = node.entry->0;
    let cp = prefix + drawing_step(is_last);
    assert(child_prefix(node, prefix, is_last) == cp);
    let order = display_order(node.children@, node.children@.len());
    let below = rendered_children(node, order, cp, 0);
    lemma_children_under(node, order, cp, 0);
    let all = rendered(node, prefix, is_last);
    assert(all == seq![entry_line(e, prefix, is_last)] + below);
    assert(all.drop_first() =~= below);
    lemma_drawn_under_shorter(below, prefix, drawing_step(is_last), node);
    let own = seq![entry_line(e, prefix, is_last)];
    assert(drawn_under(own, prefix, node)) by {
        assert(prefix + Seq::<char>::empty() =~= prefix);
        assert(holds_entry(node, e));
        assert(entry_line(e, prefix + Seq::<char>::empty(), is_last) == own[0]);
        assert(drawn_line(own[0], prefix, node));
    }
    lemma_drawn_under_concat(own, below, prefix, node);
}

proof fn lemma_children_under(node: TreeNode, order: Seq<int>, p: Seq<char>, k: int)
    requires
        has_entries(node),
    ensures
        drawn_under(rendered_children(node, order, p, k), p, node),
    decreases node, 0int, order.len() - k,
{
    if k < 0 || k >= order.len() {
    } else if 0 <= order[k] < node.children@.len() {
        let child = node.children@[order[k]];
        assert(has_entries(child));
        lemma_rendered_under(child, p, k == order.len() - 1);
        lemma_drawn_under_parent(rendered(child, p, k == order.len() - 1), p, node, order[k]);
        lemma_children_under(node, order, p, k + 1);
        lemma_drawn_under_concat(
            rendered(child, p, k == order.len() - 1),
            rendered_children(node, order, p, k + 1),
            p,
            node,
        );
    }
}

proof fn lemma_name_lt_irreflexive(a: Seq<char>)
    ensures
        !name_lt(a, a),
    decreases a.len(),
{
    if a.len() > 0 {
        lemma_name_lt_irreflexive(a.drop_first());
    }
}

proof fn lemma_name_lt_total(a: Seq<char>, b: Seq<char>)
    ensures
        a != b ==> (name_lt(a, b) || name_lt(b, a)),
        !(name_lt(a, b) && name_lt(b, a)),
    decreases a.len(),
{
    if a.len() > 0 && b.len() > 0 && a[0] == b[0] {
        lemma_name_lt_total(a.drop_first(), b.drop_first());
        if a != b {
            assert(a.drop_first() != b.drop_first()) by {
                if a.drop_first() == b.drop_first() {
                    assert(a.len() == b.len());
                    assert forall|i: int| 0 <= i < a.len() implies a[i] == b[i] by {
                        if i > 0 {
                            assert(a[i] == a.drop_first()[i - 1]);
                            assert(b[i] == b.drop_first()[i - 1]);
                        }
                    }
                    assert(a =~= b);
                }
            }
        }
    } else if a.len() == 0 && b.len() == 0 {
        assert(a =~= b);
    } else if a.len() > 0 && b.len() > 0 {
        vstd::utf8::char_u32_cast(a[0], a[0] as u32);
        vstd::utf8::char_u32_cast(b[0], b[0] as u32);
        assert((a[0] as u32) != (b[0] as u32));
    }
}

proof fn lemma_name_lt_transitive(a: Seq<char>, b: Seq<char>, c: Seq<char>)
    requires
        name_lt(a, b),
        name_lt(b, c),
    ensures
        name_lt(a, c),
    decreases a.len(),
{
    if a.len() > 0 && b.len() > 0 && c.len() > 0 && a[0] == b[0] && b[0] == c[0] {
        lemma_name_lt_transitive(a.drop_first(), b.drop_first(), c.drop_first());
    }
}

proof fn lemma_shown_before_order(a: TreeNode, b: TreeNode, c: TreeNode)
    ensures
        !shown_before(a, a),
        a.path@ != b.path@ ==> (shown_before(a, b) || shown_before(b, a)),
        !(shown_before(a, b) && shown_before(b, a)),
        shown_before(a, b) && shown_before(b, c) ==> shown_before(a, c),
{
    lemma_name_lt_irreflexive(a.path@);
    lemma_name_lt_total(a.path@, b.path@);
    if shown_before(a, b) && shown_before(b, c) && is_dir_node(a) == is_dir_node(b) && is_dir_node(b) == is_dir_node(c) {
        lemma_name_lt_transitive(a.path@, b.path@, c.path@);
    }
}

/// No element of `order` is shown before an element that precedes it.
pub open spec fn in_display_order(order: Seq<int>, children: Seq<TreeNode>) -> bool {
    forall|k: int, l: int| 0 <= k < l < order.len() ==> !shown_before(children[#[trigger] order[l]], children[#[trigger] order[k]])
}

proof fn lemma_insert_by(order: Seq<int>, children: Seq<TreeNode>, j: int)
    requires
        in_display_order(order, children),
    ensures
        insert_by(order, children, j).len() == order.len() + 1,
        forall|x: int| #[trigger] insert_by(order, children, j).contains(x) <==> (x == j || order.contains(x)),
        in_display_order(insert_by(order, children, j), children),
    decreases order.len(),
{
    let res = insert_by(order, children, j);
    if order.len() == 0 {
        assert forall|x: int| #[trigger] res.contains(x) <==> (x == j || order.contains(x)) by {
            if x == j {
                assert(res[0] == j);
            }
        }
    } else if shown_before(children[j], children[order[0]]) {
        assert forall|x: int| #[trigger] res.contains(x) <==> (x == j || order.contains(x)) by {
            if x == j {
                assert(res[0] == j);
            }
            if order.contains(x) {
                let i = choose|i: int| 0 <= i < order.len() && order[i] == x;
                assert(res[i + 1] == x);
            }
            if res.contains(x) {
                let i = choose|i: int| 0 <= i < res.len() && res[i] == x;
                if i > 0 {
                    assert(order[i - 1] == x);
                }
            }
        }
        assert forall|k: int, l: int| 0 <= k < l < res.len() implies !shown_before(children[#[trigger] res[l]], children[#[trigger] res[k]]) by {
            if k == 0 {
                assert(res[l] == order[l - 1]);
                if l - 1 > 0 {
                    assert(!shown_before(children[order[l - 1]], children[order[0]]));
                }
                lemma_shown_before_order(children[order[l - 1]], children[j], children[order[0]]);
            } else {
                assert(res[l] == order[l - 1]);
                assert(res[k] == order[k - 1]);
            }
        }
    } else {
        let rest = order.drop_first();
        assert(in_display_order(rest, children)) by {
            assert forall|k: int, l: int| 0 <= k < l < rest.len() implies !shown_before(children[#[trigger] rest[l]], children[#[trigger] rest[k]]) by {
                assert(rest[l] == order[l + 1]);
                assert(rest[k] == order[k + 1]);
            }
        }
        lemma_insert_by(rest, children, j);
        let inner = insert_by(rest, children, j);
        assert(res == seq![order[0]] + inner);
        assert forall|x: int| #[trigger] res.contains(x) <==> (x == j || order.contains(x)) by {
            if res.contains(x) {
                let i = choose|i: int| 0 <= i < res.len() && res[i] == x;
                if i > 0 {
                    assert(inner[i - 1] == x);
                    assert(inner.contains(x));
                    if rest.contains(x) {
                        let m = choose|m: int| 0 <= m < rest.len() && rest[m] == x;
                        assert(order[m + 1] == x);
                    }
                } else {
                    assert(order[0] == x);
                }
            }
            if x == j {
                assert(inner.contains(j));
                let i = choose|i: int| 0 <= i < inner.len() && inner[i] == j;
                assert(res[i + 1] == j);
            }
            if order.contains(x) {
                let m = choose|m: int| 0 <= m < order.len() && order[m] == x;
                if m == 0 {
                    assert(res[0] == x);
                } else {
                    assert(rest[m - 1] == x);
                    assert(inner.contains(x));
                    let i = choose|i: int| 0 <= i < inner.len() && inner[i] == x;
                    assert(res[i + 1] == x);
                }
            }
        }
        assert forall|k: int, l: int| 0 <= k < l < res.len() implies !shown_before(children[#[trigger] res[l]], children[#[trigger] res[k]]) by {
            if k == 0 {
                let x = res[l];
                assert(inner[l - 1] == x);
                assert(inner.contains(x));
                if x != j {
                    assert(rest.contains(x));
                    let m = choose|m: int| 0 <= m < rest.len() && rest[m] == x;
                    assert(order[m + 1] == x);
                }
            } else {
                assert(res[l] == inner[l - 1]);
                assert(res[k] == inner[k - 1]);
            }
        }
    }
}

/// In the order the children are shown, every directory comes before
/// every other entry, and among entries of the same kind a name never
/// comes after a name that is lexicographically greater.
pub proof fn lemma_display_order_dirs_first(children: Seq<TreeNode>)
    ensures
        forall|k: int, l: int|
            #![trigger display_order(children, children.len())[k], display_order(children, children.len())[l]]
            0 <= k < l < children.len() ==> {
                &&& is_dir_node(children[display_order(children, children.len())[l]]) ==> is_dir_node(
                    children[display_order(children, children.len())[k]],
                )
                &&& is_dir_node(children[display_order(children, children.len())[l]]) == is_dir_node(
                    children[display_order(children, children.len())[k]],
                ) ==> !name_lt(
                    children[display_order(children, children.len())[l]].path@,
                    children[display_order(children, children.len())[k]].path@,
                )
            },
{
    lemma_display_order(children, children.len());
}

/// The display order of the children lists each child exactly once, and
/// never shows a child after one that should come after it: directories
/// come before files, and names come in order within each group.
pub proof fn lemma_display_order(children: Seq<TreeNode>, n: nat)
    requires
        n <= children.len(),
    ensures
        display_order(children, n).len() == n,
        forall|x: int| #[trigger] display_order(children, n).contains(x) <==> 0 <= x < n,
        display_order(children, n).no_duplicates(),
        in_display_order(display_order(children, n), children),
    decreases n,
{
    if n > 0 {
        let prev = display_order(children, (n - 1) as nat);
        lemma_display_order(children, (n - 1) as nat);
        lemma_insert_by(prev, children, n - 1);
        let res = display_order(children, n);
        assert(res == insert_by(prev, children, n - 1));
        assert(res.no_duplicates()) by {
            assert forall|a: int, b: int| 0 <= a < res.len() && 0 <= b < res.len() && a != b implies res[a] != res[b] by {
                lemma_insert_positions(prev, children, n - 1, a, b);
            }
        }
    } else {
        assert(display_order(children, n) =~= Seq::<int>::empty());
    }
}

proof fn lemma_insert_positions(order: Seq<int>, children: Seq<TreeNode>, j: int, a: int, b: int)
    requires
        order.no_duplicates(),
        !order.contains(j),
        0 <= a < insert_by(order, children, j).len(),
        0 <= b < insert_by(order, children, j).len(),
        a != b,
    ensures
        insert_by(order, children, j)[a] != insert_by(order, children, j)[b],
    decreases order.len(),
{
    let res = insert_by(order, children, j);
    if order.len() == 0 {
    } else if shown_before(children[j], children[order[0]]) {
        if a > 0 && b > 0 {
            assert(res[a] == order[a - 1]);
            assert(res[b] == order[b - 1]);
        } else if a == 0 {
            assert(res[b] == order[b - 1]);
        } else {
            assert(res[a] == order[a - 1]);
        }
    } else {
        let rest = order.drop_first();
        assert(rest.no_duplicates());
        assert(!rest.contains(j)) by {
            if rest.contains(j) {
                let m = choose|m: int| 0 <= m < rest.len() && rest[m] == j;
                assert(order[m + 1] == j);
            }
        }
        let inner = insert_by(rest, children, j);
        if a > 0 && b > 0 {
            lemma_insert_positions(rest, children, j, a - 1, b - 1);
        } else {
            let other = if a == 0 { b } else { a };
            let x = inner[other - 1];
            assert(rest.len() >= 0);
            lemma_insert_contains(rest, children, j, x);
            assert(inner.contains(x));
            if x == j {
                assert(order[0] != j);
            } else {
                let m = choose|m: int| 0 <= m < rest.len() && rest[m] == x;
                assert(order[m + 1] == x);
                assert(order[0] != order[m + 1]);
            }
        }
    }
}

proof fn lemma_insert_contains(order: Seq<int>, children: Seq<TreeNode>, j: int, x: int)
    ensures
        insert_by(order, children, j).contains(x) <==> (x == j || order.contains(x)),
    decreases order.len(),
{
    let res = insert_by(order, children, j);
    if order.len() == 0 {
        if x == j {
            assert(res[0] == j);
        }
    } else if shown_before(children[j], children[order[0]]) {
        if x == j {
            assert(res[0] == j);
        }
        if order.contains(x) {
            let i = choose|i: int| 0 <= i < order.len() && order[i] == x;
            assert(res[i + 1] == x);
        }
        if res.contains(x) {
            let i = choose|i: int| 0 <= i < res.len() && res[i] == x;
            if i > 0 {
                assert(order[i - 1] == x);
            }
        }
    } else {
        let rest = order.drop_first();
        lemma_insert_contains(rest, children, j, x);
        let inner = insert_by(rest, children, j);
        if res.contains(x) {
            let i = choose|i: int| 0 <= i < res.len() && res[i] == x;
            if i > 0 {
                assert(inner[i - 1] == x);
                if rest.contains(x) {
                    let m = choose|m: int| 0 <= m < rest.len() && rest[m] == x;
                    assert(order[m + 1] == x);
                }
            }
        }
        if x == j || order.contains(x) {
            if x != j && order[0] == x {
                assert(res[0] == x);
            } else {
                if x != j {
                    let m = choose|m: int| 0 <= m < order.len() && order[m] == x;
                    assert(rest[m - 1] == x);
                }
                assert(inner.contains(x));
                let i = choose|i: int| 0 <= i < inner.len() && inner[i] == x;
                assert(res[i + 1] == x);
            }
        }
    }
}

} // verus!
