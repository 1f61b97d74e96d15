//! Naming, path and identity helpers of the Git import.

use vstd::prelude::*;
use vstd::string::*;
use crate::text::push_char;

verus! {

/// What follows the last `/` of `s` (all of `s` when it has none).
pub open spec fn after_last_slash(s: Seq<char>) -> Seq<char>
    decreases s.len(),
{
    if s.len() == 0 {
        s
    } else if s.last() == '/' {
        Seq::empty()
    } else {
        after_last_slash(s.drop_last()).push(s.last())
    }
}

/// `s` without a trailing `.git`.
pub open spec fn without_git_suffix(s: Seq<char>) -> Seq<char> {
    if s.len() >= 4 && s.subrange(s.len() - 4, s.len() as int) == seq!['.', 'g', 'i', 't'] {
        s.subrange(0, s.len() - 4)
    } else {
        s
    }
}

/// The repository name of a clone URL: its last path segment without
/// `.git`.
pub open spec fn repo_name(url: Seq<char>) -> Seq<char> {
    without_git_suffix(after_last_slash(url))
}

proof fn lemma_after_last_slash(s: Seq<char>, k: int)
    requires
        0 <= k <= s.len(),
        forall|j: int| k <= j < s.len() ==> s[j] != '/',
        k == 0 || s[k - 1] == '/',
    ensures
        after_last_slash(s) == s.subrange(k, s.len() as int),
    decreases s.len(),
{
    if s.len() == 0 {
    } else if k == s.len() {
        assert(s.subrange(k, s.len() as int) =~= Seq::<char>::empty());
    } else {
        lemma_after_last_slash(s.drop_last(), k);
        assert(s.drop_last().subrange(k, s.len() - 1).push(s.last()) =~= s.subrange(k, s.len() as int));
    }
}

/// The name of the repository that a Git URL designates, e.g. `silex` for
/// `https://host/user/silex.git`.
pub fn extract_repo_name(url: &str) -> (res: String)
    ensures
        res@ == repo_name(url@),
{
    let n = url.unicode_len();
    let mut k = n;
    while k > 0 && url.get_char(k - 1) != '/'
        invariant
            k <= n,
            n == url@.len(),
            forall|j: int| k <= j < n ==> url@[j] != '/',
        decreases k,
    {
        k = k - 1;
    }
    proof {
        lemma_after_last_slash(url@, k as int);
    }
    let last = url.substring_char(k, n);
    let m = n - k;
    let mut strip = false;
    if m >= 4 {
        let a = last.get_char(m - 4);
        let b = last.get_char(m - 3);
        let c = last.get_char(m - 2);
        let d = last.get_char(m - 1);
        strip = a == '.' && b == 'g' && c == 'i' && d == 't';
        assert(strip == (last@.subrange(m - 4, m as int) =~= seq!['.', 'g', 'i', 't']));
    }
    let kept = if strip { m - 4 } else { m };
    let res = last.substring_char(0, kept).to_owned();
    assert(res@ =~= repo_name(url@));
    res
}

/// The path of a Git tree entry: `name` under `prefix`, joined by `/`, or
/// `name` alone at the root.
pub open spec fn joined_path(prefix: Seq<char>, name: Seq<char>) -> Seq<char> {
    if prefix.len() == 0 {
        name
    } else {
        prefix.push('/') + name
    }
}

/// Joins a Git tree entry's name to the path of its tree.
pub fn join_path(prefix: &str, name: &str) -> (res: String)
    ensures
        res@ == joined_path(prefix@, name@),
{
    if prefix.is_empty() {
        name.to_owned()
    } else {
        let mut res = prefix.to_owned();
        push_char(&mut res, '/');
        res.append(name);
        res
    }
}

/// The message of an imported commit: the Git message (empty when it is
/// not valid UTF-8), a blank line, and the Git commit's id.
pub open spec fn import_message_text(message: Option<Seq<char>>, git_hash: Seq<char>) -> Seq<char> {
    (match message {
        Some(m) => m,
        None => Seq::empty(),
    }) + "\n\n[Git-Import: "@ + git_hash + "]"@
}

/// Renders the message of an imported commit.
pub fn import_message(message: Option<&str>, git_hash: &str) -> (res: String)
    ensures
        res@ == import_message_text(
            match message {
                Some(m) => Some(m@),
                None => None,
            },
            git_hash@,
        ),
{
    let mut res = String::new();
    match message {
        Some(m) => res.append(m),
        None => {},
    }
    res.append("\n\n[Git-Import: ");
    res.append(git_hash);
    res.append("]");
    res
}

/// The author of an imported commit: the Git author's name, or `Unknown`
/// when it is not valid UTF-8.
pub fn import_author<'a>(name: Option<&'a str>) -> (res: &'a str)
    ensures
        res@ == match name {
            Some(n) => n@,
            None => "Unknown"@,
        },
{
    match name {
        Some(n) => n,
        None => "Unknown",
    }
}

/// The asset that each path takes over the import: the first asset given
/// to a path stays its asset.
pub open spec fn first_assets(s: Seq<(Seq<char>, i64)>) -> Map<Seq<char>, i64>
    decreases s.len(),
{
    if s.len() == 0 {
        Map::empty()
    } else {
        let m = first_assets(s.drop_last());
        if m.contains_key(s.last().0) {
            m
        } else {
            m.insert(s.last().0, s.last().1)
        }
    }
}

/// The assets of the files imported so far, by path: a file keeps its
/// asset in every later commit that has its path.
pub struct PathAssets {
    entries: Vec<(String, i64)>,
}

proof fn lemma_first_assets_absent(s: Seq<(Seq<char>, i64)>, p: Seq<char>)
    requires
        forall|j: int| 0 <= j < s.len() ==> (#[trigger] s[j]).0 != p,
    ensures
        !first_assets(s).contains_key(p),
    decreases s.len(),
{
    if s.len() > 0 {
        assert forall|j: int| 0 <= j < s.drop_last().len() implies (#[trigger] s.drop_last()[j]).0 != p by {
            assert(s.drop_last()[j] == s[j]);
        }
        lemma_first_assets_absent(s.drop_last(), p);
        assert(s[s.len() - 1].0 != p);
    }
}

proof fn lemma_first_assets_at(s: Seq<(Seq<char>, i64)>, p: Seq<char>, i: int)
    requires
        0 <= i < s.len(),
        s[i].0 == p,
        forall|j: int| 0 <= j < i ==> (#[trigger] s[j]).0 != p,
    ensures
        first_assets(s).contains_key(p),
        first_assets(s)[p] == s[i].1,
    decreases s.len(),
{
    let rest = s.drop_last();
    if i == s.len() - 1 {
        assert forall|j: int| 0 <= j < rest.len() implies (#[trigger] rest[j]).0 != p by {
            assert(rest[j] == s[j]);
        }
        lemma_first_assets_absent(rest, p);
    } else {
        assert forall|j: int| 0 <= j < i implies (#[trigger] rest[j]).0 != p by {
            assert(rest[j] == s[j]);
        }
        assert(rest[i] == s[i]);
        lemma_first_assets_at(rest, p, i);
    }
}

impl PathAssets {
    /// The asset of each path.
    pub closed spec fn view(&self) -> Map<Seq<char>, i64> {
        first_assets(self.entries@.map_values(|e: (String, i64)| (e.0@, e.1)))
    }

    /// No path has an asset yet.
    pub fn new() -> (res: Self)
        ensures
            res.view() == Map::<Seq<char>, i64>::empty(),
    {
        let res = PathAssets { entries: Vec::new() };
        assert(res.entries@.map_values(|e: (String, i64)| (e.0@, e.1)) =~= Seq::<(Seq<char>, i64)>::empty());
        res
    }

    /// The asset of `path`, if it has one.
    pub fn asset_of(&self, path: &String) -> (res: Option<i64>)
        ensures
            match res {
                Some(a) => self.view().contains_key(path@) && self.view()[path@] == a,
                None => !self.view().contains_key(path@),
            },
    {
        let ghost s = self.entries@.map_values(|e: (String, i64)| (e.0@, e.1));
        let mut i: usize = 0;
        while i < self.entries.len()
            invariant
                i <= self.entries@.len(),
                s == self.entries@.map_values(|e: (String, i64)| (e.0@, e.1)),
                s.len() == self.entries@.len(),
                forall|j: int| 0 <= j < i ==> (#[trigger] s[j]).0 != path@,
            decreases self.entries@.len() - i,
        {
            if self.entries[i].0 == *path {
                proof {
                    lemma_first_assets_at(s, path@, i as int);
                }
                return Some(self.entries[i].1);
            }
            i = i + 1;
        }
        proof {
            lemma_first_assets_absent(s, path@);
        }
        None
    }

    /// Gives `path` the asset `asset`, unless it already has one, which it
    /// keeps.
    pub fn remember(&mut self, path: String, asset: i64)
        ensures
            final(self).view() == if old(self).view().contains_key(path@) {
                old(self).view()
            } else {
                old(self).view().insert(path@, asset)
            },
    {
        let ghost before = self.entries@.map_values(|e: (String, i64)| (e.0@, e.1));
        let ghost p = path@;
        self.entries.push((path, asset));
        assert(self.entries@.map_values(|e: (String, i64)| (e.0@, e.1)).drop_last() =~= before);
        assert(self.entries@.map_values(|e: (String, i64)| (e.0@, e.1)).last() == (p, asset));
    }
}

} // verus!
