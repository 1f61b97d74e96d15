use silex::status::in_silex_dir;
use silex::checkout::{plan_checkout, CheckoutPlan};
use silex::commit::{plan_commit, ScannedFile};
use silex::manifest::{ManifestIndex, TrackedFile};
use silex::status::{compute_status, DiskFile, FileStatus};

fn row(path: &str, hash: &str, asset: i64) -> TrackedFile {
    TrackedFile { path: path.to_string(), hash: hash.to_string(), asset_id: asset }
}

fn index(rows: Vec<(&str, &str, i64)>) -> ManifestIndex {
    ManifestIndex::from_rows(rows.into_iter().map(|(p, h, a)| row(p, h, a)).collect())
}

fn disk(path: &str, hash: Option<&str>) -> DiskFile {
    DiskFile { path: path.to_string(), hash: hash.map(|h| h.to_string()) }
}

fn describe(s: &FileStatus) -> String {
    match s {
        FileStatus::New(p) => format!("new {p}"),
        FileStatus::Modified(p, a) => format!("modified {p} {a}"),
        FileStatus::Deleted(p, a) => format!("deleted {p} {a}"),
        FileStatus::Unchanged => "unchanged".to_string(),
    }
}

#[test]
fn manifest_later_row_replaces_earlier() {
    let idx = index(vec![("a", "h1", 1), ("b", "h2", 2), ("a", "h3", 3)]);
    assert_eq!(idx.len(), 2);
    let a = "a".to_string();
    assert_eq!(idx.get(&a).map(|(h, id)| (h.clone(), id)), Some(("h3".to_string(), 3)));
    assert!(idx.contains(&"b".to_string()));
    assert!(!idx.contains(&"c".to_string()));
    assert_eq!(idx.entry(0).path, "a");
}

#[test]
fn status_reports_new_modified_deleted() {
    let head = index(vec![("a.txt", "h1", 1), ("b.txt", "h2", 2), ("c.txt", "h3", 3)]);
    let files = vec![
        disk("a.txt", Some("h1")),
        disk("b.txt", Some("changed")),
        disk("d.txt", Some("h4")),
        disk("c.txt", None),
    ];
    let report: Vec<String> = compute_status(&head, &files).iter().map(describe).collect();
    assert_eq!(report, vec!["modified b.txt 2", "new d.txt"]);
    let files2 = vec![disk("a.txt", Some("h1"))];
    let report2: Vec<String> = compute_status(&head, &files2).iter().map(describe).collect();
    assert_eq!(report2, vec!["deleted b.txt 2", "deleted c.txt 3"]);
}

#[test]
fn status_of_tree_matching_head_is_clean() {
    let head = index(vec![("a", "h1", 1), ("dir/b", "h2", 2)]);
    let files = vec![disk("dir/b", Some("h2")), disk("a", Some("h1"))];
    assert!(compute_status(&head, &files).is_empty());
    let empty = ManifestIndex::new();
    assert!(compute_status(&empty, &vec![]).is_empty());
}

#[test]
fn checkout_to_current_branch() {
    let m = index(vec![]);
    let p = plan_checkout(&"main".to_string(), &"main".to_string(), 3, true, &m, &m);
    assert!(matches!(p, CheckoutPlan::AlreadyOn));
}

#[test]
fn checkout_refused_with_pending_changes() {
    let m = index(vec![]);
    let p = plan_checkout(&"main".to_string(), &"dev".to_string(), 1, true, &m, &m);
    assert!(matches!(p, CheckoutPlan::WouldOverwrite));
}

#[test]
fn checkout_unknown_branch() {
    let m = index(vec![]);
    let p = plan_checkout(&"main".to_string(), &"nope".to_string(), 0, false, &m, &m);
    assert!(matches!(p, CheckoutPlan::BranchNotFound));
    let q = plan_checkout(&"dev".to_string(), &"main".to_string(), 0, false, &index(vec![("x", "h", 1)]), &m);
    match q {
        CheckoutPlan::Switch { writes, removals } => {
            assert!(writes.is_empty());
            assert_eq!(removals, vec!["x".to_string()]);
        }
        _ => panic!("main is always reachable"),
    }
}

#[test]
fn checkout_rewrites_and_removes() {
    let current = index(vec![("same", "h1", 1), ("changed", "h2", 2), ("gone", "h3", 3)]);
    let target = index(vec![("same", "h1", 1), ("changed", "h9", 2), ("added", "h4", 4)]);
    let p = plan_checkout(&"main".to_string(), &"dev".to_string(), 0, true, &current, &target);
    match p {
        CheckoutPlan::Switch { writes, removals } => {
            assert_eq!(
                writes,
                vec![("changed".to_string(), "h9".to_string()), ("added".to_string(), "h4".to_string())]
            );
            assert_eq!(removals, vec!["gone".to_string()]);
            let mut tree: std::collections::BTreeMap<String, String> = [("same", "h1"), ("changed", "h2"), ("gone", "h3")]
                .iter()
                .map(|(a, b)| (a.to_string(), b.to_string()))
                .collect();
            for (p, h) in writes {
                tree.insert(p, h);
            }
            for r in removals {
                tree.remove(&r);
            }
            let expected: std::collections::BTreeMap<String, String> = [("same", "h1"), ("changed", "h9"), ("added", "h4")]
                .iter()
                .map(|(a, b)| (a.to_string(), b.to_string()))
                .collect();
            assert_eq!(tree, expected);
        }
        _ => panic!("expected a switch"),
    }
}

fn scanned(path: &str, hash: &str, blob: i64, readonly: bool) -> ScannedFile {
    ScannedFile { path: path.to_string(), hash: hash.to_string(), blob_id: blob, readonly }
}

#[test]
fn commit_plan_counts_and_keeps_assets() {
    let parent = index(vec![("a", "h1", 10), ("b", "h2", 20), ("c", "h3", 30)]);
    let files = vec![scanned("a", "h1", 1, false), scanned("b", "new", 2, true), scanned("d", "h4", 3, false)];
    let plan = plan_commit(&parent, &files);
    assert_eq!(plan.changes, 3);
    let rows: Vec<(String, i64, Option<i64>, i64)> =
        plan.entries.iter().map(|e| (e.path.clone(), e.blob_id, e.asset_id, e.perm)).collect();
    assert_eq!(
        rows,
        vec![
            ("a".to_string(), 1, Some(10), 644),
            ("b".to_string(), 2, Some(20), 444),
            ("d".to_string(), 3, None, 644),
        ]
    );
}

#[test]
fn commit_with_nothing_changed() {
    let parent = index(vec![("a", "h1", 10)]);
    let plan = plan_commit(&parent, &vec![scanned("a", "h1", 1, false)]);
    assert_eq!(plan.changes, 0);
    let first = plan_commit(&ManifestIndex::new(), &vec![]);
    assert_eq!(first.changes, 0);
}

#[test]
fn commit_counts_what_status_reports() {
    let parent = index(vec![("a", "h1", 10), ("b", "h2", 20), ("c", "h3", 30)]);
    let files = vec![scanned("a", "x", 1, false), scanned("e", "h5", 2, false)];
    let disk_files: Vec<DiskFile> = files.iter().map(|f| disk(&f.path, Some(&f.hash))).collect();
    assert_eq!(plan_commit(&parent, &files).changes, compute_status(&parent, &disk_files).len());
}

#[test]
fn silex_directory_is_left_out() {
    let c = |p: &str| p.split('/').map(|s| s.to_string()).collect::<Vec<String>>();
    assert!(in_silex_dir(&c(".silex/db/store.db")));
    assert!(in_silex_dir(&c("sub/.silex")));
    assert!(!in_silex_dir(&c("src/.silexium")));
    assert!(!in_silex_dir(&vec![]));
}

fn plan_rows(plan: &silex::commit::CommitPlan) -> Vec<(String, Option<i64>)> {
    plan.entries.iter().map(|e| (e.path.clone(), e.asset_id)).collect()
}

#[test]
fn commit_rename_keeps_asset() {
    let parent = index(vec![("main.rs", "h1", 7), ("lib.rs", "h2", 8)]);
    let files = vec![scanned("app.rs", "h1", 1, false), scanned("lib.rs", "h2", 2, false)];
    let plan = plan_commit(&parent, &files);
    assert_eq!(plan.changes, 1);
    assert_eq!(
        plan_rows(&plan),
        vec![("app.rs".to_string(), Some(7)), ("lib.rs".to_string(), Some(8))]
    );
}

#[test]
fn commit_copy_gets_fresh_asset() {
    let parent = index(vec![("main.rs", "h1", 7)]);
    let files = vec![scanned("main.rs", "h1", 1, false), scanned("copy.rs", "h1", 2, false)];
    let plan = plan_commit(&parent, &files);
    assert_eq!(plan.changes, 1);
    assert_eq!(
        plan_rows(&plan),
        vec![("main.rs".to_string(), Some(7)), ("copy.rs".to_string(), None)]
    );
}

#[test]
fn commit_renames_pair_in_order() {
    let parent = index(vec![("a", "same", 1), ("b", "same", 2), ("c", "other", 3)]);
    let files = vec![scanned("x", "same", 1, false), scanned("y", "same", 2, false), scanned("z", "same", 3, false)];
    let plan = plan_commit(&parent, &files);
    assert_eq!(plan.changes, 4);
    assert_eq!(
        plan_rows(&plan),
        vec![("x".to_string(), Some(1)), ("y".to_string(), Some(2)), ("z".to_string(), None)]
    );
}

#[test]
fn commit_rename_counts_once_where_status_reports_twice() {
    let parent = index(vec![("main.rs", "h1", 7)]);
    let files = vec![scanned("app.rs", "h1", 1, false)];
    let disk_files: Vec<DiskFile> = files.iter().map(|f| disk(&f.path, Some(&f.hash))).collect();
    let plan = plan_commit(&parent, &files);
    let renamed = plan.entries.iter().filter(|e| e.asset_id.is_some()).count();
    assert_eq!(plan.changes + renamed, compute_status(&parent, &disk_files).len());
    assert_eq!(plan.changes, 1);
}
