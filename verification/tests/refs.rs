use silex::refs::TagError;
use silex::refs::{ancestor_in, BranchHead, CreateOutcome, FlowError, RefAction, Refs};

fn head(name: &str, id: i64) -> BranchHead {
    BranchHead { name: name.to_string(), commit_id: id, commit_hash: format!("hash{id}") }
}

fn action(a: &RefAction) -> String {
    match a {
        RefAction::InsertBranch { name, commit_id } => format!("insert {name} {commit_id}"),
        RefAction::SetHead { name, commit_id } => format!("set {name} {commit_id}"),
        RefAction::DeleteBranch { name } => format!("delete {name}"),
        RefAction::Checkout { name } => format!("checkout {name}"),
    }
}

fn actions(v: &[RefAction]) -> Vec<String> {
    v.iter().map(action).collect()
}

#[test]
fn create_branch_at_current_head() {
    let mut refs = Refs::new(vec![head("main", 1), head("dev", 2)], "dev".to_string());
    let (o, a) = refs.create_branch(&"topic".to_string());
    assert_eq!(o, CreateOutcome::Created);
    assert_eq!(actions(&a), vec!["insert topic 2"]);
    assert_eq!(refs.head_of(&"topic".to_string()), Some((2, "hash2".to_string())));
    let (o2, a2) = refs.create_branch(&"topic".to_string());
    assert_eq!(o2, CreateOutcome::AlreadyExists);
    assert!(a2.is_empty());
}

#[test]
fn create_branch_in_empty_repository() {
    let mut refs = Refs::new(vec![], "main".to_string());
    let (o, a) = refs.create_branch(&"x".to_string());
    assert_eq!(o, CreateOutcome::EmptyRepository);
    assert!(a.is_empty());
    assert!(!refs.has(&"x".to_string()));
}

#[test]
fn feature_start_then_finish_fast_forwards_main() {
    let mut refs = Refs::new(vec![head("main", 1), head("dev", 5)], "dev".to_string());
    let (o, a) = refs.feature_start("login");
    assert_eq!(o, CreateOutcome::Created);
    assert_eq!(actions(&a), vec!["insert feature/login 5", "checkout feature/login"]);
    // 1 <- 3 <- 5: main's head is an ancestor of the feature's.
    let graph = vec![(1, None), (3, Some(1)), (5, Some(3))];
    let fin = refs.feature_finish("login", &graph).unwrap();
    assert_eq!(
        actions(&fin),
        vec!["checkout feature/login", "set main 5", "checkout main", "delete feature/login"]
    );
    assert_eq!(refs.head_of(&"main".to_string()), Some((5, "hash5".to_string())));
    assert!(!refs.has(&"feature/login".to_string()));
    assert_eq!(refs.current(), "dev");
}

#[test]
fn feature_finish_without_branch() {
    let mut refs = Refs::new(vec![head("main", 1)], "main".to_string());
    assert_eq!(refs.feature_finish("ghost", &vec![(1, None)]).map(|_| ()), Err(FlowError::FeatureNotFound));
    assert_eq!(refs.head_of(&"main".to_string()), Some((1, "hash1".to_string())));
}

#[test]
fn hotfix_round_trip_leaves_main() {
    let mut refs = Refs::new(vec![head("main", 7), head("dev", 9)], "dev".to_string());
    let start = refs.hotfix_start("crash").unwrap();
    assert_eq!(actions(&start), vec!["insert hotfix/crash 7", "checkout hotfix/crash"]);
    assert_eq!(refs.hotfix_start("crash").map(|_| ()), Err(FlowError::HotfixExists));
    let graph = vec![(7, None), (9, Some(7))];
    let fin = refs.hotfix_finish("crash", &graph).unwrap();
    assert_eq!(
        actions(&fin),
        vec!["checkout hotfix/crash", "set main 7", "checkout main", "delete hotfix/crash"]
    );
    assert_eq!(refs.head_of(&"main".to_string()), Some((7, "hash7".to_string())));
    assert!(!refs.has(&"hotfix/crash".to_string()));
    assert_eq!(refs.hotfix_finish("crash", &graph).map(|_| ()), Err(FlowError::HotfixNotFound));
}

#[test]
fn hotfix_needs_main() {
    let mut refs = Refs::new(vec![head("dev", 1)], "dev".to_string());
    assert_eq!(refs.hotfix_start("x").map(|_| ()), Err(FlowError::NoMainBranch));
}

#[test]
fn duplicate_rows_keep_last() {
    let refs = Refs::new(vec![head("main", 1), head("main", 2)], "main".to_string());
    assert_eq!(refs.head_of(&"main".to_string()), Some((2, "hash2".to_string())));
}

#[test]
fn tag_target_is_current_head() {
    let refs = Refs::new(vec![head("main", 3)], "main".to_string());
    assert_eq!(refs.tag_target(), Ok((3, "hash3".to_string())));
    let empty = Refs::new(vec![head("main", 3)], "dev".to_string());
    assert_eq!(empty.tag_target(), Err(TagError::EmptyBranch));
}

#[test]
fn hotfix_finish_moves_main_before_checking_it_out() {
    let mut refs = Refs::new(vec![head("main", 7), head("hotfix/crash", 8)], "hotfix/crash".to_string());
    let graph = vec![(7, None), (8, Some(7))];
    let fin = refs.hotfix_finish("crash", &graph).unwrap();
    assert_eq!(
        actions(&fin),
        vec!["checkout hotfix/crash", "set main 8", "checkout main", "delete hotfix/crash"]
    );
    assert_eq!(refs.head_of(&"main".to_string()), Some((8, "hash8".to_string())));
}

#[test]
fn feature_finish_refuses_to_drop_main_commits() {
    // main moved on to 4 after the feature branched from 2: 2 <- 4 and 2 <- 6.
    let mut refs = Refs::new(vec![head("main", 4), head("feature/ui", 6)], "feature/ui".to_string());
    let graph = vec![(2, None), (4, Some(2)), (6, Some(2))];
    assert_eq!(refs.feature_finish("ui", &graph).map(|_| ()), Err(FlowError::MainDiverged));
    assert_eq!(refs.head_of(&"main".to_string()), Some((4, "hash4".to_string())));
    assert!(refs.has(&"feature/ui".to_string()));
}

#[test]
fn finish_needs_main() {
    let mut refs = Refs::new(vec![head("feature/ui", 6)], "feature/ui".to_string());
    assert_eq!(refs.feature_finish("ui", &vec![(6, None)]).map(|_| ()), Err(FlowError::NoMainBranch));
}

#[test]
fn ancestry_follows_parents() {
    let graph = vec![(1, None), (2, Some(1)), (3, Some(2)), (4, Some(1))];
    assert!(ancestor_in(&graph, 1, 3));
    assert!(ancestor_in(&graph, 3, 3));
    assert!(!ancestor_in(&graph, 4, 3));
    assert!(!ancestor_in(&graph, 3, 1));
    // a cycle does not make the walk run forever
    let cycle = vec![(1, Some(2)), (2, Some(1))];
    assert!(!ancestor_in(&cycle, 5, 1));
}
