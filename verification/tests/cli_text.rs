use silex::console::{
    audit_counts_line, audit_padding, current_branch_or_main, expiry_day_offset, history_file_name, ko_line,
    log_lines, next_in_log, ok_line, status_line, tag_line, tag_padding, todo_added_message, todo_assignee,
    todo_done_message,
};
use silex::diff::{render_file_diff, text_of_blob};
use silex::git::{extract_repo_name, join_path};
use silex::status::FileStatus;
use silex::todo::TodoItem;

#[test]
fn ok_and_ko_lines() {
    assert_eq!(ok_line("done"), "\x1b[1;32m *\x1b[1;37m done\x1b[0m");
    assert_eq!(ko_line("failed"), "\x1b[1;31m !\x1b[1;37m failed\x1b[0m");
}

#[test]
fn status_lines() {
    assert_eq!(status_line(&FileStatus::New("a".into())), Some("\x1b[1;32m+\x1b[1;37m a\x1b[0m".to_string()));
    assert_eq!(status_line(&FileStatus::Modified("b".into(), 1)), Some("\x1b[1;33m~\x1b[1;37m b\x1b[0m".to_string()));
    assert_eq!(status_line(&FileStatus::Deleted("c".into(), 2)), Some("\x1b[1;31m-\x1b[1;37m c\x1b[0m".to_string()));
    assert_eq!(status_line(&FileStatus::Unchanged), None);
}

#[test]
fn paddings() {
    assert_eq!(audit_padding(80, 7, 20), 46);
    assert_eq!(tag_padding(80, 5, 10, 10), 46);
}

#[test]
fn audit_summary_line() {
    assert_eq!(audit_counts_line(2, 1, 0, 3), "Validated (2/3) Unsigned (1) Errors (0) Total (3)");
}

#[test]
fn tag_lines() {
    assert_eq!(tag_line("v1", "abcdef0", &Some("first".to_string())), "  \x1b[1;33mv1\x1b[0m -> abcdef0 \x1b[90mfirst\x1b[0m");
    assert_eq!(tag_line("v2", "1234567", &None), "  \x1b[1;33mv2\x1b[0m -> 1234567 \x1b[90m\x1b[0m");
}

#[test]
fn log_entry_lines() {
    let lines = log_lines("h", "Saigo", "2026-01-01", "msg");
    assert_eq!(
        lines,
        vec![
            "\x1b[33mcommit h\x1b[0m".to_string(),
            "Author: Saigo".to_string(),
            "Date:   2026-01-01".to_string(),
            "\n    msg\n".to_string(),
            "\x1b[90m----------------------------------------\x1b[0m".to_string(),
        ]
    );
    assert_eq!(next_in_log(Some("p".to_string())), "p");
    assert_eq!(next_in_log(None), "");
}

#[test]
fn todo_messages() {
    assert_eq!(todo_added_message("Fix", Some("2026-02-01")), "Todo appended : Fix (due date : 2026-02-01)");
    assert_eq!(todo_added_message("Fix", None), "Todo appended : Fix (due date : unknown)");
    assert_eq!(todo_assignee(None), "Me");
    assert_eq!(todo_assignee(Some("Saigo")), "Saigo");
    assert_eq!(todo_done_message(42), "Task #42 done !");
    let item = TodoItem { id: 1, title: "t".into(), status: "TODO".into(), assigned_to: "Me".into(), due_date: "".into() };
    assert_eq!(item.id, 1);
}

#[test]
fn configuration_defaults() {
    assert_eq!(current_branch_or_main(None), "main");
    assert_eq!(current_branch_or_main(Some("dev".into())), "dev");
    assert_eq!(history_file_name(2026), "history_2026.db");
}

#[test]
fn messages_expire_at_eight() {
    assert_eq!(expiry_day_offset(0), 0);
    assert_eq!(expiry_day_offset(19), 0);
    assert_eq!(expiry_day_offset(20), 1);
    assert_eq!(expiry_day_offset(23), 1);
}

#[test]
fn repository_names() {
    assert_eq!(extract_repo_name("https://github.com/user/silex.git"), "silex");
    assert_eq!(extract_repo_name("https://github.com/user/silex"), "silex");
    assert_eq!(extract_repo_name("silex.git"), "silex");
    assert_eq!(extract_repo_name("https://host/a/"), "");
    assert_eq!(extract_repo_name(".git"), "");
    assert_eq!(extract_repo_name("git"), "git");
}

#[test]
fn git_paths() {
    assert_eq!(join_path("", "a.txt"), "a.txt");
    assert_eq!(join_path("src/bin", "main.rs"), "src/bin/main.rs");
}

#[test]
fn line_diff_rendering() {
    let out = render_file_diff("a\nb\n", "a\nc\n");
    assert_eq!(out, "\x1b[0m a\n\x1b[0m\x1b[31m-b\n\x1b[0m\x1b[32m+c\n\x1b[0m");
    let no_newline = render_file_diff("", "x");
    assert_eq!(no_newline, "\x1b[32m+x\n\x1b[0m");
    assert_eq!(render_file_diff("same\n", "same\n"), "\x1b[0m same\n\x1b[0m");
}

#[test]
fn head_text_decoding() {
    assert_eq!(text_of_blob(None), "");
    assert_eq!(text_of_blob(Some(b"hello".to_vec())), "hello");
    assert_eq!(text_of_blob(Some(vec![0xff, 0xfe])), "(Binary content)");
}
