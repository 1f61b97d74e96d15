use silex::console::{log_page, log_step, LogPage, LogStep};
use silex::git::{import_author, import_message, PathAssets};
use silex::hex::{hex_decode, HexError};

#[test]
fn log_page_windows() {
    assert_eq!(log_page(1, 120), LogPage { skip: 0, take: 120 });
    assert_eq!(log_page(3, 10), LogPage { skip: 20, take: 10 });
    assert_eq!(log_page(0, 5), LogPage { skip: 0, take: 5 });
    assert_eq!(log_page(usize::MAX, 2), LogPage { skip: usize::MAX, take: 0 });
}

#[test]
fn log_steps_through_one_page() {
    let page = log_page(2, 2);
    let steps: Vec<LogStep> = (0..5).map(|p| log_step(page, p)).collect();
    assert_eq!(steps, vec![LogStep::Skip, LogStep::Skip, LogStep::Show, LogStep::Show, LogStep::Stop]);
}

#[test]
fn import_message_marks_git_commit() {
    assert_eq!(import_message(Some("fix parser"), "abc123"), "fix parser\n\n[Git-Import: abc123]");
    assert_eq!(import_message(None, "abc123"), "\n\n[Git-Import: abc123]");
}

#[test]
fn import_author_falls_back_to_unknown() {
    assert_eq!(import_author(Some("Saigo")), "Saigo");
    assert_eq!(import_author(None), "Unknown");
}

#[test]
fn imported_path_keeps_first_asset() {
    let mut assets = PathAssets::new();
    let a = "src/main.rs".to_string();
    assert_eq!(assets.asset_of(&a), None);
    assets.remember(a.clone(), 4);
    assets.remember(a.clone(), 9);
    assets.remember("README.md".to_string(), 5);
    assert_eq!(assets.asset_of(&a), Some(4));
    assert_eq!(assets.asset_of(&"README.md".to_string()), Some(5));
    assert_eq!(assets.asset_of(&"other".to_string()), None);
}

#[test]
fn hex_decode_checks_length_before_digits() {
    assert_eq!(hex_decode("zzz"), Err(HexError::OddLength));
    assert_eq!(hex_decode("0aZ1"), Err(HexError::InvalidHexCharacter { byte: b'Z', index: 2 }));
    assert_eq!(hex_decode("0aFf"), Ok(vec![0x0a, 0xff]));
}
