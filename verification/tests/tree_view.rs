use silex::sizes::{fmt_triplet, format_permissions, human_bytes};
use silex::tree::{render_entry, EntryInfo, EntryKind, Metadata, TreeNode};

#[test]
fn permission_triplets() {
    assert_eq!(fmt_triplet(7), "rwx");
    assert_eq!(fmt_triplet(5), "r-x");
    assert_eq!(fmt_triplet(0), "---");
    assert_eq!(fmt_triplet(2), "-w-");
}

#[test]
fn permissions_of_modes() {
    assert_eq!(format_permissions(0o755), "rwxr-xr-x");
    assert_eq!(format_permissions(0o100644), "rw-r--r--");
    assert_eq!(format_permissions(0o4777), "rwxrwxrwx");
}

fn float_rendering(size: u64) -> String {
    let units = ["B", "KB", "MB", "GB"];
    let mut s = size as f64;
    let mut i = 0;
    while s >= 1024.0 && i < units.len() - 1 {
        s /= 1024.0;
        i += 1;
    }
    format!("{:.1} {}", s, units[i])
}

#[test]
fn human_bytes_exact_values() {
    assert_eq!(human_bytes(0), "0.0 B");
    assert_eq!(human_bytes(1023), "1023.0 B");
    assert_eq!(human_bytes(1024), "1.0 KB");
    assert_eq!(human_bytes(1536), "1.5 KB");
    assert_eq!(human_bytes(1280), "1.2 KB");
    assert_eq!(human_bytes(1024 * 1024 * 1024 * 5), "5.0 GB");
}

#[test]
fn human_bytes_matches_float_formatting() {
    let mut sizes: Vec<u64> = vec![
        0, 1, 999, 1023, 1024, 1025, 1075, 1076, 1280, 1331, 1332, 2047, 2048, 10239, 10240, 102_400,
        1_048_575, 1_048_576, 1_572_864, 1_073_741_823, 1_073_741_824, 1_288_490_189,
        (1u64 << 53) - 1, 1u64 << 53, (1u64 << 53) + 1, (1u64 << 53) + 3, (1u64 << 54) + 2,
        (1u64 << 54) + 6, 1u64 << 63, u64::MAX, u64::MAX - 1024, 123_456_789_012_345,
    ];
    let mut x: u64 = 0x9e3779b97f4a7c15;
    for _ in 0..2000 {
        x ^= x << 13;
        x ^= x >> 7;
        x ^= x << 17;
        sizes.push(x >> (x % 64));
    }
    for k in 1..40u64 {
        sizes.push(k * 1024 / 10 + 51);
        sizes.push(k * 1024 * 1024 * 5 / 100);
    }
    for s in sizes {
        assert_eq!(human_bytes(s), float_rendering(s), "size {s}");
    }
}

fn entry(kind: EntryKind, name: &str, mode: u32, len: u64) -> EntryInfo {
    EntryInfo {
        kind,
        file_name: name.to_string(),
        metadata: Some(Metadata {
            mode,
            is_dir: kind == EntryKind::Dir,
            len,
            modified: "2026-01-01 10:00".to_string(),
        }),
    }
}

fn comps(path: &str) -> Vec<String> {
    path.split('/').map(|s| s.to_string()).collect()
}

#[test]
fn entry_line_columns() {
    let e = entry(EntryKind::File, "main.rs", 0o644, 2048);
    let line = render_entry(&e, &"│   ".to_string(), true);
    let expected = format!(
        "{:<4} {:<12} {:<12} {:<20} {}{} {}",
        "F", "rw-r--r--", "2.0 KB", "2026-01-01 10:00", "│   ", "└──", "main.rs"
    );
    assert_eq!(line, expected);
    let unknown = EntryInfo { kind: EntryKind::Unknown, file_name: "x".to_string(), metadata: None };
    let line2 = render_entry(&unknown, &String::new(), false);
    assert_eq!(line2, format!("{:<4} {:<12} {:<12} {:<20} {}{} {}", "?", "????", "?", "?", "", "├──", "x"));
}

#[test]
fn tree_shows_directories_first_then_names() {
    let mut root = TreeNode::new(".".to_string(), None);
    root.add_child(&comps("zeta.txt"), entry(EntryKind::File, "zeta.txt", 0o644, 10));
    root.add_child(&comps("src"), entry(EntryKind::Dir, "src", 0o755, 4096));
    root.add_child(&comps("src/main.rs"), entry(EntryKind::File, "main.rs", 0o644, 1536));
    root.add_child(&comps("alpha.txt"), entry(EntryKind::File, "alpha.txt", 0o600, 0));
    root.add_child(&comps("src/lib.rs"), entry(EntryKind::File, "lib.rs", 0o644, 1));
    let mut lines = Vec::new();
    root.render(&String::new(), true, &mut lines);
    let row = |t: &str, m: &str, s: &str, p: &str, c: &str, n: &str| {
        format!("{:<4} {:<12} {:<12} {:<20} {}{} {}", t, m, s, "2026-01-01 10:00", p, c, n)
    };
    assert_eq!(
        lines,
        vec![
            row("D", "rwxr-xr-x", "-", "", "├──", "src"),
            row("F", "rw-r--r--", "1.0 B", "│   ", "├──", "lib.rs"),
            row("F", "rw-r--r--", "1.5 KB", "│   ", "└──", "main.rs"),
            row("F", "rw-------", "0.0 B", "", "├──", "alpha.txt"),
            row("F", "rw-r--r--", "10.0 B", "", "└──", "zeta.txt"),
        ]
    );
}

#[test]
fn tree_node_without_entry_and_late_entry() {
    let mut root = TreeNode::new(".".to_string(), None);
    root.add_child(&comps("a/b.txt"), entry(EntryKind::File, "b.txt", 0o644, 3));
    let mut lines = Vec::new();
    root.render(&String::new(), true, &mut lines);
    assert_eq!(lines, vec![format!("{:<4} {:<12} {:<12} {:<20} {}{} {}", "F", "rw-r--r--", "3.0 B", "2026-01-01 10:00", "", "└──", "b.txt")]);
    root.add_child(&comps("a"), entry(EntryKind::Dir, "a", 0o755, 0));
    root.add_child(&vec![], entry(EntryKind::File, "ignored", 0, 0));
    let mut lines2 = Vec::new();
    root.render(&String::new(), true, &mut lines2);
    assert_eq!(lines2.len(), 2);
    assert!(lines2[1].ends_with("    └── b.txt"));
}
