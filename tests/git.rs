use ptyterm::git::{git_info_from, parse_ahead_behind, parse_changed_files, parse_entry};
use ptyterm::FileDiff;

fn entries(text: &str) -> Vec<(String, String)> {
    parse_changed_files(text).into_iter().map(|f| (f.status, f.path)).collect()
}

#[test]
fn porcelain_lines_are_parsed() {
    let out = entries(" M src/a.rs\n?? new.txt\nR  old.rs -> new.rs\nA  added.rs\n");
    assert_eq!(
        out,
        vec![
            ("M".to_string(), "src/a.rs".to_string()),
            ("A".to_string(), "new.txt".to_string()),
            ("R".to_string(), "new.rs".to_string()),
            ("A".to_string(), "added.rs".to_string()),
        ]
    );
}

#[test]
fn porcelain_empty_lines_and_crlf() {
    let out = entries("\nMM both.rs\r\n\n D gone.rs");
    assert_eq!(
        out,
        vec![
            ("MM".to_string(), "both.rs".to_string()),
            ("D".to_string(), "gone.rs".to_string()),
        ]
    );
    assert!(entries("").is_empty());
}

#[test]
fn short_line_gets_untracked_code() {
    let f = parse_entry(&"x".chars().collect());
    assert_eq!(f.status, "A");
    assert_eq!(f.path, "");
}

#[test]
fn rename_uses_last_part() {
    let f = parse_entry(&"R  a -> b -> c".chars().collect());
    assert_eq!(f.status, "R");
    assert_eq!(f.path, "c");
}

#[test]
fn ahead_behind_counts() {
    assert_eq!(parse_ahead_behind("3\t5"), (3, 5));
    assert_eq!(parse_ahead_behind("  0   12 \n"), (0, 12));
    assert_eq!(parse_ahead_behind("x 2"), (0, 2));
    assert_eq!(parse_ahead_behind("+7 99999999999"), (7, 0));
    assert_eq!(parse_ahead_behind("4294967295 1"), (4294967295, 1));
    assert_eq!(parse_ahead_behind("1 2 3"), (0, 0));
    assert_eq!(parse_ahead_behind(""), (0, 0));
}

#[test]
fn info_is_assembled() {
    let i = git_info_from(
        "main".to_string(),
        " M a.rs",
        Some("1\t2"),
        "abc123".to_string(),
        "Fix it".to_string(),
    );
    assert_eq!(i.branch, "main");
    assert!(i.dirty);
    assert_eq!((i.ahead, i.behind), (1, 2));
    assert_eq!(i.last_commit_hash, "abc123");
    assert_eq!(i.last_commit_message, "Fix it");
    let clean = git_info_from(String::new(), "", None, String::new(), String::new());
    assert!(!clean.dirty);
    assert_eq!((clean.ahead, clean.behind), (0, 0));
}

#[test]
fn file_diff_holds_both_contents() {
    let d = FileDiff { old_content: "a".to_string(), new_content: "b".to_string() };
    assert_eq!(d.old_content, "a");
    assert_eq!(d.new_content, "b");
}
