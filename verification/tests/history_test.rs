use mip::history::{history_path, CommandHistory};

#[test]
fn test_push_and_filter() {
    let mut h = CommandHistory::new(50);
    h.push("open foo.md");
    h.push("open bar.md");
    h.push("q");
    assert_eq!(h.filter("open"), vec!["open foo.md", "open bar.md"]);
    assert_eq!(h.filter("q"), vec!["q"]);
    assert_eq!(h.filter("z"), Vec::<&str>::new());
}

#[test]
fn test_dedup_moves_to_end() {
    let mut h = CommandHistory::new(50);
    h.push("open foo.md");
    h.push("q");
    h.push("open foo.md");
    assert_eq!(h.filter(""), vec!["q", "open foo.md"]);
}

#[test]
fn test_max_size_trims_oldest() {
    let mut h = CommandHistory::new(3);
    h.push("a");
    h.push("b");
    h.push("c");
    h.push("d");
    assert_eq!(h.filter(""), vec!["b", "c", "d"]);
}

#[test]
fn test_empty_and_whitespace_ignored() {
    let mut h = CommandHistory::new(50);
    h.push("");
    h.push("  ");
    assert_eq!(h.filter(""), Vec::<&str>::new());
}

#[test]
fn test_load_save_roundtrip() {
    let mut h = CommandHistory::new(50);
    h.push("open foo.md");
    h.push("q");
    let saved = h.to_content();

    let h2 = CommandHistory::load(Some(&saved), 50);
    assert_eq!(h2.filter(""), vec!["open foo.md", "q"]);
}

#[test]
fn test_load_missing_file() {
    let h = CommandHistory::load(None, 50);
    assert_eq!(h.filter(""), Vec::<&str>::new());
}

#[test]
fn test_load_trims_to_max_size() {
    let mut content = String::new();
    for i in 0..100 {
        content.push_str(&format!("cmd{}\n", i));
    }
    let h = CommandHistory::load(Some(&content), 10);
    assert_eq!(h.filter("").len(), 10);
    assert_eq!(h.filter("").last(), Some(&"cmd99"));
}

#[test]
fn test_filter_empty_prefix_returns_all() {
    let mut h = CommandHistory::new(50);
    h.push("a");
    h.push("b");
    h.push("c");
    assert_eq!(h.filter(""), vec!["a", "b", "c"]);
}

#[test]
fn push_trims_the_command() {
    let mut h = CommandHistory::new(5);
    h.push("  open x.md \t");
    h.push("open x.md");
    assert_eq!(h.filter(""), vec!["open x.md"]);
}

#[test]
fn load_skips_empty_lines_and_carriage_returns() {
    let h = CommandHistory::load(Some("a\r\n\r\n\nb\n\nc"), 50);
    assert_eq!(h.filter(""), vec!["a", "b", "c"]);
    let kept = CommandHistory::load(Some("x\ry"), 50);
    assert_eq!(kept.filter(""), vec!["x\ry"]);
}

#[test]
fn content_is_the_entries_one_per_line() {
    let mut h = CommandHistory::new(50);
    assert_eq!(h.to_content(), "");
    h.push("a");
    h.push("b");
    assert_eq!(h.to_content(), "a\nb");
}

#[test]
fn zero_sized_history_keeps_nothing() {
    let mut h = CommandHistory::new(0);
    h.push("q");
    assert_eq!(h.filter(""), Vec::<&str>::new());
}

#[test]
fn history_path_prefers_the_state_home() {
    assert_eq!(history_path(Some("/s"), Some("/h")), "/s/miprs/history");
    assert_eq!(history_path(None, Some("/h")), "/h/.local/state/miprs/history");
    assert_eq!(history_path(None, None), "./.local/state/miprs/history");
}

#[test]
fn pushes_keep_entries_distinct_trimmed_and_bounded() {
    let mut h = CommandHistory::new(3);
    for cmd in ["  a ", "b", "a", "\tc", "b  ", "d", "   "] {
        h.push(cmd);
    }
    assert_eq!(h.filter(""), vec!["c", "b", "d"]);
}

#[test]
fn a_loaded_history_saves_and_loads_back_unchanged() {
    let h = CommandHistory::load(Some("x\n\ny\r\nz"), 5);
    assert_eq!(h.filter(""), vec!["x", "y", "z"]);
    let h2 = CommandHistory::load(Some(&h.to_content()), 5);
    assert_eq!(h2.filter(""), h.filter(""));
}
