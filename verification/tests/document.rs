use rust_macos_gui::document::{
    allowed_file_types, count_lines, file_name, format_count_label, StatusLabels,
};

#[test]
fn file_name_is_last_component() {
    assert_eq!(file_name("/Users/me/notes/todo.txt"), "todo.txt");
    assert_eq!(file_name("todo.txt"), "todo.txt");
    assert_eq!(file_name("/dir/"), "");
    assert_eq!(file_name(""), "");
    assert_eq!(file_name("/"), "");
    assert_eq!(file_name("a/b/ç.md"), "ç.md");
}

#[test]
fn file_name_matches_split_last() {
    for p in ["/a/b", "a", "", "/x/", "//y", "ü/é"] {
        assert_eq!(file_name(p), p.split('/').last().unwrap_or(p));
    }
}

#[test]
fn line_counts() {
    assert_eq!(count_lines(""), 0);
    assert_eq!(count_lines("a"), 1);
    assert_eq!(count_lines("a\n"), 1);
    assert_eq!(count_lines("a\nb"), 2);
    assert_eq!(count_lines("\n\n"), 2);
    assert_eq!(count_lines("a\r\nb\r\n"), 2);
    assert_eq!(count_lines("a\r"), 1);
}

#[test]
fn line_counts_match_std() {
    for t in ["", "x", "x\n", "\n", "x\ny\n\nz", "é\r\n😀", "\n\n\n"] {
        assert_eq!(count_lines(t), t.lines().count());
    }
}

#[test]
fn line_counts_add_up() {
    let a = "one\ntwo\n";
    let b = "three\nfour";
    assert_eq!(count_lines(&format!("{}{}", a, b)), count_lines(a) + count_lines(b));
    assert_eq!(count_lines("last line\n"), count_lines("last line"));
}

#[test]
fn count_labels() {
    assert_eq!(format_count_label("Bytes: ", 0), "Bytes: 0");
    assert_eq!(format_count_label("Lines: ", 1234), "Lines: 1,234");
}

#[test]
fn initial_status() {
    let s = StatusLabels::initial();
    assert_eq!(s.file, "No file loaded");
    assert_eq!(s.bytes, "Bytes: 0");
    assert_eq!(s.lines, "Lines: 0");
    let e = StatusLabels::for_file("/tmp/empty.txt", "");
    assert_eq!(e.bytes, s.bytes);
    assert_eq!(e.lines, s.lines);
}

#[test]
fn status_of_loaded_file() {
    let contents = "é\n".repeat(1000);
    let s = StatusLabels::for_file("/home/u/big.txt", &contents);
    assert_eq!(s.file, "big.txt");
    assert_eq!(s.bytes, "Bytes: 3,000");
    assert_eq!(s.lines, "Lines: 1,000");
}

#[test]
fn open_dialog_file_types() {
    let t = allowed_file_types();
    assert_eq!(t.len(), 20);
    assert_eq!(t[0], "txt");
    assert_eq!(t[19], "pdf");
    assert!(t.contains(&"rs"));
    assert!(t.contains(&"markdown"));
    assert!(!t.contains(&"exe"));
}
