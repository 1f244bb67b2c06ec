use code_editor::editor::{line_col, line_start_char};
use code_editor::explorer::{file_icon, sorted_entry_order, FileExplorer};

#[test]
fn line_and_column_of_positions() {
    let t = "ab\ncd\n\nef";
    assert_eq!(line_col(t, 0), (0, 0));
    assert_eq!(line_col(t, 2), (0, 2));
    assert_eq!(line_col(t, 3), (1, 0));
    assert_eq!(line_col(t, 5), (1, 2));
    assert_eq!(line_col(t, 6), (2, 0));
    assert_eq!(line_col(t, 7), (3, 0));
    assert_eq!(line_col(t, 9), (3, 2));
    assert_eq!(line_col(t, 100), (3, 2));
    assert_eq!(line_col("", 5), (0, 0));
}

#[test]
fn line_starts() {
    let t = "ab\ncd\n\nef";
    assert_eq!(line_start_char(t, 0), 0);
    assert_eq!(line_start_char(t, 1), 0);
    assert_eq!(line_start_char(t, 2), 3);
    assert_eq!(line_start_char(t, 3), 6);
    assert_eq!(line_start_char(t, 4), 7);
    assert_eq!(line_start_char(t, 5), 9);
    assert_eq!(line_start_char(t, 50), 9);
    assert_eq!(line_start_char("é\nü", 2), 2);
}

#[test]
fn line_col_locates_positions() {
    let t = "fn main() {\n    let x = 1;\n\n}\n";
    for k in 0..=t.chars().count() {
        let (line, col) = line_col(t, k);
        assert_eq!(line_start_char(t, line as u32 + 1) + col, k);
    }
}

#[test]
fn icons_by_extension() {
    assert_eq!(file_icon("/a/main.rs"), "🦀");
    assert_eq!(file_icon("README.md"), "📝");
    assert_eq!(file_icon("Cargo.toml"), "⚙");
    assert_eq!(file_icon("x.json"), "⚙");
    assert_eq!(file_icon("logo.svg"), "🖼");
    assert_eq!(file_icon("photo.jpeg"), "🖼");
    assert_eq!(file_icon("Makefile"), "📄");
    assert_eq!(file_icon("a.py"), "📄");
}

#[test]
fn explorer_root_and_expansion() {
    let mut e = FileExplorer::new();
    assert!(e.root().is_none());
    assert!(!e.is_expanded("/p"));
    e.set_root(String::from("/p"));
    assert_eq!(e.root().map(|s| s.as_str()), Some("/p"));
    assert!(e.is_expanded("/p"));
    assert!(e.is_expanded("/p/"));
    e.set_expanded("/p/src", true);
    assert!(e.is_expanded("/p/src"));
    e.set_expanded("/p/src", true);
    e.set_expanded("/p/src", false);
    assert!(!e.is_expanded("/p/src"));
    assert!(e.is_expanded("/p"));
    e.set_expanded("/p/nothing", false);
    assert!(e.is_expanded("/p"));
    e.set_root(String::from("/q"));
    assert!(!e.is_expanded("/p"));
    assert!(e.is_expanded("/q"));
}

#[test]
fn folders_first_then_names_ignoring_case() {
    let entries = vec![
        (false, String::from("b.txt")),
        (true, String::from("src")),
        (false, String::from("A.txt")),
        (true, String::from("Docs")),
        (false, String::from("a.txt")),
    ];
    let order = sorted_entry_order(&entries);
    assert_eq!(order, vec![3, 1, 2, 4, 0]);
    let names: Vec<&str> = order.iter().map(|&i| entries[i].1.as_str()).collect();
    assert_eq!(names, vec!["Docs", "src", "A.txt", "a.txt", "b.txt"]);
    assert_eq!(sorted_entry_order(&Vec::new()), Vec::<usize>::new());
}
