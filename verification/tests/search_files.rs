use code_editor::search::{
    group_by_path, group_title, line_label, looks_binary, search_content, shown_snippet, skipped_dir, SearchOptions,
    SearchResult, MAX_FILE_SIZE, MAX_RESULTS,
};

fn opts(case_sensitive: bool) -> SearchOptions {
    SearchOptions { case_sensitive }
}

#[test]
fn limits() {
    assert_eq!(MAX_RESULTS, 1000);
    assert_eq!(MAX_FILE_SIZE, 1_000_000);
}

#[test]
fn skipped_folders() {
    for d in [".git", "target", "node_modules", "dist", "build", ".venv", "venv", "__pycache__", ".idea", ".vscode", ".next", ".cache"] {
        assert!(skipped_dir(d), "{d}");
    }
    assert!(!skipped_dir("src"));
    assert!(!skipped_dir(".github"));
    assert!(!skipped_dir("Target"));
}

#[test]
fn binary_detection_looks_at_first_8192_bytes() {
    assert!(!looks_binary(b"plain text"));
    assert!(looks_binary(b"a\0b"));
    let mut late = vec![b'a'; 9000];
    late[8192] = 0;
    assert!(!looks_binary(&late));
    late[8191] = 0;
    assert!(looks_binary(&late));
    assert!(!looks_binary(&[]));
}

#[test]
fn results_of_one_file() {
    let mut results: Vec<SearchResult> = Vec::new();
    let content = "fn main() {\n    let x = main_loop();  \n}\n";
    let r = search_content(&mut results, "/p/a.rs", content, "main", &opts(true));
    assert_eq!(r, Some(false));
    assert_eq!(results.len(), 2);
    assert_eq!(results[0].path, "/p/a.rs");
    assert_eq!(results[0].line, 1);
    assert_eq!(results[0].byte_start, 3);
    assert_eq!(results[0].byte_end, 7);
    assert_eq!(results[0].snippet, "fn main() {");
    assert_eq!(results[1].line, 2);
    assert_eq!(results[1].byte_start, 24);
    assert_eq!(results[1].byte_end, 28);
    assert_eq!(results[1].snippet, "    let x = main_loop();");
}

#[test]
fn case_insensitive_results() {
    let mut results: Vec<SearchResult> = Vec::new();
    let r = search_content(&mut results, "f", "Alpha\nALPHA alpha\n", "alpha", &opts(false));
    assert_eq!(r, Some(false));
    let starts: Vec<usize> = results.iter().map(|r| r.byte_start).collect();
    assert_eq!(starts, vec![0, 6, 12]);
    let lines: Vec<u32> = results.iter().map(|r| r.line).collect();
    assert_eq!(lines, vec![1, 2, 2]);
    let mut cs: Vec<SearchResult> = Vec::new();
    search_content(&mut cs, "f", "Alpha\nALPHA alpha\n", "alpha", &opts(true));
    assert_eq!(cs.len(), 1);
}

#[test]
fn matches_do_not_overlap() {
    let mut results: Vec<SearchResult> = Vec::new();
    search_content(&mut results, "f", "aaaa", "aa", &opts(true));
    let starts: Vec<usize> = results.iter().map(|r| r.byte_start).collect();
    assert_eq!(starts, vec![0, 2]);
}

#[test]
fn empty_query_and_length_changing_case_find_nothing() {
    let mut results: Vec<SearchResult> = Vec::new();
    assert_eq!(search_content(&mut results, "f", "abc", "", &opts(true)), Some(false));
    assert_eq!(search_content(&mut results, "f", "İ abc", "abc", &opts(false)), Some(false));
    assert!(results.is_empty());
}

#[test]
fn search_stops_at_the_limit() {
    let mut results: Vec<SearchResult> = Vec::new();
    let content = "x".repeat(1500);
    assert_eq!(search_content(&mut results, "f", &content, "x", &opts(true)), Some(true));
    assert_eq!(results.len(), MAX_RESULTS);
    assert_eq!(results[999].byte_start, 999);
}

#[test]
fn search_fills_up_to_the_limit_across_files() {
    let mut results: Vec<SearchResult> = Vec::new();
    let content = "y".repeat(600);
    assert_eq!(search_content(&mut results, "a", &content, "y", &opts(true)), Some(false));
    assert_eq!(search_content(&mut results, "b", &content, "y", &opts(true)), Some(true));
    assert_eq!(results.len(), MAX_RESULTS);
    assert_eq!(results[599].path, "a");
    assert_eq!(results[600].path, "b");
}

fn result(path: &str) -> SearchResult {
    SearchResult { path: String::from(path), line: 1, byte_start: 0, byte_end: 1, snippet: String::new() }
}

#[test]
fn consecutive_results_are_grouped() {
    let rs = vec![result("/a"), result("/a"), result("/b"), result("/a"), result("//a")];
    let g = group_by_path(&rs);
    assert_eq!(g.len(), 3);
    assert_eq!(g[0], (String::from("/a"), vec![0, 1]));
    assert_eq!(g[1], (String::from("/b"), vec![2]));
    assert_eq!(g[2], (String::from("/a"), vec![3, 4]));
    let all: Vec<usize> = g.iter().flat_map(|(_, v)| v.iter().copied()).collect();
    assert_eq!(all, vec![0, 1, 2, 3, 4]);
    assert!(group_by_path(&[]).is_empty());
}

#[test]
fn result_row_texts() {
    assert_eq!(line_label(7), "   7:");
    assert_eq!(line_label(1234), "1234:");
    assert_eq!(line_label(123456), "123456:");
    assert_eq!(group_title("main.rs", 3), "main.rs  (3)");
    assert_eq!(shown_snippet("short"), "short");
    let long = "é".repeat(150);
    let shown = shown_snippet(&long);
    assert_eq!(shown.len(), 200);
    assert_eq!(shown, "é".repeat(100));
}
