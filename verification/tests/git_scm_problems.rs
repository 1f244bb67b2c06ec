use code_editor::git::{
    append_diff_line, branch_label, collect_statuses, discard_plan, shell_result, str_less, Change, DiscardPlan,
    StatusEntry, StatusFlags,
};
use code_editor::lsp::{Diagnostic, Position, Range, SEVERITY_ERROR, SEVERITY_HINT, SEVERITY_INFORMATION, SEVERITY_WARNING};
use code_editor::problems::{first_line, problem_location, problem_order, servers_label, severity_icon, total_problems};
use code_editor::scm::{
    branch_to_create, diff_line_kind, is_selected, partition_statuses, section_entries, DiffLineKind, ScmState, Section,
};

fn flags() -> StatusFlags {
    StatusFlags {
        conflicted: false,
        index_new: false,
        index_modified: false,
        index_deleted: false,
        index_renamed: false,
        index_typechange: false,
        wt_new: false,
        wt_modified: false,
        wt_deleted: false,
        wt_renamed: false,
        wt_typechange: false,
    }
}

fn entry(path: &str, change: Change, staged: bool) -> StatusEntry {
    StatusEntry { path: String::from(path), change, staged }
}

fn view(v: &[StatusEntry]) -> Vec<(String, Change, bool)> {
    v.iter().map(|e| (e.path.clone(), e.change, e.staged)).collect()
}

#[test]
fn glyphs() {
    assert_eq!(Change::Added.glyph(), "A");
    assert_eq!(Change::Modified.glyph(), "M");
    assert_eq!(Change::Deleted.glyph(), "D");
    assert_eq!(Change::Renamed.glyph(), "R");
    assert_eq!(Change::TypeChange.glyph(), "T");
    assert_eq!(Change::Untracked.glyph(), "U");
    assert_eq!(Change::Conflicted.glyph(), "!");
}

#[test]
fn string_order() {
    assert!(str_less("a", "b"));
    assert!(str_less("a", "ab"));
    assert!(!str_less("ab", "a"));
    assert!(!str_less("a", "a"));
    assert!(str_less("Z", "a"));
    assert!(str_less("é", "越"));
    for (a, b) in [("x/y", "x.y"), ("src/a.rs", "src/b.rs"), ("", "a"), ("ü", "u")] {
        assert_eq!(str_less(a, b), a < b);
    }
}

#[test]
fn statuses_are_listed_staged_first_then_by_path() {
    let mut both = flags();
    both.index_modified = true;
    both.wt_modified = true;
    let mut new_file = flags();
    new_file.wt_new = true;
    let mut added = flags();
    added.index_new = true;
    let mut unnamed = flags();
    unnamed.index_new = true;
    let mut conflict = flags();
    conflict.conflicted = true;
    conflict.index_new = true;
    let mut renamed = flags();
    renamed.index_renamed = true;
    renamed.wt_deleted = true;
    let files = vec![
        (Some(String::from("z.rs")), new_file),
        (Some(String::from("m.rs")), both),
        (None, unnamed),
        (Some(String::from("c.rs")), conflict),
        (Some(String::from("a.rs")), added),
        (Some(String::from("r.rs")), renamed),
        (Some(String::from("clean.rs")), flags()),
    ];
    let out = collect_statuses(&files);
    assert_eq!(
        view(&out),
        vec![
            (String::from("a.rs"), Change::Added, true),
            (String::from("m.rs"), Change::Modified, true),
            (String::from("r.rs"), Change::Renamed, true),
            (String::from("c.rs"), Change::Conflicted, false),
            (String::from("m.rs"), Change::Modified, false),
            (String::from("r.rs"), Change::Deleted, false),
            (String::from("z.rs"), Change::Untracked, false),
        ]
    );
    assert!(out.iter().all(|e| !(e.staged && e.change == Change::Conflicted)));
}

#[test]
fn branch_labels() {
    assert_eq!(branch_label(None), "(no commits)");
    assert_eq!(branch_label(Some((Some(String::from("main")), Some(String::from("abc"))))), "main");
    assert_eq!(branch_label(Some((None, Some(String::from("0123456789abcdef"))))), "(0123456)");
    assert_eq!(branch_label(Some((None, Some(String::from("abc"))))), "(abc)");
    assert_eq!(branch_label(Some((None, None))), "(no branch)");
}

#[test]
fn shell_results() {
    assert_eq!(shell_result(true, String::from("out"), String::from("err")), Ok(String::from("out")));
    assert_eq!(shell_result(true, String::new(), String::from("err")), Ok(String::from("err")));
    assert_eq!(shell_result(false, String::from("out"), String::from("err")), Err(String::from("err")));
    assert_eq!(shell_result(false, String::from("out"), String::new()), Err(String::from("out")));
}

#[test]
fn discard_plans() {
    assert!(matches!(discard_plan(&entry("n.txt", Change::Untracked, false)), DiscardPlan::RemoveFile(p) if p == "n.txt"));
    assert!(matches!(discard_plan(&entry("m.txt", Change::Modified, false)), DiscardPlan::CheckoutHead(p) if p == "m.txt"));
}

#[test]
fn diff_lines() {
    let mut out = String::new();
    append_diff_line(&mut out, 'F', "diff --git a/x b/x\n");
    append_diff_line(&mut out, 'H', "@@ -1 +1 @@\n");
    append_diff_line(&mut out, '-', "old\n");
    append_diff_line(&mut out, '+', "new\n");
    append_diff_line(&mut out, ' ', "same\n");
    assert_eq!(out, "diff --git a/x b/x\n@@ -1 +1 @@\n-old\n+new\n same\n");
}

#[test]
fn panel_sections() {
    let s = ScmState::new();
    assert!(s.statuses.is_empty());
    assert!(s.selected.is_none());
    let statuses = vec![
        entry("a", Change::Added, true),
        entry("c", Change::Conflicted, false),
        entry("m", Change::Modified, false),
        entry("u", Change::Untracked, false),
        entry("d", Change::Deleted, false),
    ];
    let (staged, conflicts, changes, untracked) = partition_statuses(&statuses);
    assert_eq!(view(&staged), vec![(String::from("a"), Change::Added, true)]);
    assert_eq!(view(&conflicts), vec![(String::from("c"), Change::Conflicted, false)]);
    assert_eq!(view(&changes), vec![(String::from("m"), Change::Modified, false), (String::from("d"), Change::Deleted, false)]);
    assert_eq!(view(&untracked), vec![(String::from("u"), Change::Untracked, false)]);
    assert_eq!(staged.len() + conflicts.len() + changes.len() + untracked.len(), statuses.len());
    assert_eq!(view(&section_entries(&statuses, Section::Changes)), view(&changes));
}

#[test]
fn branch_names_and_selection() {
    assert_eq!(branch_to_create("  feature/x \n"), Some(String::from("feature/x")));
    assert_eq!(branch_to_create(" \t "), None);
    let e = entry("src/a.rs", Change::Modified, false);
    assert!(is_selected(&Some((String::from("src/a.rs"), false)), &e));
    assert!(!is_selected(&Some((String::from("src/a.rs"), true)), &e));
    assert!(!is_selected(&None, &e));
}

#[test]
fn diff_line_kinds() {
    assert!(matches!(diff_line_kind("+added"), DiffLineKind::Added));
    assert!(matches!(diff_line_kind("+++ b/file"), DiffLineKind::Context));
    assert!(matches!(diff_line_kind("++"), DiffLineKind::Added));
    assert!(matches!(diff_line_kind("-removed"), DiffLineKind::Removed));
    assert!(matches!(diff_line_kind("--- a/file"), DiffLineKind::Context));
    assert!(matches!(diff_line_kind("@@ -1 +1 @@"), DiffLineKind::Hunk));
    assert!(matches!(diff_line_kind(" ctx"), DiffLineKind::Context));
    assert!(matches!(diff_line_kind(""), DiffLineKind::Context));
}

fn diag(line: u32, character: u32, sev: Option<i32>, msg: &str) -> Diagnostic {
    Diagnostic {
        range: Range { start: Position { line, character }, end: Position { line, character } },
        severity: sev,
        message: String::from(msg),
    }
}

#[test]
fn problem_rows() {
    assert_eq!(severity_icon(Some(SEVERITY_ERROR)), "✗");
    assert_eq!(severity_icon(Some(SEVERITY_WARNING)), "⚠");
    assert_eq!(severity_icon(Some(SEVERITY_INFORMATION)), "ℹ");
    assert_eq!(severity_icon(Some(SEVERITY_HINT)), "·");
    assert_eq!(severity_icon(Some(9)), "·");
    assert_eq!(severity_icon(None), "·");
    assert_eq!(problem_location(&diag(0, 0, None, "")), (1, 1));
    assert_eq!(problem_location(&diag(41, 7, None, "")), (42, 8));
    assert_eq!(first_line("first\r\nsecond"), "first");
    assert_eq!(first_line("first\nsecond"), "first");
    assert_eq!(first_line("only"), "only");
    assert_eq!(first_line(""), "");
    for s in ["a\r\nb", "x\n", "\r\n", "no newline\r"] {
        assert_eq!(first_line(s), s.lines().next().unwrap_or(""));
    }
}

#[test]
fn problem_totals_and_order() {
    let entries = vec![
        (String::from("file:///b"), vec![diag(0, 0, None, "x"), diag(1, 0, None, "y")]),
        (String::from("file:///a"), vec![]),
        (String::from("file:///c"), vec![diag(2, 0, None, "z")]),
        (String::from("file:///a"), vec![diag(3, 0, None, "w")]),
    ];
    assert_eq!(total_problems(&entries), 4);
    assert_eq!(problem_order(&entries), vec![1, 3, 0, 2]);
    assert_eq!(servers_label(&vec![String::from("rust"), String::from("go")]), "servers: rust, go");
    assert_eq!(servers_label(&vec![String::from("c")]), "servers: c");
    assert_eq!(servers_label(&Vec::new()), "servers: ");
}
