use code_editor::app::CodeEditorApp;
use code_editor::tabs::{detect_language, OpenFile, TabBar};

#[test]
fn languages_by_extension() {
    assert_eq!(detect_language("/src/main.rs"), "rs");
    assert_eq!(detect_language("a.tsx"), "ts");
    assert_eq!(detect_language("a.jsx"), "js");
    assert_eq!(detect_language("x.hh"), "cpp");
    assert_eq!(detect_language("x.h"), "c");
    assert_eq!(detect_language("run.bash"), "sh");
    assert_eq!(detect_language("conf.yml"), "yaml");
    assert_eq!(detect_language("notes"), "txt");
    assert_eq!(detect_language("weird.RS"), "txt");
}

#[test]
fn untitled_buffer() {
    let f = OpenFile::untitled();
    assert!(f.path.is_none());
    assert_eq!(f.display_name, "untitled");
    assert_eq!(f.language, "plain");
    assert!(!f.is_dirty());
}

#[test]
fn opened_buffer_is_clean_until_edited() {
    let mut f = OpenFile::from_path("/p/lib.py", String::from("x = 1\n"));
    assert_eq!(f.path.as_deref(), Some("/p/lib.py"));
    assert_eq!(f.display_name, "lib.py");
    assert_eq!(f.language, "py");
    assert!(!f.is_dirty());
    f.content.push_str("y = 2\n");
    assert!(f.is_dirty());
    f.save_to("/p/other.go");
    assert!(!f.is_dirty());
    assert_eq!(f.path.as_deref(), Some("/p/other.go"));
    assert_eq!(f.display_name, "other.go");
    assert_eq!(f.language, "go");
}

#[test]
fn adding_an_open_path_shows_it_again() {
    let mut t = TabBar::new();
    t.add_file(OpenFile::from_path("/a.rs", String::from("a")));
    t.add_file(OpenFile::from_path("/b.rs", String::from("b")));
    assert_eq!(t.files.len(), 2);
    assert_eq!(t.active, Some(1));
    t.add_file(OpenFile::from_path("/a.rs", String::from("other")));
    assert_eq!(t.files.len(), 2);
    assert_eq!(t.active, Some(0));
    assert_eq!(t.active().unwrap().content, "a");
    // the same file under another spelling of its path
    t.add_file(OpenFile::from_path("//b.rs", String::from("b2")));
    assert_eq!(t.files.len(), 2);
    assert_eq!(t.active, Some(1));
}

#[test]
fn untitled_buffers_are_always_added() {
    let mut t = TabBar::new();
    t.add_file(OpenFile::untitled());
    t.add_file(OpenFile::untitled());
    assert_eq!(t.files.len(), 2);
    assert_eq!(t.active, Some(1));
}

#[test]
fn closing_the_active_tab() {
    let mut t = TabBar::new();
    for p in ["/a", "/b", "/c"] {
        t.add_file(OpenFile::from_path(p, String::new()));
    }
    t.activate(1);
    t.close_active();
    assert_eq!(t.files.len(), 2);
    assert_eq!(t.active, Some(1));
    assert_eq!(t.active().unwrap().display_name, "c");
    t.close_active();
    assert_eq!(t.active, Some(0));
    t.close_active();
    assert_eq!(t.active, None);
    assert!(t.files.is_empty());
    t.close_active();
    assert_eq!(t.active, None);
}

#[test]
fn closing_another_tab_keeps_the_shown_one() {
    let mut t = TabBar::new();
    for p in ["/a", "/b", "/c", "/d"] {
        t.add_file(OpenFile::from_path(p, String::new()));
    }
    t.activate(2);
    t.close_tab(0);
    assert_eq!(t.active, Some(1));
    assert_eq!(t.active().unwrap().display_name, "c");
    t.close_tab(2);
    assert_eq!(t.active, Some(1));
    t.close_tab(1);
    assert_eq!(t.active, Some(0));
    assert_eq!(t.active().unwrap().display_name, "b");
    t.close_tab(0);
    assert_eq!(t.active, None);
    assert!(t.files.is_empty());
}

#[test]
fn active_mut_edits_the_shown_buffer() {
    let mut t = TabBar::new();
    t.add_file(OpenFile::from_path("/a.rs", String::from("fn")));
    if let Some(f) = t.active_mut() {
        f.content.push_str(" main");
    }
    assert_eq!(t.files[0].content, "fn main");
    assert!(t.files[0].is_dirty());
    let mut empty = TabBar::new();
    assert!(empty.active_mut().is_none());
}

#[test]
fn save_active_reports_the_path() {
    let mut t = TabBar::new();
    assert_eq!(t.save_active(Ok(())), Ok(None));
    t.add_file(OpenFile::untitled());
    assert_eq!(t.save_active(Ok(())), Ok(None));
    t.add_file(OpenFile::from_path("/a.rs", String::from("x")));
    t.active_mut().unwrap().content.push('y');
    assert_eq!(t.save_active(Err(String::from("disk full"))), Err(String::from("disk full")));
    assert!(t.files[1].is_dirty());
    assert_eq!(t.active_path(), Some(String::from("/a.rs")));
    assert_eq!(t.save_active(Ok(())), Ok(Some(String::from("/a.rs"))));
    assert!(!t.files[1].is_dirty());
    assert_eq!(t.files[1].on_disk, "xy");
}

#[test]
fn save_active_as_renames() {
    let mut t = TabBar::new();
    assert_eq!(t.save_active_as("/x.md", Ok(())), Ok(()));
    t.add_file(OpenFile::untitled());
    t.active_mut().unwrap().content.push_str("# hi");
    assert_eq!(t.save_active_as("/x.md", Err(String::from("denied"))), Err(String::from("denied")));
    assert!(t.files[0].path.is_none());
    assert_eq!(t.save_active_as("/x.md", Ok(())), Ok(()));
    assert_eq!(t.files[0].path.as_deref(), Some("/x.md"));
    assert_eq!(t.files[0].display_name, "x.md");
    assert_eq!(t.files[0].language, "md");
    assert!(!t.files[0].is_dirty());
}

#[test]
fn app_starts_ready() {
    let a = CodeEditorApp::new();
    assert_eq!(a.status_message, "Ready");
    assert!(a.show_explorer);
    assert!(a.tabs.files.is_empty());
    assert!(a.explorer.root().is_none());
}

#[test]
fn app_new_open_and_close() {
    let mut a = CodeEditorApp::new();
    a.action_new_file();
    assert_eq!(a.status_message, "New file");
    assert_eq!(a.tabs.files.len(), 1);
    a.open_path("/w/main.rs", Ok(String::from("fn main() {}")));
    assert_eq!(a.status_message, "Opened /w/main.rs");
    assert_eq!(a.tabs.active, Some(1));
    a.open_path("/w/missing.rs", Err(String::from("No such file")));
    assert_eq!(a.status_message, "Open failed: No such file");
    assert_eq!(a.tabs.files.len(), 2);
    a.action_close_active();
    assert_eq!(a.tabs.files.len(), 1);
    assert_eq!(a.tabs.active, Some(0));
}

#[test]
fn app_save_flow() {
    let mut a = CodeEditorApp::new();
    assert!(a.action_save(Ok(())));
    a.action_new_file();
    assert!(a.action_save(Ok(())));
    a.action_save_as("/w/new.txt", Ok(()));
    assert_eq!(a.status_message, "Saved /w/new.txt");
    assert!(!a.action_save(Ok(())));
    assert_eq!(a.status_message, "Saved /w/new.txt");
    assert!(!a.action_save(Err(String::from("read-only"))));
    assert_eq!(a.status_message, "Save failed: read-only");
    a.action_save_as("/w/b.txt", Err(String::from("nope")));
    assert_eq!(a.status_message, "Save failed: nope");
}

#[test]
fn app_folder_and_explorer_toggle() {
    let mut a = CodeEditorApp::new();
    a.action_open_folder(String::from("/proj"));
    assert_eq!(a.status_message, "Opened folder /proj");
    assert_eq!(a.explorer.root().map(|s| s.as_str()), Some("/proj"));
    assert!(a.explorer.is_expanded("/proj"));
    a.toggle_explorer();
    assert!(!a.show_explorer);
    a.toggle_explorer();
    assert!(a.show_explorer);
}

#[test]
fn tab_labels_mark_unsaved_edits() {
    let mut f = OpenFile::from_path("/w/a.rs", String::from("x"));
    assert_eq!(f.tab_label(), "a.rs");
    f.content.push('y');
    assert_eq!(f.tab_label(), "● a.rs");
    f.save_to("/w/a.rs");
    assert_eq!(f.tab_label(), "a.rs");
}

#[test]
fn app_close_shows_the_neighbour() {
    let mut a = CodeEditorApp::new();
    for p in ["/w/a", "/w/b", "/w/c"] {
        a.open_path(p, Ok(String::new()));
    }
    a.tabs.activate(1);
    a.action_close_active();
    assert_eq!(a.tabs.active, Some(1));
    assert_eq!(a.tabs.active().unwrap().display_name, "c");
    a.action_close_active();
    assert_eq!(a.tabs.active, Some(0));
    assert!(a.show_explorer);
}

#[test]
fn app_new_file_cursor_starts_at_origin() {
    let mut a = CodeEditorApp::new();
    a.action_new_file();
    let f = a.tabs.active().unwrap();
    assert_eq!((f.cursor_line, f.cursor_col), (0, 0));
    assert_eq!(f.language, "plain");
}
