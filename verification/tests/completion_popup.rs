use code_editor::completion::{
    contains_str, kind_glyph, resolve_insertion, row_text, CompletionAction, CompletionItem, CompletionKey,
    CompletionState, CompletionTextEdit, InsertReplaceEdit, SignatureHelp, SignatureHelpState, SignatureInformation,
    TextEdit,
};
use code_editor::lsp::{Position, Range};

fn item(label: &str) -> CompletionItem {
    CompletionItem { label: String::from(label), kind: None, detail: None, filter_text: None, insert_text: None, text_edit: None }
}

fn pos(line: u32, character: u32) -> Position {
    Position { line, character }
}

fn accepted_label(a: Option<CompletionAction>) -> Option<String> {
    match a {
        Some(CompletionAction::Accept(it)) => Some(it.label),
        _ => None,
    }
}

#[test]
fn substring_search() {
    assert!(contains_str("println", "int"));
    assert!(contains_str("abc", ""));
    assert!(!contains_str("ab", "abc"));
    assert!(!contains_str("abc", "ac"));
    assert!(contains_str("aaab", "aab"));
}

#[test]
fn new_popup_is_closed() {
    let s = CompletionState::new();
    assert!(!s.open);
    assert!(s.items.is_empty());
    assert_eq!(s.selected, 0);
    assert_eq!(s.invocation_id, 0);
}

#[test]
fn invocation_ids_count_up_and_wrap() {
    let mut s = CompletionState::new();
    assert_eq!(s.next_invocation(), 1);
    assert_eq!(s.next_invocation(), 2);
    s.invocation_id = u64::MAX;
    assert_eq!(s.next_invocation(), 0);
}

#[test]
fn items_are_filtered_by_prefix_ignoring_case() {
    let mut s = CompletionState::new();
    let mut with_filter = item("Vec::new");
    with_filter.filter_text = Some(String::from("new"));
    s.set_items(vec![item("println"), item("PRINT"), item("format"), with_filter], "Pri");
    assert!(s.open);
    assert_eq!(s.filtered, vec![0, 1]);
    assert_eq!(s.selected, 0);
    s.typed_prefix = String::from("ew");
    s.refilter();
    assert_eq!(s.filtered, vec![3]);
    s.typed_prefix = String::new();
    s.refilter();
    assert_eq!(s.filtered, vec![0, 1, 2, 3]);
    s.set_items(vec![item("a")], "zz");
    assert!(!s.open);
    assert!(s.filtered.is_empty());
}

#[test]
fn refilter_resets_a_selection_out_of_range() {
    let mut s = CompletionState::new();
    s.set_items(vec![item("ab"), item("abc"), item("abcd")], "");
    s.selected = 2;
    s.typed_prefix = String::from("abcd");
    s.refilter();
    assert_eq!(s.filtered, vec![2]);
    assert_eq!(s.selected, 0);
}

#[test]
fn keys_move_and_accept() {
    let mut s = CompletionState::new();
    s.set_items(vec![item("alpha"), item("beta"), item("gamma")], "");
    assert!(s.handle_key(CompletionKey::Down).is_none());
    assert_eq!(s.selected, 1);
    s.handle_key(CompletionKey::Down);
    s.handle_key(CompletionKey::Down);
    assert_eq!(s.selected, 0);
    s.handle_key(CompletionKey::Up);
    assert_eq!(s.selected, 2);
    assert_eq!(accepted_label(s.handle_key(CompletionKey::Enter)), Some(String::from("gamma")));
    s.handle_key(CompletionKey::Up);
    assert_eq!(accepted_label(s.handle_key(CompletionKey::Tab)), Some(String::from("beta")));
    assert!(matches!(s.handle_key(CompletionKey::Escape), Some(CompletionAction::Cancel)));
}

#[test]
fn closed_popup_ignores_keys() {
    let mut s = CompletionState::new();
    assert!(s.handle_key(CompletionKey::Enter).is_none());
    s.set_items(vec![item("x")], "");
    s.close();
    assert!(!s.open);
    assert!(s.items.is_empty());
    assert!(s.handle_key(CompletionKey::Down).is_none());
    assert_eq!(s.selected, 0);
}

#[test]
fn signature_help_window() {
    let mut h = SignatureHelpState::new();
    assert!(!h.open);
    h.set(SignatureHelp {
        signatures: vec![SignatureInformation { label: String::from("fn f(a: u8)"), documentation: None }],
        active_signature: Some(0),
    });
    assert!(h.open);
    assert_eq!(h.help.as_ref().unwrap().signatures[0].label, "fn f(a: u8)");
}

#[test]
fn glyphs_by_kind() {
    let mut it = item("x");
    let cases = [(3, "ƒ"), (2, "ƒ"), (6, "α"), (7, "C"), (22, "C"), (8, "E"), (13, "E"), (5, "·"), (10, "·"), (14, "K"), (15, "❖"), (21, "ᴋ"), (9, "M"), (1, "▢"), (25, "▢")];
    for (k, g) in cases {
        it.kind = Some(k);
        assert_eq!(kind_glyph(&it), g, "kind {k}");
    }
    it.kind = None;
    assert_eq!(kind_glyph(&it), "▢");
}

#[test]
fn row_texts() {
    let mut it = item("push");
    it.kind = Some(2);
    assert_eq!(row_text(&it), "ƒ  push");
    it.detail = Some(String::from("fn(&mut self, T)"));
    assert_eq!(row_text(&it), "ƒ  push  ·  fn(&mut self, T)");
}

#[test]
fn insertion_without_edit_replaces_the_typed_prefix() {
    let mut it = item("println!");
    assert_eq!(resolve_insertion(&it, "pri", 3, 3), (String::from("println!"), 0, 3));
    it.insert_text = Some(String::from("println!(\"\")"));
    assert_eq!(resolve_insertion(&it, "x pri", 5, 3), (String::from("println!(\"\")"), 2, 5));
    assert_eq!(resolve_insertion(&it, "pr", 2, 5), (String::from("println!(\"\")"), 0, 2));
}

#[test]
fn insertion_with_edits_uses_their_ranges() {
    let content = "let v = Ve\nfoo.ba";
    let mut it = item("Vec");
    it.text_edit = Some(CompletionTextEdit::Edit(TextEdit {
        range: Range { start: pos(0, 8), end: pos(0, 10) },
        new_text: String::from("Vec::new()"),
    }));
    assert_eq!(resolve_insertion(&it, content, 10, 2), (String::from("Vec::new()"), 8, 10));
    it.text_edit = Some(CompletionTextEdit::InsertAndReplace(InsertReplaceEdit {
        new_text: String::from("bar"),
        insert: Range { start: pos(1, 4), end: pos(1, 5) },
        replace: Range { start: pos(1, 4), end: pos(1, 6) },
    }));
    assert_eq!(resolve_insertion(&it, content, 17, 2), (String::from("bar"), 15, 17));
}

#[test]
fn down_wraps_from_any_selection() {
    let mut s = CompletionState::new();
    s.set_items(vec![item("a"), item("b"), item("c")], "");
    s.selected = usize::MAX;
    s.handle_key(CompletionKey::Down);
    assert_eq!(s.selected, ((usize::MAX as u128 + 1) % 3) as usize);
}

#[test]
fn keys_leave_a_closed_popup_as_it_was() {
    let mut s = CompletionState::new();
    s.invoked_at = Some(pos(2, 3));
    s.selected = 5;
    assert!(s.handle_key(CompletionKey::Down).is_none());
    assert_eq!(s.selected, 5);
    assert_eq!(s.invoked_at.as_ref().map(|p| (p.line, p.character)), Some((2, 3)));
}
