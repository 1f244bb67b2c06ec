use code_editor::terminal::{append_ansi_stripped, limit_buffer, MAX_BUFFER};

fn stripped(s: &str) -> String {
    let mut b = String::new();
    append_ansi_stripped(&mut b, s);
    b
}

#[test]
fn colors_and_controls_are_dropped() {
    assert_eq!(stripped("\x1b[1;32mok\x1b[0m done\r\n"), "ok done\n");
    assert_eq!(stripped("a\x07b\x08c"), "abc");
    assert_eq!(stripped("\x1b[2K\x1b[1Gprompt$ "), "prompt$ ");
    assert_eq!(stripped("x\x1b[?25~y"), "xy");
}

#[test]
fn osc_sequences_are_dropped() {
    assert_eq!(stripped("\x1b]0;title\x07$ ls"), "$ ls");
    assert_eq!(stripped("\x1b]0;title\x1b\\rest"), "rest");
    assert_eq!(stripped("\x1b]unterminated"), "");
}

#[test]
fn other_escapes_and_trailing_escape() {
    assert_eq!(stripped("a\x1b(Bb"), "aBb");
    assert_eq!(stripped("a\x1b=b"), "ab");
    assert_eq!(stripped("end\x1b"), "end");
    assert_eq!(stripped("\x1b[31"), "");
}

#[test]
fn appends_to_existing_text() {
    let mut b = String::from("$ ");
    append_ansi_stripped(&mut b, "echo \x1b[1mhi\x1b[0m\r\n");
    assert_eq!(b, "$ echo hi\n");
}

#[test]
fn stripping_twice_changes_nothing() {
    let once = stripped("\x1b[1mbold\x1b[0m\r\n\x1b]0;t\x07x\x08y");
    assert_eq!(stripped(&once), once);
}

#[test]
fn shown_text_has_no_escape_characters() {
    let s = stripped("\x1b[1ma\x1bb\rc\x07d\x08e\x1b]x\x1b\\f");
    assert!(!s.contains('\x1b') && !s.contains('\r') && !s.contains('\x07') && !s.contains('\x08'));
    assert_eq!(s, "acdef");
}

#[test]
fn small_buffers_are_kept() {
    let mut b = "z".repeat(MAX_BUFFER);
    limit_buffer(&mut b);
    assert_eq!(b.len(), MAX_BUFFER);
}

#[test]
fn large_buffers_keep_their_tail() {
    let mut b = "a".repeat(MAX_BUFFER + 10);
    b.push_str("TAIL");
    let total = b.len();
    limit_buffer(&mut b);
    assert_eq!(b.len(), MAX_BUFFER / 2);
    assert!(b.ends_with("TAIL"));
    assert!(b.len() <= MAX_BUFFER);
    assert!(total > MAX_BUFFER);
}

#[test]
fn cut_lands_on_a_character_start() {
    let mut b = "é".repeat(MAX_BUFFER / 2 + 1);
    b.push('x');
    // length is odd, so the byte cut falls inside an 'é'
    limit_buffer(&mut b);
    assert_eq!(b.len(), MAX_BUFFER / 2 - 1);
    assert!(b.ends_with('x'));
    assert!(b.starts_with('é'));
}
