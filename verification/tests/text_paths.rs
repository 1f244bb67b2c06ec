use code_editor::explorer::FileExplorer;
use code_editor::paths::{display_name, ext_is, path_extension};
use code_editor::text::{
    byte_count, char_is_whitespace, chars_of, str_eq, string_from_range, strip_prefix, trim,
    trim_end,
};

#[test]
fn byte_count_counts_utf8_bytes() {
    assert_eq!(byte_count(""), 0);
    assert_eq!(byte_count("abc"), 3);
    assert_eq!(byte_count("héllo"), 6);
    assert_eq!(byte_count("越"), 3);
}

#[test]
fn chars_and_ranges() {
    let v = chars_of("aé越");
    assert_eq!(v, vec!['a', 'é', '越']);
    assert_eq!(string_from_range(&v, 1, 3), "é越");
    assert_eq!(string_from_range(&v, 2, 2), "");
}

#[test]
fn push_concat_and_equality() {
    let v = vec!['a', 'b', '越'];
    assert_eq!(string_from_range(&v, 0, 3), "ab越");
    assert_eq!(code_editor::text::concat("foo", "bar"), "foobar");
    assert!(str_eq("abc", "abc"));
    assert!(!str_eq("abc", "abd"));
    assert!(!str_eq("abc", "ab"));
}

#[test]
fn whitespace_matches_std_for_every_char() {
    for u in 0u32..=0x10FFFF {
        if let Some(c) = char::from_u32(u) {
            assert_eq!(char_is_whitespace(c), c.is_whitespace(), "char U+{:04X}", u);
        }
    }
}

#[test]
fn trims_like_std() {
    assert_eq!(trim_end(" a b \r\n"), " a b");
    assert_eq!(trim(" \t a b \u{A0}\r\n"), "a b");
    assert_eq!(trim("   "), "");
    assert_eq!(trim_end(""), "");
    assert_eq!(trim("\u{3000}x\u{2028}"), "x");
}

#[test]
fn strip_prefix_cases() {
    assert_eq!(strip_prefix("Content-Length: 12", "Content-Length:"), Some(String::from(" 12")));
    assert_eq!(strip_prefix("Content-Type: x", "Content-Length:"), None);
    assert_eq!(strip_prefix("ab", "abc"), None);
    assert_eq!(strip_prefix("abc", ""), Some(String::from("abc")));
}

#[test]
fn file_names_and_extensions() {
    assert_eq!(display_name("/a/b/c.rs"), "c.rs");
    assert_eq!(display_name("dir/.."), "dir/..");
    assert_eq!(display_name("/a/b/"), "b");
    assert_eq!(path_extension("/x/y.tar.gz"), Some(String::from("gz")));
    assert_eq!(path_extension("/x/.bashrc"), None);
    assert_eq!(path_extension("/x/Makefile"), None);
    assert_eq!(path_extension("/x/file."), Some(String::from("")));
    assert_eq!(display_name("/x/y/z.txt"), "z.txt");
    assert_eq!(display_name("/"), "/");
}

#[test]
fn paths_compare_by_component() {
    let mut e = FileExplorer::new();
    e.set_root(String::from("a/b"));
    assert!(e.is_expanded("a//b"));
    assert!(e.is_expanded("a/b/"));
    assert!(e.is_expanded("a/./b"));
    assert!(!e.is_expanded("a/c"));
    assert!(!e.is_expanded("a"));
}

#[test]
fn extension_test() {
    assert!(ext_is(&Some(String::from("rs")), "rs"));
    assert!(!ext_is(&Some(String::from("rs")), "r"));
    assert!(!ext_is(&None, "rs"));
}
