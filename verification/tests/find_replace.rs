use code_editor::find::{
    byte_to_char, char_len_utf8, char_to_byte, find_byte_range, find_byte_range_inner, replace_all,
    try_find_byte_range, FindState,
};

#[test]
fn find_state_starts_empty() {
    let s = FindState::new();
    assert!(s.query.is_empty());
    assert!(s.replacement.is_empty());
    assert!(!s.case_sensitive);
    assert!(!s.show_replace);
    assert!(s.last_status.is_empty());
}

#[test]
fn lowercase_uses_std() {
    assert_eq!(find_byte_range("xx ÄÖ", "äö", false, 0, true), Some((3, 7)));
    assert_eq!(find_byte_range("xx ÄÖ", "äö", true, 0, true), None);
}

#[test]
fn forward_search_wraps() {
    let h = "abc abc abc";
    assert_eq!(find_byte_range(h, "abc", true, 0, true), Some((0, 3)));
    assert_eq!(find_byte_range(h, "abc", true, 1, true), Some((4, 7)));
    assert_eq!(find_byte_range(h, "abc", true, 9, true), Some((0, 3)));
    assert_eq!(find_byte_range(h, "abc", true, 100, true), Some((0, 3)));
    assert_eq!(find_byte_range(h, "xyz", true, 0, true), None);
    assert_eq!(find_byte_range(h, "", true, 0, true), None);
}

#[test]
fn backward_search_wraps() {
    let h = "abc abc abc";
    assert_eq!(find_byte_range(h, "abc", true, 11, false), Some((8, 11)));
    assert_eq!(find_byte_range(h, "abc", true, 8, false), Some((4, 7)));
    assert_eq!(find_byte_range(h, "abc", true, 2, false), Some((8, 11)));
}

#[test]
fn case_insensitive_search() {
    let h = "Hello HELLO hello";
    assert_eq!(find_byte_range(h, "hello", false, 1, true), Some((6, 11)));
    assert_eq!(find_byte_range(h, "hello", true, 1, true), Some((12, 17)));
    assert_eq!(find_byte_range(h, "HELLO", false, 0, true), Some((0, 5)));
}

#[test]
fn case_insensitive_falls_back_when_lengths_change() {
    // lower-casing 'İ' changes the byte length, so the search is case-sensitive
    let h = "İ abc ABC";
    assert_eq!(find_byte_range(h, "ABC", false, 0, true), Some((7, 10)));
}

#[test]
fn inner_search_on_raw_bytes() {
    assert_eq!(find_byte_range_inner("aXbXc", "X", 2, true), Some((3, 4)));
    assert_eq!(find_byte_range_inner("aXbXc", "X", 2, false), Some((1, 2)));
}

#[test]
fn try_find_rejects_non_boundaries() {
    let h = "é abc";
    assert_eq!(try_find_byte_range(h, "abc", true, 1, true), None);
    assert_eq!(try_find_byte_range(h, "abc", true, 2, true), Some(Some((3, 6))));
    assert_eq!(try_find_byte_range(h, "zzz", true, 0, true), Some(None));
}

#[test]
fn byte_and_char_offsets() {
    let s = "aé越b";
    assert_eq!(char_to_byte(s, 0), 0);
    assert_eq!(char_to_byte(s, 1), 1);
    assert_eq!(char_to_byte(s, 2), 3);
    assert_eq!(char_to_byte(s, 3), 6);
    assert_eq!(char_to_byte(s, 4), 7);
    assert_eq!(char_to_byte(s, 99), 7);
    assert_eq!(byte_to_char(s, 0), 0);
    assert_eq!(byte_to_char(s, 3), 2);
    assert_eq!(byte_to_char(s, 6), 3);
    assert_eq!(byte_to_char(s, 99), 4);
}

#[test]
fn offsets_round_trip() {
    let s = "x→y€z😀!";
    for k in 0..=s.chars().count() {
        assert_eq!(byte_to_char(s, char_to_byte(s, k)), k);
    }
}

#[test]
fn utf8_lengths() {
    assert_eq!(char_len_utf8('a'), 1);
    assert_eq!(char_len_utf8('é'), 2);
    assert_eq!(char_len_utf8('越'), 3);
    assert_eq!(char_len_utf8('😀'), 4);
}

#[test]
fn replace_all_counts_and_replaces() {
    assert_eq!(replace_all("a-b-c", "-", "+"), (String::from("a+b+c"), 2));
    assert_eq!(replace_all("aaaa", "aa", "b"), (String::from("bb"), 2));
    assert_eq!(replace_all("aaa", "aa", "b"), (String::from("ba"), 1));
    assert_eq!(replace_all("abc", "", "x"), (String::from("abc"), 0));
    assert_eq!(replace_all("abc", "z", "x"), (String::from("abc"), 0));
    assert_eq!(replace_all("a.b", ".", "..."), (String::from("a...b"), 1));
}

#[test]
fn replace_without_match_keeps_text() {
    let (out, n) = replace_all("hello world", "xyz", "q");
    assert_eq!(n, 0);
    assert_eq!(out, "hello world");
}

#[test]
fn replace_by_itself_keeps_text() {
    let (out, n) = replace_all("abab ab", "ab", "ab");
    assert_eq!(n, 3);
    assert_eq!(out, "abab ab");
}

#[test]
fn replace_changes_length_by_count() {
    let content = "one two one two one";
    let (out, n) = replace_all(content, "one", "1");
    assert_eq!(out.chars().count(), content.chars().count() + n * 1 - n * 3);
    assert_eq!(out, "1 two 1 two 1");
}

#[test]
fn found_range_holds_query() {
    let h = "the Quick brown quick";
    if let Some((a, b)) = find_byte_range(h, "quick", true, 0, true) {
        assert_eq!(&h[a..b], "quick");
    } else {
        panic!("no match");
    }
}
