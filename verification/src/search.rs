//! Find in files: which folders are skipped, which files look binary, how
//! the matches of one file become results, and how results are grouped.
use vstd::prelude::*;
use vstd::utf8::*;

use crate::find::{first_match_exec, first_match_from, lemma_first_match_occurs, lowercase, occurs_at, to_lowercase};
use crate::paths::{paths_equal, same_path};
use crate::text::{
    byte_count, byte_len, chars_of, lemma_ascii_is_boundary, lemma_ascii_next_boundary,
    lemma_encode_split, str_eq, string_from_range, trim_end, trim_end_spec,
};
use crate::find::byte_to_char;
use crate::lsp::{decimal_of, decimal_string};
use crate::text::push_char;

verus! {

/// At most this many results are collected by one search.
pub const MAX_RESULTS: usize = 1000;

/// Files larger than this many bytes are not searched.
pub const MAX_FILE_SIZE: u64 = 1000000;

/// Options of a search.
pub struct SearchOptions {
    pub case_sensitive: bool,
}

/// One match: the file, its one-based line, its byte range in the file, and
/// the text of its line without trailing whitespace.
pub struct SearchResult {
    pub path: String,
    pub line: u32,
    pub byte_start: usize,
    pub byte_end: usize,
    pub snippet: String,
}

/// State of the search panel.
pub struct SearchState {
    pub query: String,
    pub options: SearchOptions,
    pub results: Vec<SearchResult>,
    pub last_status: String,
    pub focus_query: bool,
    pub root: Option<String>,
}

/// What the user asked the search panel to do.
pub enum SearchAction {
    Run,
    Open(String, u32, usize, usize),
}

/// Whether a folder is one the search never enters.
pub open spec fn is_skipped_dir(name: Seq<char>) -> bool {
    ||| name == ".git"@
    ||| name == "target"@
    ||| name == "node_modules"@
    ||| name == "dist"@
    ||| name == "build"@
    ||| name == ".venv"@
    ||| name == "venv"@
    ||| name == "__pycache__"@
    ||| name == ".idea"@
    ||| name == ".vscode"@
    ||| name == ".next"@
    ||| name == ".cache"@
}

/// Whether the search skips a folder of this name.
pub fn skipped_dir(name: &str) -> (r: bool)
    ensures
        r == is_skipped_dir(name@),
{
    str_eq(name, ".git") || str_eq(name, "target") || str_eq(name, "node_modules") || str_eq(
        name,
        "dist",
    ) || str_eq(name, "build") || str_eq(name, ".venv") || str_eq(name, "venv") || str_eq(
        name,
        "__pycache__",
    ) || str_eq(name, ".idea") || str_eq(name, ".vscode") || str_eq(name, ".next") || str_eq(
        name,
        ".cache",
    )
}

/// A file looks binary when one of its first 8192 bytes is zero.
pub open spec fn is_binary(bytes: Seq<u8>) -> bool {
    exists|i: int| 0 <= i < bytes.len() && i < 8192 && bytes[i] == 0
}

/// Whether a file with these bytes looks binary (and is not searched).
pub fn looks_binary(bytes: &[u8]) -> (r: bool)
    ensures
        r == is_binary(bytes@),
{
    let n = if bytes.len() < 8192 { bytes.len() } else { 8192 };
    let mut i: usize = 0;
    while i < n
        invariant
            n <= bytes.len(),
            n <= 8192,
            i <= n,
            forall|j: int| 0 <= j < i ==> bytes@[j] != 0,
        decreases n - i,
    {
        if bytes[i] == 0 {
            return true;
        }
        i = i + 1;
    }
    false
}

/// Starts of the successive matches of `n` in `h`, from byte `from` on, each
/// search resuming where the previous match ended, at most `budget` of them.
pub open spec fn match_starts(h: Seq<u8>, n: Seq<u8>, from: int, budget: nat) -> Seq<int>
    decreases budget,
{
    if budget == 0 {
        seq![]
    } else {
        match first_match_from(h, n, from) {
            Some(p) => seq![p] + match_starts(h, n, p + n.len(), (budget - 1) as nat),
            None => seq![],
        }
    }
}

/// Number of bytes equal to `x` in `b`.
pub open spec fn count_byte(b: Seq<u8>, x: u8) -> nat
    decreases b.len(),
{
    if b.len() == 0 {
        0
    } else {
        count_byte(b.drop_last(), x) + if b.last() == x { 1nat } else { 0nat }
    }
}

/// The last newline byte before byte `p`.
pub open spec fn last_newline_before(b: Seq<u8>, p: int) -> Option<int>
    decreases p,
{
    if p <= 0 || p > b.len() {
        None
    } else if b[p - 1] == 10u8 {
        Some(p - 1)
    } else {
        last_newline_before(b, p - 1)
    }
}

/// The first newline byte at or after byte `p`.
pub open spec fn first_newline_from(b: Seq<u8>, p: int) -> Option<int>
    decreases b.len() - p,
{
    if p < 0 || p >= b.len() {
        None
    } else if b[p] == 10u8 {
        Some(p)
    } else {
        first_newline_from(b, p + 1)
    }
}

/// Byte where the line holding byte `p` starts.
pub open spec fn line_start_byte(b: Seq<u8>, p: int) -> int {
    match last_newline_before(b, p) {
        Some(j) => j + 1,
        None => 0,
    }
}

/// Byte where the line holding byte `p` ends (its newline, or the end).
pub open spec fn line_end_byte(b: Seq<u8>, p: int) -> int {
    match first_newline_from(b, p) {
        Some(j) => j,
        None => b.len() as int,
    }
}

/// The result for a match of `nlen` bytes at byte `start` of `content`, a
/// file at `path`.
pub open spec fn is_result(r: SearchResult, path: Seq<char>, content: Seq<char>, start: int, nlen: int) -> bool {
    let b = encode_utf8(content);
    &&& r.path@ == path
    &&& r.line == count_byte(b.take(start), 10u8) + 1
    &&& r.byte_start == start
    &&& r.byte_end == start + nlen
    &&& exists|line: Seq<char>| #[trigger] encode_utf8(line) == b.subrange(line_start_byte(b, start), line_end_byte(b, start))
        && r.snippet@ == trim_end_spec(line)
}

proof fn lemma_count_byte_step(b: Seq<u8>, i: int)
    requires
        0 <= i < b.len(),
    ensures
        count_byte(b.take(i + 1), 10u8) == count_byte(b.take(i), 10u8) + if b[i] == 10u8 { 1nat } else { 0nat },
{
    assert(b.take(i + 1).drop_last() =~= b.take(i));
}

/// The result for the match of `nlen` bytes at byte `start` of `content`.
fn result_at(path: &str, content: &str, start: usize, nlen: usize) -> (r: SearchResult)
    requires
        start + nlen <= byte_len(content@),
        is_char_boundary(encode_utf8(content@), start as int),
        byte_len(content@) <= MAX_FILE_SIZE,
    ensures
        is_result(r, path@, content@, start as int, nlen as int),
{
    broadcast use encode_utf8_valid_utf8, is_char_boundary_start_end_of_seq;

    let b = content.as_bytes();
    let ghost bs = b@;
    // line number: newlines before `start`, plus one
    let mut count: usize = 0;
    let mut i: usize = 0;
    while i < start
        invariant
            b@ == bs,
            start <= bs.len(),
            i <= start,
            count == count_byte(bs.take(i as int), 10u8),
            count <= i,
        decreases start - i,
    {
        proof {
            lemma_count_byte_step(bs, i as int);
        }
        if b[i] == 10u8 {
            count = count + 1;
        }
        i = i + 1;
    }
    // start of the line
    let mut ls = start;
    while ls > 0 && b[ls - 1] != 10u8
        invariant
            b@ == bs,
            ls <= start <= bs.len(),
            last_newline_before(bs, start as int) == last_newline_before(bs, ls as int),
        decreases ls,
    {
        ls = ls - 1;
    }
    // end of the line
    let mut le = start;
    while le < b.len() && b[le] != 10u8
        invariant
            b@ == bs,
            start <= le <= bs.len(),
            first_newline_from(bs, start as int) == first_newline_from(bs, le as int),
        decreases bs.len() - le,
    {
        le = le + 1;
    }
    proof {
        if ls > 0 {
            lemma_ascii_next_boundary(bs, ls - 1);
        }
        if le < bs.len() {
            lemma_ascii_is_boundary(bs, le as int);
        }
        assert(line_start_byte(bs, start as int) == ls);
        assert(line_end_byte(bs, start as int) == le);
    }
    let k1 = byte_to_char(content, ls);
    let k2 = byte_to_char(content, le);
    let v = chars_of(content);
    proof {
        if k2 < k1 {
            crate::text::lemma_prefix_len_strict(content@, k2 as int, k1 as int);
        }
        lemma_encode_split(content@, k1 as int);
        lemma_encode_split(content@.take(k2 as int), k1 as int);
        assert(content@.take(k2 as int).take(k1 as int) =~= content@.take(k1 as int));
        assert(content@.take(k2 as int).skip(k1 as int) =~= content@.subrange(k1 as int, k2 as int));
        lemma_encode_split(content@, k2 as int);
        let line = content@.subrange(k1 as int, k2 as int);
        assert(encode_utf8(content@.take(k2 as int)) == encode_utf8(content@.take(k1 as int)) + encode_utf8(line));
        assert(encode_utf8(line) =~= bs.subrange(ls as int, le as int)) by {
            assert(bs =~= encode_utf8(content@.take(k2 as int)) + encode_utf8(content@.skip(k2 as int)));
        }
    }
    let line = string_from_range(&v, k1, k2);
    let snippet = trim_end(line.as_str());
    let ghost lv = line@;
    assert(encode_utf8(lv) == bs.subrange(ls as int, le as int));
    SearchResult {
        path: String::from_str(path),
        line: (count + 1) as u32,
        byte_start: start,
        byte_end: start + nlen,
        snippet,
    }
}

/// Starts of the successive matches of `n` in `h` from byte 0, at most `budget`.
fn find_all(h: &[u8], n: &[u8], budget: usize) -> (r: Vec<usize>)
    ensures
        r@.map_values(|p: usize| p as int) == match_starts(h@, n@, 0, budget as nat),
        forall|k: int| 0 <= k < r@.len() ==> #[trigger] r@[k] + n@.len() <= h@.len(),
{
    let mut r: Vec<usize> = Vec::new();
    let mut from: usize = 0;
    let mut left = budget;
    assert(match_starts(h@, n@, 0, budget as nat) =~= Seq::<int>::empty() + match_starts(h@, n@, 0, budget as nat));
    while left > 0
        invariant
            r@.map_values(|p: usize| p as int) + match_starts(h@, n@, from as int, left as nat)
                == match_starts(h@, n@, 0, budget as nat),
            forall|k: int| 0 <= k < r@.len() ==> #[trigger] r@[k] + n@.len() <= h@.len(),
        decreases left,
    {
        let ghost prev_from = from;
        let ghost prev_r = as_ints(r@);
        match first_match_exec(h, n, from) {
            Some(p) => {
                r.push(p);
                assert(as_ints(r@) =~= prev_r.push(p as int));
                from = p + n.len();
                left = left - 1;
                assert(match_starts(h@, n@, prev_from as int, (left + 1) as nat)
                    == seq![p as int] + match_starts(h@, n@, from as int, left as nat));
                assert(as_ints(r@) + match_starts(h@, n@, from as int, left as nat)
                    =~= prev_r + (seq![p as int] + match_starts(h@, n@, from as int, left as nat)));
            },
            None => {
                assert(match_starts(h@, n@, from as int, left as nat) =~= Seq::<int>::empty());
                assert(r@.map_values(|p: usize| p as int) + Seq::<int>::empty() =~= r@.map_values(|p: usize| p as int));
                return r;
            },
        }
    }
    assert(r@.map_values(|p: usize| p as int) + Seq::<int>::empty() =~= r@.map_values(|p: usize| p as int));
    r
}

/// The positions of `s` as integers.
spec fn as_ints(s: Seq<usize>) -> Seq<int> {
    s.map_values(|p: usize| p as int)
}

/// The texts a search compares: the given texts when case-sensitive, the
/// lower-cased ones otherwise.
pub open spec fn search_texts(content: Seq<char>, query: Seq<char>, case_sensitive: bool) -> (Seq<char>, Seq<char>) {
    if case_sensitive {
        (content, query)
    } else {
        (lowercase(content), lowercase(query))
    }
}

/// `results` grew by exactly the results for the matches starting at `starts`.
pub open spec fn appended_results(old: Seq<SearchResult>, new: Seq<SearchResult>, path: Seq<char>, content: Seq<char>, starts: Seq<int>, nlen: int) -> bool {
    &&& new.len() == old.len() + starts.len()
    &&& new.take(old.len() as int) == old
    &&& forall|k: int| 0 <= k < starts.len() ==> is_result(#[trigger] new[old.len() + k], path, content, starts[k], nlen)
}

/// What a result's byte range holds: in a case-sensitive search the query's
/// bytes in the file's text; in a case-insensitive one the lower-cased
/// query's bytes in the lower-cased text (the result's byte offsets are
/// those of the lower-cased text, which has the byte length of the file's).
pub open spec fn found_text(r: SearchResult, content: Seq<char>, query: Seq<char>, case_sensitive: bool) -> bool {
    let h = if case_sensitive { encode_utf8(content) } else { encode_utf8(lowercase(content)) };
    let n = if case_sensitive { encode_utf8(query) } else { encode_utf8(lowercase(query)) };
    &&& 0 <= r.byte_start <= r.byte_end <= h.len()
    &&& h.subrange(r.byte_start as int, r.byte_end as int) == n
}

/// Every start that `match_starts` gives is an occurrence of the needle.
proof fn lemma_match_starts_occur(h: Seq<u8>, n: Seq<u8>, from: int, budget: nat)
    ensures
        forall|k: int| 0 <= k < match_starts(h, n, from, budget).len()
            ==> occurs_at(h, n, #[trigger] match_starts(h, n, from, budget)[k]),
    decreases budget,
{
    if budget > 0 {
        match first_match_from(h, n, from) {
            Some(p) => {
                lemma_first_match_occurs(h, n, from);
                lemma_match_starts_occur(h, n, p + n.len(), (budget - 1) as nat);
                let rest = match_starts(h, n, p + n.len(), (budget - 1) as nat);
                let all = match_starts(h, n, from, budget);
                assert forall|k: int| 0 <= k < all.len() implies occurs_at(h, n, #[trigger] all[k]) by {
                    if k > 0 {
                        assert(all[k] == rest[k - 1]);
                    }
                }
            },
            None => {},
        }
    }
}

/// Each result a search of `content` for `query` adds holds the query: the
/// query's bytes, or in a case-insensitive search the lower-cased query's
/// bytes in the lower-cased text.
pub proof fn lemma_search_results_hold_query(old_results: Seq<SearchResult>, content: Seq<char>, query: Seq<char>, case_sensitive: bool)
    ensures
        forall|new_results: Seq<SearchResult>, path: Seq<char>| #![trigger appended_results(old_results, new_results, path, content,
            match_starts(encode_utf8(search_texts(content, query, case_sensitive).0), encode_utf8(search_texts(content, query, case_sensitive).1), 0, (MAX_RESULTS - old_results.len()) as nat),
            byte_len(search_texts(content, query, case_sensitive).1) as int)]
            appended_results(old_results, new_results, path, content,
            match_starts(encode_utf8(search_texts(content, query, case_sensitive).0), encode_utf8(search_texts(content, query, case_sensitive).1), 0, (MAX_RESULTS - old_results.len()) as nat),
            byte_len(search_texts(content, query, case_sensitive).1) as int)
            ==> forall|k: int| old_results.len() <= k < new_results.len() ==> found_text(#[trigger] new_results[k], content, query, case_sensitive),
{
    let (h, n) = search_texts(content, query, case_sensitive);
    let starts = match_starts(encode_utf8(h), encode_utf8(n), 0, (MAX_RESULTS - old_results.len()) as nat);
    lemma_match_starts_occur(encode_utf8(h), encode_utf8(n), 0, (MAX_RESULTS - old_results.len()) as nat);
    assert forall|new_results: Seq<SearchResult>, path: Seq<char>|
        appended_results(old_results, new_results, path, content, starts, byte_len(n) as int)
        implies forall|k: int| old_results.len() <= k < new_results.len() ==> found_text(#[trigger] new_results[k], content, query, case_sensitive) by {
        assert forall|k: int| old_results.len() <= k < new_results.len() implies found_text(#[trigger] new_results[k], content, query, case_sensitive) by {
            let j = k - old_results.len();
            assert(is_result(new_results[old_results.len() + j], path, content, starts[j], byte_len(n) as int));
            assert(occurs_at(encode_utf8(h), encode_utf8(n), starts[j]));
        }
    }
}

/// Adds to `results` the results for the matches of `needle` in `haystack`
/// (the text compared, of the same byte length as `content`), while fewer
/// than `MAX_RESULTS` are collected. Returns whether that limit was reached.
pub fn search_haystack(results: &mut Vec<SearchResult>, path: &str, content: &str, haystack: &str, needle: &str) -> (full: bool)
    requires
        old(results)@.len() < MAX_RESULTS,
        byte_len(haystack@) == byte_len(content@),
        byte_len(content@) <= MAX_FILE_SIZE,
        forall|k: int| 0 <= k < match_starts(encode_utf8(haystack@), encode_utf8(needle@), 0, (MAX_RESULTS - old(results)@.len()) as nat).len()
            ==> is_char_boundary(encode_utf8(content@), #[trigger] match_starts(encode_utf8(haystack@), encode_utf8(needle@), 0, (MAX_RESULTS - old(results)@.len()) as nat)[k]),
    ensures
        appended_results(old(results)@, final(results)@, path@, content@,
            match_starts(encode_utf8(haystack@), encode_utf8(needle@), 0, (MAX_RESULTS - old(results)@.len()) as nat),
            byte_len(needle@) as int),
        full == (final(results)@.len() >= MAX_RESULTS),
        final(results)@.len() <= MAX_RESULTS,
{
    let hb = haystack.as_bytes();
    let nb = needle.as_bytes();
    let budget = MAX_RESULTS - results.len();
    let starts = find_all(hb, nb, budget);
    let ghost s = match_starts(hb@, nb@, 0, budget as nat);
    let ghost old_results = results@;
    assert(s == match_starts(encode_utf8(haystack@), encode_utf8(needle@), 0, (MAX_RESULTS - old(results)@.len()) as nat));
    proof {
        assert(forall|k: int| 0 <= k < starts@.len() ==> #[trigger] starts@[k] as int == s[k]) by {
            assert forall|k: int| 0 <= k < starts@.len() implies #[trigger] starts@[k] as int == s[k] by {
                assert(starts@.map_values(|p: usize| p as int)[k] == starts@[k] as int);
            }
        }
        assert(starts@.len() == s.len()) by {
            assert(starts@.map_values(|p: usize| p as int).len() == starts@.len());
        }
        lemma_match_starts_len(hb@, nb@, 0, budget as nat);
    }
    let mut j: usize = 0;
    while j < starts.len()
        invariant
            j <= starts@.len(),
            starts@.len() == s.len(),
            s.len() <= budget,
            budget == MAX_RESULTS - old_results.len(),
            forall|k: int| 0 <= k < starts@.len() ==> #[trigger] starts@[k] as int == s[k],
            forall|k: int| 0 <= k < starts@.len() ==> #[trigger] starts@[k] + nb@.len() <= hb@.len(),
            forall|k: int| 0 <= k < s.len() ==> is_char_boundary(encode_utf8(content@), #[trigger] s[k]),
            hb@ == encode_utf8(haystack@),
            nb@ == encode_utf8(needle@),
            byte_len(haystack@) == byte_len(content@),
            byte_len(content@) <= MAX_FILE_SIZE,
            results@.len() == old_results.len() + j,
            results@.take(old_results.len() as int) == old_results,
            forall|k: int| 0 <= k < j ==> is_result(#[trigger] results@[old_results.len() + k], path@, content@, s[k], nb@.len() as int),
        decreases starts@.len() - j,
    {
        let p = starts[j];
        assert(is_char_boundary(encode_utf8(content@), s[j as int]));
        let r = result_at(path, content, p, nb.len());
        let ghost before = results@;
        results.push(r);
        assert(results@.take(old_results.len() as int) =~= before.take(old_results.len() as int));
        assert forall|k: int| 0 <= k < j + 1 implies is_result(#[trigger] results@[old_results.len() + k], path@, content@, s[k], nb@.len() as int) by {
            if k < j {
                assert(results@[old_results.len() + k] == before[old_results.len() + k]);
            }
        }
        j = j + 1;
    }
    results.len() >= MAX_RESULTS
}

proof fn lemma_match_starts_len(h: Seq<u8>, n: Seq<u8>, from: int, budget: nat)
    ensures
        match_starts(h, n, from, budget).len() <= budget,
    decreases budget,
{
    if budget > 0 {
        match first_match_from(h, n, from) {
            Some(p) => lemma_match_starts_len(h, n, p + n.len(), (budget - 1) as nat),
            None => {},
        }
    }
}

/// Whether every position of `starts` is a character boundary of `content`.
fn all_boundaries(content: &str, starts: &Vec<usize>) -> (r: bool)
    ensures
        r == (forall|k: int| 0 <= k < starts@.len() ==> is_char_boundary(encode_utf8(content@), #[trigger] starts@[k] as int)),
{
    let mut j: usize = 0;
    while j < starts.len()
        invariant
            j <= starts@.len(),
            forall|k: int| 0 <= k < j ==> is_char_boundary(encode_utf8(content@), #[trigger] starts@[k] as int),
        decreases starts@.len() - j,
    {
        if !content.is_char_boundary(starts[j]) {
            return false;
        }
        j = j + 1;
    }
    true
}

/// The search of one file's text `content` (at `path`) for `query`: adds its
/// results to `results` while fewer than `MAX_RESULTS` are collected.
/// `Some(full)` tells whether the limit was reached; a case-insensitive search
/// whose lower-casing changes the text's byte length adds nothing. `None`
/// when a match of the lower-cased text does not start on a character
/// boundary of `content` (nothing is added then).
pub fn search_content(results: &mut Vec<SearchResult>, path: &str, content: &str, query: &str, opts: &SearchOptions) -> (r: Option<bool>)
    requires
        old(results)@.len() < MAX_RESULTS,
        byte_len(content@) <= MAX_FILE_SIZE,
    ensures
        ({
            let (h, n) = search_texts(content@, query@, opts.case_sensitive);
            let starts = match_starts(encode_utf8(h), encode_utf8(n), 0, (MAX_RESULTS - old(results)@.len()) as nat);
            if query@.len() == 0 || byte_len(h) != byte_len(content@) {
                r == Some(false) && final(results)@ == old(results)@
            } else if forall|k: int| 0 <= k < starts.len() ==> is_char_boundary(encode_utf8(content@), #[trigger] starts[k]) {
                &&& appended_results(old(results)@, final(results)@, path@, content@, starts, byte_len(n) as int)
                &&& r == Some(final(results)@.len() >= MAX_RESULTS)
            } else {
                r is None && final(results)@ == old(results)@
            }
        }),
        final(results)@.len() <= MAX_RESULTS,
        forall|k: int| old(results)@.len() <= k < final(results)@.len() ==> found_text(#[trigger] final(results)@[k], content@, query@, opts.case_sensitive),
{
    proof {
        lemma_search_results_hold_query(old(results)@, content@, query@, opts.case_sensitive);
    }
    if query.is_empty() {
        return Some(false);
    }
    let needle_owned;
    let haystack_owned;
    let (needle, haystack): (&str, &str) = if opts.case_sensitive {
        (query, content)
    } else {
        needle_owned = to_lowercase(query);
        haystack_owned = to_lowercase(content);
        (needle_owned.as_str(), haystack_owned.as_str())
    };
    if byte_count(haystack) != byte_count(content) {
        return Some(false);
    }
    let budget = MAX_RESULTS - results.len();
    let starts = find_all(haystack.as_bytes(), needle.as_bytes(), budget);
    let ghost s = match_starts(encode_utf8(haystack@), encode_utf8(needle@), 0, budget as nat);
    proof {
        assert(starts@.len() == s.len()) by {
            assert(starts@.map_values(|p: usize| p as int).len() == starts@.len());
        }
        assert forall|k: int| 0 <= k < starts@.len() implies #[trigger] starts@[k] as int == s[k] by {
            assert(starts@.map_values(|p: usize| p as int)[k] == starts@[k] as int);
        }
    }
    if !all_boundaries(content, &starts) {
        proof {
            assert(!(forall|k: int| 0 <= k < s.len() ==> is_char_boundary(encode_utf8(content@), #[trigger] s[k]))) by {
                let k = choose|k: int| 0 <= k < starts@.len() && !is_char_boundary(encode_utf8(content@), #[trigger] starts@[k] as int);
                assert(starts@[k] as int == s[k]);
            }
        }
        return None;
    }
    proof {
        assert forall|k: int| 0 <= k < s.len() implies is_char_boundary(encode_utf8(content@), #[trigger] s[k]) by {
            assert(starts@[k] as int == s[k]);
        }
    }
    Some(search_haystack(results, path, content, haystack, needle))
}

/// Consecutive results of the same file, grouped: each group is a path and
/// the indices of its results, in order.
pub open spec fn groups_of(paths: Seq<Seq<char>>) -> Seq<(Seq<char>, Seq<int>)>
    decreases paths.len(),
{
    if paths.len() == 0 {
        seq![]
    } else {
        let g = groups_of(paths.drop_last());
        let i = paths.len() - 1;
        if g.len() > 0 && same_path(g.last().0, paths.last()) {
            g.update(g.len() - 1, (g.last().0, g.last().1.push(i)))
        } else {
            g.push((paths.last(), seq![i]))
        }
    }
}

/// The paths of `results`, in order.
pub open spec fn result_paths(results: Seq<SearchResult>) -> Seq<Seq<char>> {
    results.map_values(|r: SearchResult| r.path@)
}

/// The indices of all groups, one group after the other.
pub open spec fn group_indices(g: Seq<(Seq<char>, Seq<int>)>) -> Seq<int>
    decreases g.len(),
{
    if g.len() == 0 {
        seq![]
    } else {
        group_indices(g.drop_last()) + g.last().1
    }
}

/// The groups cover the results exactly once and in order: listing the
/// indices of each group in turn gives `0, 1, ..., n - 1`.
pub proof fn lemma_groups_partition(paths: Seq<Seq<char>>)
    ensures
        group_indices(groups_of(paths)) == Seq::new(paths.len(), |i: int| i),
    decreases paths.len(),
{
    if paths.len() > 0 {
        let front = paths.drop_last();
        let g = groups_of(front);
        let i = paths.len() - 1;
        lemma_groups_partition(front);
        if g.len() > 0 && same_path(g.last().0, paths.last()) {
            let u = g.update(g.len() - 1, (g.last().0, g.last().1.push(i)));
            assert(u.drop_last() =~= g.drop_last());
            assert(group_indices(u) =~= group_indices(g).push(i));
        } else {
            let u = g.push((paths.last(), seq![i]));
            assert(u.drop_last() =~= g);
        }
        assert(Seq::new(paths.len(), |k: int| k) =~= Seq::new(front.len(), |k: int| k).push(i));
    }
}

/// A snippet is shown up to this many bytes.
pub const SNIPPET_BYTES: usize = 200;

/// The part of `snippet` that a result row shows: all of it up to
/// `SNIPPET_BYTES` bytes, else its first `SNIPPET_BYTES` bytes (which must
/// end on a character boundary).
pub fn shown_snippet(snippet: &str) -> (r: String)
    requires
        byte_len(snippet@) > SNIPPET_BYTES ==> is_char_boundary(encode_utf8(snippet@), SNIPPET_BYTES as int),
    ensures
        byte_len(snippet@) <= SNIPPET_BYTES ==> r@ == snippet@,
        byte_len(snippet@) > SNIPPET_BYTES ==> exists|k: int| 0 <= k <= snippet@.len() && r@ == snippet@.take(k)
            && #[trigger] byte_len(snippet@.take(k)) == SNIPPET_BYTES,
{
    if byte_count(snippet) <= SNIPPET_BYTES {
        return String::from_str(snippet);
    }
    let k = byte_to_char(snippet, SNIPPET_BYTES);
    let v = chars_of(snippet);
    let r = string_from_range(&v, 0, k);
    assert(v@.subrange(0, k as int) =~= snippet@.take(k as int));
    r
}

/// `d` padded on the left with spaces to at least `width` characters.
pub open spec fn pad_left(d: Seq<char>, width: nat) -> Seq<char> {
    if d.len() >= width {
        d
    } else {
        Seq::new((width - d.len()) as nat, |i: int| ' ') + d
    }
}

/// The line number label of a result row: the number right-aligned in four
/// columns, then a colon.
pub fn line_label(line: u32) -> (r: String)
    ensures
        r@ == pad_left(decimal_of(line as nat), 4) + ":"@,
{
    let d = decimal_string(line as usize);
    let n = d.as_str().unicode_len();
    let mut s = String::new();
    let mut i: usize = n;
    while i < 4
        invariant
            n == d@.len(),
            n <= i <= 4 || (n > 4 && i == n),
            s@ == Seq::new((i - n) as nat, |j: int| ' '),
        decreases 4 - i,
    {
        let ghost before = s@;
        push_char(&mut s, ' ');
        assert(s@ =~= Seq::new((i + 1 - n) as nat, |j: int| ' '));
        i = i + 1;
    }
    let ghost pad = s@;
    s.append(d.as_str());
    s.append(":");
    proof {
        if n >= 4 {
            assert(pad =~= Seq::<char>::empty());
        }
        assert(s@ =~= pad_left(decimal_of(line as nat), 4) + ":"@);
    }
    s
}

/// The title of a file's group of results: its name, two spaces, and the
/// number of its results in parentheses.
pub fn group_title(name: &str, count: usize) -> (r: String)
    ensures
        r@ == name@ + "  ("@ + decimal_of(count as nat) + ")"@,
{
    let mut s = String::from_str(name);
    s.append("  (");
    s.append(decimal_string(count).as_str());
    s.append(")");
    s
}

/// Groups consecutive results that belong to the same file.
pub fn group_by_path(results: &[SearchResult]) -> (out: Vec<(String, Vec<usize>)>)
    ensures
        out@.len() == groups_of(result_paths(results@)).len(),
        forall|j: int| 0 <= j < out@.len() ==> (#[trigger] out@[j]).0@ == groups_of(result_paths(results@))[j].0
            && out@[j].1@.map_values(|i: usize| i as int) == groups_of(result_paths(results@))[j].1,
{
    let mut out: Vec<(String, Vec<usize>)> = Vec::new();
    let mut i: usize = 0;
    while i < results.len()
        invariant
            i <= results@.len(),
            out@.len() == groups_of(result_paths(results@).take(i as int)).len(),
            forall|j: int| 0 <= j < out@.len() ==> (#[trigger] out@[j]).0@ == groups_of(result_paths(results@).take(i as int))[j].0
                && out@[j].1@.map_values(|i: usize| i as int) == groups_of(result_paths(results@).take(i as int))[j].1,
        decreases results@.len() - i,
    {
        let ghost ps = result_paths(results@);
        let ghost g = groups_of(ps.take(i as int));
        assert(ps.take(i + 1).drop_last() =~= ps.take(i as int));
        assert(ps.take(i + 1).last() == results@[i as int].path@);
        let n = out.len();
        let same = if n > 0 {
            paths_equal(out[n - 1].0.as_str(), results[i].path.as_str())
        } else {
            false
        };
        if same {
            let (p, mut idx) = out.pop().unwrap();
            let ghost before = idx@;
            idx.push(i);
            assert(idx@.map_values(|k: usize| k as int) =~= before.map_values(|k: usize| k as int).push(i as int));
            out.push((p, idx));
        } else {
            let mut idx: Vec<usize> = Vec::new();
            idx.push(i);
            assert(idx@.map_values(|k: usize| k as int) =~= seq![i as int]);
            out.push((results[i].path.clone(), idx));
        }
        i = i + 1;
    }
    assert(result_paths(results@).take(results@.len() as int) =~= result_paths(results@));
    out
}

} // verus!
