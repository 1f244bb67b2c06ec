//! Find and replace inside one buffer.
use vstd::prelude::*;
use vstd::utf8::*;

use crate::text::{byte_count, byte_len, chars_of, concat, lemma_boundary_is_prefix, lemma_encode_prefix_step, lemma_encode_single, lemma_encode_split, lemma_prefix_ends, lemma_prefix_is_boundary, lemma_prefix_len_strict, push_char};

verus! {

/// State of the find / replace bar.
pub struct FindState {
    pub query: String,
    pub replacement: String,
    pub case_sensitive: bool,
    pub show_replace: bool,
    pub focus_query: bool,
    pub last_status: String,
}

impl FindState {
    /// An empty find bar: no query, case-insensitive, replace row hidden.
    pub fn new() -> (s: Self)
        ensures
            s.query@ == Seq::<char>::empty(),
            s.replacement@ == Seq::<char>::empty(),
            !s.case_sensitive,
            !s.show_replace,
            !s.focus_query,
            s.last_status@ == Seq::<char>::empty(),
    {
        FindState {
            query: String::new(),
            replacement: String::new(),
            case_sensitive: false,
            show_replace: false,
            focus_query: false,
            last_status: String::new(),
        }
    }
}

/// What the user asked the find bar to do.
pub enum FindAction {
    Next,
    Prev,
    Replace,
    ReplaceAll,
    Close,
}

/// Unicode lower-casing of a string, as std's `str::to_lowercase` computes it.
pub uninterp spec fn lowercase(s: Seq<char>) -> Seq<char>;

/// std's `str::to_lowercase`; its result is named `lowercase` of the argument.
#[verifier::external_body]
pub(crate) fn to_lowercase(s: &str) -> (r: String)
    ensures
        r@ == lowercase(s@),
{
    s.to_lowercase()
}

/// `n` occurs in `h` starting at byte `p`.
pub open spec fn occurs_at(h: Seq<u8>, n: Seq<u8>, p: int) -> bool {
    0 <= p && p + n.len() <= h.len() && h.subrange(p, p + n.len()) == n
}

/// The first occurrence of `n` in `h` that starts at `p` or later.
pub open spec fn first_match_from(h: Seq<u8>, n: Seq<u8>, p: int) -> Option<int>
    decreases h.len() + 1 - p,
{
    if p < 0 || p + n.len() > h.len() {
        None
    } else if occurs_at(h, n, p) {
        Some(p)
    } else {
        first_match_from(h, n, p + 1)
    }
}

/// The last occurrence of `n` in `h` that starts at `p` or earlier.
pub open spec fn last_match_upto(h: Seq<u8>, n: Seq<u8>, p: int) -> Option<int>
    decreases p + 1,
{
    if p < 0 {
        None
    } else if occurs_at(h, n, p) {
        Some(p)
    } else {
        last_match_upto(h, n, p - 1)
    }
}

/// Where a wrapping search for `n` in `h` from byte `from` lands:
/// forward, the first match at or after `from`, else the first match;
/// backward, the last match ending by `from`, else the last match.
pub open spec fn wrapped_match(h: Seq<u8>, n: Seq<u8>, from: int, forward: bool) -> Option<int> {
    if forward {
        match first_match_from(h, n, from) {
            Some(p) => Some(p),
            None => first_match_from(h, n, 0),
        }
    } else {
        match last_match_upto(h, n, from - n.len()) {
            Some(p) => Some(p),
            None => last_match_upto(h, n, h.len() - n.len()),
        }
    }
}

/// The byte range that a wrapping search returns.
pub open spec fn wrapped_range(h: Seq<u8>, n: Seq<u8>, from: int, forward: bool) -> Option<(usize, usize)> {
    match wrapped_match(h, n, from, forward) {
        Some(p) => Some((p as usize, (p + n.len()) as usize)),
        None => None,
    }
}

pub open spec fn min_int(a: int, b: int) -> int {
    if a <= b { a } else { b }
}

/// The texts that a search actually compares: the given texts when the search
/// is case-sensitive or when lower-casing changes the byte length of the
/// haystack, and the lower-cased texts otherwise.
pub open spec fn searched_texts(haystack: Seq<char>, query: Seq<char>, case_sensitive: bool) -> (Seq<char>, Seq<char>) {
    if case_sensitive || byte_len(lowercase(haystack)) != byte_len(haystack) {
        (haystack, query)
    } else {
        (lowercase(haystack), lowercase(query))
    }
}

/// What `find_byte_range` returns.
pub open spec fn find_spec(haystack: Seq<char>, query: Seq<char>, case_sensitive: bool, from_byte: int, forward: bool) -> Option<(usize, usize)> {
    if query.len() == 0 {
        None
    } else {
        let (h, n) = searched_texts(haystack, query, case_sensitive);
        wrapped_range(encode_utf8(h), encode_utf8(n), min_int(from_byte, byte_len(h) as int), forward)
    }
}

pub(crate) proof fn lemma_first_match_occurs(h: Seq<u8>, n: Seq<u8>, p: int)
    ensures
        first_match_from(h, n, p) matches Some(q) ==> p <= q && occurs_at(h, n, q),
    decreases h.len() + 1 - p,
{
    if !(p < 0 || p + n.len() > h.len()) && !occurs_at(h, n, p) {
        lemma_first_match_occurs(h, n, p + 1);
    }
}

proof fn lemma_last_match_occurs(h: Seq<u8>, n: Seq<u8>, p: int)
    ensures
        last_match_upto(h, n, p) matches Some(q) ==> q <= p && occurs_at(h, n, q),
    decreases p + 1,
{
    if p >= 0 && !occurs_at(h, n, p) {
        lemma_last_match_occurs(h, n, p - 1);
    }
}

/// What a search finds is an occurrence of the query: the returned byte
/// range lies in the searched text and holds exactly the searched query's
/// bytes (the lower-cased texts when the search compared those).
pub proof fn lemma_found_range_holds_query(haystack: Seq<char>, query: Seq<char>, case_sensitive: bool, from_byte: int, forward: bool)
    requires
        byte_len(haystack) <= usize::MAX,
    ensures
        find_spec(haystack, query, case_sensitive, from_byte, forward) matches Some((a, b)) ==> {
            let (h, n) = searched_texts(haystack, query, case_sensitive);
            &&& a <= b <= encode_utf8(h).len()
            &&& b - a == encode_utf8(n).len()
            &&& encode_utf8(h).subrange(a as int, b as int) == encode_utf8(n)
        },
{
    let (h, n) = searched_texts(haystack, query, case_sensitive);
    let hb = encode_utf8(h);
    let nb = encode_utf8(n);
    let from = min_int(from_byte, byte_len(h) as int);
    lemma_first_match_occurs(hb, nb, from);
    lemma_first_match_occurs(hb, nb, 0);
    lemma_last_match_occurs(hb, nb, from - nb.len());
    lemma_last_match_occurs(hb, nb, hb.len() - nb.len());
}

/// Whether `n` occurs in `h` at byte `p`.
fn occurs_at_exec(h: &[u8], n: &[u8], p: usize) -> (r: bool)
    ensures
        r == occurs_at(h@, n@, p as int),
{
    if p > h.len() || n.len() > h.len() - p {
        return false;
    }
    let mut j: usize = 0;
    while j < n.len()
        invariant
            p + n.len() <= h.len(),
            j <= n.len(),
            h@.subrange(p as int, p + j) == n@.subrange(0, j as int),
        decreases n.len() - j,
    {
        if h[p + j] != n[j] {
            assert(h@.subrange(p as int, p + n.len())[j as int] != n@[j as int]);
            return false;
        }
        assert(h@.subrange(p as int, p + j + 1) =~= h@.subrange(p as int, p + j).push(h@[p + j]));
        assert(n@.subrange(0, j + 1) =~= n@.subrange(0, j as int).push(n@[j as int]));
        j = j + 1;
    }
    assert(n@.subrange(0, n.len() as int) =~= n@);
    true
}

/// First occurrence of `n` in `h` at byte `p` or later.
pub(crate) fn first_match_exec(h: &[u8], n: &[u8], p: usize) -> (r: Option<usize>)
    ensures
        r matches Some(q) ==> first_match_from(h@, n@, p as int) == Some(q as int) && q + n.len() <= h.len(),
        r is None ==> first_match_from(h@, n@, p as int) is None,
{
    let mut q = p;
    loop
        invariant
            p <= q,
            first_match_from(h@, n@, p as int) == first_match_from(h@, n@, q as int),
        decreases h.len() + 1 - q,
    {
        if q > h.len() || n.len() > h.len() - q {
            return None;
        }
        if occurs_at_exec(h, n, q) {
            return Some(q);
        }
        if q >= h.len() {
            assert(first_match_from(h@, n@, q + 1) == None::<int>);
            return None;
        }
        q = q + 1;
    }
}

/// Last occurrence of `n` in `h` that ends at byte `end` or earlier.
pub(crate) fn last_match_exec(h: &[u8], n: &[u8], end: usize) -> (r: Option<usize>)
    requires
        end <= h.len(),
    ensures
        r matches Some(q) ==> last_match_upto(h@, n@, end - n.len()) == Some(q as int) && q + n.len() <= h.len(),
        r is None ==> last_match_upto(h@, n@, end - n.len()) is None,
{
    if n.len() > end {
        return None;
    }
    let mut q = end - n.len();
    loop
        invariant
            q + n.len() <= end <= h.len(),
            last_match_upto(h@, n@, end - n.len()) == last_match_upto(h@, n@, q as int),
        decreases q,
    {
        if occurs_at_exec(h, n, q) {
            return Some(q);
        }
        if q == 0 {
            assert(last_match_upto(h@, n@, -1) == None::<int>);
            return None;
        }
        q = q - 1;
    }
}

/// Next (or previous) byte range of `n` in `h`, starting from `from_byte`.
/// Forward search wraps to the start; backward search wraps to the end.
pub fn find_byte_range_inner(h: &str, n: &str, from_byte: usize, forward: bool) -> (r: Option<(usize, usize)>)
    requires
        is_char_boundary(encode_utf8(h@), min_int(from_byte as int, encode_utf8(h@).len() as int)),
    ensures
        r == wrapped_range(encode_utf8(h@), encode_utf8(n@), min_int(from_byte as int, encode_utf8(h@).len() as int), forward),
{
    let hb = h.as_bytes();
    let nb = n.as_bytes();
    let from = if from_byte < hb.len() { from_byte } else { hb.len() };
    let ghost spec_pos = wrapped_match(hb@, nb@, from as int, forward);
    let pos = if forward {
        match first_match_exec(hb, nb, from) {
            Some(p) => Some(p),
            None => first_match_exec(hb, nb, 0),
        }
    } else {
        match last_match_exec(hb, nb, from) {
            Some(p) => Some(p),
            None => last_match_exec(hb, nb, hb.len()),
        }
    };
    assert(pos matches Some(p) ==> spec_pos == Some(p as int) && p + nb.len() <= hb.len());
    assert(pos is None ==> spec_pos is None);
    match pos {
        Some(p) => Some((p, p + nb.len())),
        None => None,
    }
}

/// Find the next (or previous) byte range of `query` in `haystack`, starting
/// from `from_byte`. Forward search wraps to the start; backward wraps to the
/// end. A case-insensitive search compares lower-cased texts, unless
/// lower-casing changes the byte length of the haystack, in which case it
/// falls back to a case-sensitive search so that byte offsets stay valid.
pub fn find_byte_range(haystack: &str, query: &str, case_sensitive: bool, from_byte: usize, forward: bool) -> (r: Option<(usize, usize)>)
    requires
        ({
            let h = searched_texts(haystack@, query@, case_sensitive).0;
            is_char_boundary(encode_utf8(h), min_int(from_byte as int, byte_len(h) as int))
        }),
    ensures
        r == find_spec(haystack@, query@, case_sensitive, from_byte as int, forward),
{
    if query.is_empty() {
        return None;
    }
    if case_sensitive {
        return find_byte_range_inner(haystack, query, from_byte, forward);
    }
    let h_owned = to_lowercase(haystack);
    let n_owned = to_lowercase(query);
    let h = h_owned.as_str();
    let n = n_owned.as_str();
    if byte_count(h) != byte_count(haystack) {
        return find_byte_range_inner(haystack, query, from_byte, forward);
    }
    find_byte_range_inner(h, n, from_byte, forward)
}

/// `find_byte_range` for any `from_byte`: `None` when `from_byte` (clamped to
/// the text's length) does not fall on a character boundary of the searched
/// text, and `Some` of the search result otherwise.
pub fn try_find_byte_range(haystack: &str, query: &str, case_sensitive: bool, from_byte: usize, forward: bool) -> (r: Option<Option<(usize, usize)>>)
    ensures
        ({
            let h = searched_texts(haystack@, query@, case_sensitive).0;
            let ok = is_char_boundary(encode_utf8(h), min_int(from_byte as int, byte_len(h) as int));
            &&& (r is Some <==> ok)
            &&& (ok ==> r == Some(find_spec(haystack@, query@, case_sensitive, from_byte as int, forward)))
        }),
{
    let hay_len = byte_count(haystack);
    let ok = if case_sensitive {
        let b = if from_byte < hay_len { from_byte } else { hay_len };
        haystack.is_char_boundary(b)
    } else {
        let h_owned = to_lowercase(haystack);
        let h = h_owned.as_str();
        let low_len = byte_count(h);
        if low_len != hay_len {
            let b = if from_byte < hay_len { from_byte } else { hay_len };
            haystack.is_char_boundary(b)
        } else {
            let b = if from_byte < low_len { from_byte } else { low_len };
            h.is_char_boundary(b)
        }
    };
    if ok {
        Some(find_byte_range(haystack, query, case_sensitive, from_byte, forward))
    } else {
        None
    }
}

/// Number of characters in the first `byte_idx` bytes of `s` (or in all of
/// `s` when `byte_idx` is past its end).
pub fn byte_to_char(s: &str, byte_idx: usize) -> (r: usize)
    requires
        is_char_boundary(encode_utf8(s@), min_int(byte_idx as int, encode_utf8(s@).len() as int)),
    ensures
        r <= s@.len(),
        byte_len(s@.take(r as int)) == min_int(byte_idx as int, byte_len(s@) as int),
{
    let total = byte_count(s);
    let target = if byte_idx < total { byte_idx } else { total };
    proof {
        lemma_boundary_is_prefix(s@, target as int);
        lemma_prefix_ends(s@);
    }
    let v = chars_of(s);
    let mut k: usize = 0;
    let mut bytes: usize = 0;
    while bytes < target
        invariant
            v@ == s@,
            target <= byte_len(s@),
            k <= v.len(),
            bytes == byte_len(s@.take(k as int)),
            exists|j: int| k <= j <= s@.len() && #[trigger] byte_len(s@.take(j)) == target,
        decreases target - bytes,
    {
        let ghost j = choose|j: int| k <= j <= s@.len() && #[trigger] byte_len(s@.take(j)) == target;
        assert(k < j) by {
            if k == j {
                assert(bytes == target);
            }
        }
        proof {
            lemma_encode_prefix_step(s@, k as int);
            if k + 1 < j {
                lemma_prefix_len_strict(s@, k + 1, j);
            }
        }
        let n = char_len_utf8(v[k]);
        bytes = bytes + n;
        k = k + 1;
    }
    proof {
        let j = choose|j: int| k <= j <= s@.len() && #[trigger] byte_len(s@.take(j)) == target;
        if k < j {
            lemma_prefix_len_strict(s@, k as int, j);
        }
    }
    k
}

/// Byte offset of the character at index `char_idx` of `s`, or the byte
/// length of `s` when there are not that many characters.
pub fn char_to_byte(s: &str, char_idx: usize) -> (r: usize)
    ensures
        r == byte_len(s@.take(if char_idx <= s@.len() { char_idx as int } else { s@.len() as int })),
{
    let total = byte_count(s);
    let v = chars_of(s);
    let end = if char_idx < v.len() { char_idx } else { v.len() };
    let mut k: usize = 0;
    let mut bytes: usize = 0;
    proof {
        lemma_prefix_ends(s@);
    }
    while k < end
        invariant
            v@ == s@,
            end <= v.len(),
            k <= end,
            bytes == byte_len(s@.take(k as int)),
            encode_utf8(s@).len() <= usize::MAX,
        decreases end - k,
    {
        proof {
            lemma_encode_prefix_step(s@, k as int);
            lemma_encode_split(s@, k + 1);
        }
        let n = char_len_utf8(v[k]);
        bytes = bytes + n;
        k = k + 1;
    }
    bytes
}

/// Character and byte offsets convert into each other: the byte offset of
/// character `k` is a character boundary, and `k` is the only character
/// index with that byte offset, so `byte_to_char` gives `k` back.
pub proof fn lemma_char_byte_roundtrip(s: Seq<char>, k: int)
    requires
        0 <= k <= s.len(),
    ensures
        is_char_boundary(encode_utf8(s), byte_len(s.take(k)) as int),
        byte_len(s.take(k)) <= byte_len(s),
        forall|j: int| 0 <= j <= s.len() && #[trigger] byte_len(s.take(j)) == byte_len(s.take(k)) ==> j == k,
{
    lemma_prefix_is_boundary(s, k);
    lemma_prefix_ends(s);
    if k < s.len() {
        lemma_prefix_len_strict(s, k, s.len() as int);
        assert(s.take(s.len() as int) =~= s);
    } else {
        assert(s.take(k) =~= s);
    }
    assert forall|j: int| 0 <= j <= s.len() && #[trigger] byte_len(s.take(j)) == byte_len(s.take(k)) implies j == k by {
        if j < k {
            lemma_prefix_len_strict(s, j, k);
        } else if k < j {
            lemma_prefix_len_strict(s, k, j);
        }
    }
}

/// Number of bytes in the UTF-8 encoding of `c` (std's `char::len_utf8`).
pub fn char_len_utf8(c: char) -> (r: usize)
    ensures
        r == encode_scalar(c as u32).len(),
        1 <= r <= 4,
{
    proof {
        lemma_encode_single(c);
        char_is_scalar(c);
    }
    let u = c as u32;
    if u <= 0x7F {
        1
    } else if u <= 0x7FF {
        2
    } else if u <= 0xFFFF {
        3
    } else {
        4
    }
}

/// `s` with every non-overlapping occurrence of `q` (scanning left to right)
/// replaced by `r`.
pub open spec fn replace_spec(s: Seq<char>, q: Seq<char>, r: Seq<char>) -> Seq<char>
    decreases s.len(),
{
    if q.len() == 0 || s.len() == 0 {
        s
    } else if q.len() <= s.len() && s.take(q.len() as int) == q {
        r + replace_spec(s.skip(q.len() as int), q, r)
    } else {
        seq![s[0]] + replace_spec(s.drop_first(), q, r)
    }
}

/// Number of non-overlapping occurrences of `q` in `s`, scanning left to right.
pub open spec fn count_spec(s: Seq<char>, q: Seq<char>) -> nat
    decreases s.len(),
{
    if q.len() == 0 || s.len() == 0 {
        0
    } else if q.len() <= s.len() && s.take(q.len() as int) == q {
        1 + count_spec(s.skip(q.len() as int), q)
    } else {
        count_spec(s.drop_first(), q)
    }
}

/// Replacing when the query does not occur leaves the text as it was.
pub proof fn lemma_replace_without_match(s: Seq<char>, q: Seq<char>, r: Seq<char>)
    requires
        count_spec(s, q) == 0,
    ensures
        replace_spec(s, q, r) == s,
    decreases s.len(),
{
    if q.len() > 0 && s.len() > 0 {
        if !(q.len() <= s.len() && s.take(q.len() as int) == q) {
            lemma_replace_without_match(s.drop_first(), q, r);
            assert(seq![s[0]] + s.drop_first() =~= s);
        }
    }
}

/// Replacing the query by itself leaves the text as it was.
pub proof fn lemma_replace_by_itself(s: Seq<char>, q: Seq<char>)
    ensures
        replace_spec(s, q, q) == s,
    decreases s.len(),
{
    if q.len() > 0 && s.len() > 0 {
        if q.len() <= s.len() && s.take(q.len() as int) == q {
            lemma_replace_by_itself(s.skip(q.len() as int), q);
            assert(s.take(q.len() as int) + s.skip(q.len() as int) =~= s);
        } else {
            lemma_replace_by_itself(s.drop_first(), q);
            assert(seq![s[0]] + s.drop_first() =~= s);
        }
    }
}

/// Each replaced occurrence changes the length by the difference of the
/// replacement's and the query's lengths.
pub proof fn lemma_replace_len(s: Seq<char>, q: Seq<char>, r: Seq<char>)
    ensures
        replace_spec(s, q, r).len() == s.len() + count_spec(s, q) * (r.len() - q.len()),
    decreases s.len(),
{
    let c = count_spec(s, q) as int;
    let d = r.len() - q.len();
    let out = replace_spec(s, q, r).len() as int;
    if q.len() > 0 && s.len() > 0 {
        if q.len() <= s.len() && s.take(q.len() as int) == q {
            let rest = s.skip(q.len() as int);
            lemma_replace_len(rest, q, r);
            let c1 = count_spec(rest, q) as int;
            let o1 = replace_spec(rest, q, r).len() as int;
            assert(out == r.len() + o1);
            assert(c == 1 + c1);
            assert(rest.len() == s.len() - q.len());
            assert(out == s.len() + c * d) by (nonlinear_arith)
                requires
                    c == 1 + c1,
                    out == r.len() + o1,
                    o1 == rest.len() + c1 * d,
                    rest.len() == s.len() - q.len(),
                    d == r.len() - q.len(),
            ;
        } else {
            let rest = s.drop_first();
            lemma_replace_len(rest, q, r);
            assert(out == 1 + replace_spec(rest, q, r).len());
            assert(c == count_spec(rest, q));
        }
    } else {
        assert(c == 0);
        assert(c * d == 0) by (nonlinear_arith)
            requires
                c == 0,
        ;
    }
}

/// There are no more occurrences than characters.
pub proof fn lemma_count_at_most_len(s: Seq<char>, q: Seq<char>)
    ensures
        count_spec(s, q) <= s.len(),
    decreases s.len(),
{
    if q.len() > 0 && s.len() > 0 {
        if q.len() <= s.len() && s.take(q.len() as int) == q {
            lemma_count_at_most_len(s.skip(q.len() as int), q);
        } else {
            lemma_count_at_most_len(s.drop_first(), q);
        }
    }
}

/// Whether `q` occurs in `v` at character `i`.
fn chars_match_at(v: &Vec<char>, q: &Vec<char>, i: usize) -> (r: bool)
    requires
        i <= v.len(),
    ensures
        r == (q.len() <= v.len() - i && v@.skip(i as int).take(q.len() as int) == q@),
{
    if q.len() > v.len() - i {
        return false;
    }
    let mut j: usize = 0;
    while j < q.len()
        invariant
            i + q.len() <= v.len(),
            j <= q.len(),
            v@.subrange(i as int, i + j) == q@.subrange(0, j as int),
        decreases q.len() - j,
    {
        if v[i + j] != q[j] {
            assert(v@.skip(i as int).take(q.len() as int)[j as int] != q@[j as int]);
            return false;
        }
        assert(v@.subrange(i as int, i + j + 1) =~= v@.subrange(i as int, i + j).push(v@[i + j]));
        assert(q@.subrange(0, j + 1) =~= q@.subrange(0, j as int).push(q@[j as int]));
        j = j + 1;
    }
    assert(q@.subrange(0, q.len() as int) =~= q@);
    assert(v@.skip(i as int).take(q.len() as int) =~= v@.subrange(i as int, i + q.len()));
    true
}

/// Replace every occurrence of `query` in `content` by `replacement`; also
/// returns how many occurrences were replaced. An empty query replaces
/// nothing.
pub fn replace_all(content: &str, query: &str, replacement: &str) -> (r: (String, usize))
    ensures
        r.0@ == replace_spec(content@, query@, replacement@),
        r.1 == count_spec(content@, query@),
{
    if query.is_empty() {
        return (String::from_str(content), 0);
    }
    let v = chars_of(content);
    let q = chars_of(query);
    let n_chars = v.len();
    proof {
        lemma_count_at_most_len(content@, query@);
        assert(content@.len() == n_chars);
    }
    let mut out = String::new();
    let mut count: usize = 0;
    let mut i: usize = 0;
    assert(v@.skip(0) =~= v@);
    assert(out@ + replace_spec(content@, query@, replacement@) =~= replace_spec(content@, query@, replacement@));
    while i < v.len()
        invariant
            v@ == content@,
            q@ == query@,
            q.len() > 0,
            i <= v.len(),
            out@ + replace_spec(v@.skip(i as int), q@, replacement@) == replace_spec(content@, query@, replacement@),
            count + count_spec(v@.skip(i as int), q@) == count_spec(content@, query@),
            count_spec(content@, query@) <= usize::MAX,
        decreases v.len() - i,
    {
        let ghost rest = v@.skip(i as int);
        if chars_match_at(&v, &q, i) {
            assert(rest.skip(q.len() as int) =~= v@.skip(i + q.len()));
            assert(out@ + replacement@ + replace_spec(v@.skip(i + q.len()), q@, replacement@)
                =~= out@ + (replacement@ + replace_spec(v@.skip(i + q.len()), q@, replacement@)));
            out.append(replacement);
            count = count + 1;
            i = i + q.len();
        } else {
            assert(rest.drop_first() =~= v@.skip(i + 1));
            assert(out@.push(v@[i as int]) + replace_spec(v@.skip(i + 1), q@, replacement@)
                =~= out@ + (seq![v@[i as int]] + replace_spec(v@.skip(i + 1), q@, replacement@)));
            push_char(&mut out, v[i]);
            i = i + 1;
        }
    }
    assert(v@.skip(i as int) =~= Seq::<char>::empty());
    assert(out@ + Seq::<char>::empty() =~= out@);
    (out, count)
}

} // verus!
