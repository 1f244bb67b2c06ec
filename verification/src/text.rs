//! Character and byte level helpers over `str` and `String`, and the UTF-8
//! facts that relate character positions to byte offsets.
use vstd::prelude::*;
use vstd::utf8::*;

verus! {

/// Number of bytes of the UTF-8 encoding of `s`.
pub open spec fn byte_len(s: Seq<char>) -> nat {
    encode_utf8(s).len()
}

/// Number of bytes of `s` (std's `str::len`), which always fits in a `usize`.
pub fn byte_count(s: &str) -> (n: usize)
    ensures
        n == byte_len(s@),
{
    s.as_bytes().len()
}

/// The characters of `s`, in order.
pub fn chars_of(s: &str) -> (v: Vec<char>)
    ensures
        v@ == s@,
{
    let mut v: Vec<char> = Vec::new();
    for c in it: s.chars()
        invariant
            v@ == it.seq().take(it.index() as int),
    {
        v.push(c);
    }
    v
}

/// Appends one character to a `String` (std's `String::push`).
#[verifier::external_body]
pub(crate) fn push_char(s: &mut String, c: char)
    ensures
        final(s)@ == old(s)@.push(c),
{
    s.push(c);
}

/// A `String` holding exactly the characters of `v[from..to]`.
pub fn string_from_range(v: &Vec<char>, from: usize, to: usize) -> (s: String)
    requires
        from <= to <= v.len(),
    ensures
        s@ == v@.subrange(from as int, to as int),
{
    let mut s = String::new();
    let mut i = from;
    while i < to
        invariant
            from <= i <= to <= v.len(),
            s@ == v@.subrange(from as int, i as int),
        decreases to - i,
    {
        push_char(&mut s, v[i]);
        assert(v@.subrange(from as int, i + 1) =~= v@.subrange(from as int, i as int).push(v@[i as int]));
        i = i + 1;
    }
    s
}

/// Whether `a` and `b` hold the same characters.
pub fn str_eq(a: &str, b: &str) -> (r: bool)
    ensures
        r == (a@ == b@),
{
    let va = chars_of(a);
    let vb = chars_of(b);
    if va.len() != vb.len() {
        return false;
    }
    let mut i: usize = 0;
    while i < va.len()
        invariant
            va@ == a@,
            vb@ == b@,
            va.len() == vb.len(),
            i <= va.len(),
            forall|j: int| 0 <= j < i ==> va@[j] == vb@[j],
        decreases va.len() - i,
    {
        if va[i] != vb[i] {
            assert(va@[i as int] != vb@[i as int]);
            return false;
        }
        i = i + 1;
    }
    assert(va@ =~= vb@);
    true
}

/// The concatenation of `a` and `b`.
pub fn concat(a: &str, b: &str) -> (r: String)
    ensures
        r@ == a@ + b@,
{
    let mut s = String::from_str(a);
    s.append(b);
    s
}

/// Whether `c` has the Unicode White_Space property, which is what std's
/// `char::is_whitespace` tests: U+0009 to U+000D, space, U+0085, U+00A0,
/// U+1680, U+2000 to U+200A, U+2028, U+2029, U+202F, U+205F and U+3000.
pub open spec fn is_white_space(c: char) -> bool {
    ||| ('\t' <= c && c <= '\r')
    ||| c == ' '
    ||| c == '\u{85}'
    ||| c == '\u{A0}'
    ||| c == '\u{1680}'
    ||| ('\u{2000}' <= c && c <= '\u{200A}')
    ||| c == '\u{2028}'
    ||| c == '\u{2029}'
    ||| c == '\u{202F}'
    ||| c == '\u{205F}'
    ||| c == '\u{3000}'
}

/// Whether `c` is whitespace (the Unicode White_Space property, as std's
/// `char::is_whitespace`).
pub fn char_is_whitespace(c: char) -> (r: bool)
    ensures
        r == is_white_space(c),
{
    ('\t' <= c && c <= '\r') || c == ' ' || c == '\u{85}' || c == '\u{A0}' || c == '\u{1680}'
        || ('\u{2000}' <= c && c <= '\u{200A}') || c == '\u{2028}' || c == '\u{2029}' || c == '\u{202F}'
        || c == '\u{205F}' || c == '\u{3000}'
}

/// `s` without its trailing whitespace.
pub open spec fn trim_end_spec(s: Seq<char>) -> Seq<char>
    decreases s.len(),
{
    if s.len() > 0 && is_white_space(s.last()) {
        trim_end_spec(s.drop_last())
    } else {
        s
    }
}

/// `s` without trailing whitespace (std's `str::trim_end`).
pub fn trim_end(s: &str) -> (r: String)
    ensures
        r@ == trim_end_spec(s@),
{
    let v = chars_of(s);
    let mut n = v.len();
    assert(v@.take(n as int) =~= v@);
    while n > 0 && char_is_whitespace(v[n - 1])
        invariant
            n <= v.len(),
            v@ == s@,
            trim_end_spec(s@) == trim_end_spec(v@.take(n as int)),
        decreases n,
    {
        assert(v@.take(n as int).drop_last() =~= v@.take(n - 1));
        n = n - 1;
    }
    let r = string_from_range(&v, 0, n);
    assert(v@.subrange(0, n as int) =~= v@.take(n as int));
    r
}

/// `s` without leading whitespace.
pub open spec fn trim_start_spec(s: Seq<char>) -> Seq<char>
    decreases s.len(),
{
    if s.len() > 0 && is_white_space(s[0]) {
        trim_start_spec(s.drop_first())
    } else {
        s
    }
}

/// `s` without leading and trailing whitespace (std's `str::trim`).
pub open spec fn trim_spec(s: Seq<char>) -> Seq<char> {
    trim_end_spec(trim_start_spec(s))
}

/// `s` without leading or trailing whitespace (std's `str::trim`).
pub fn trim(s: &str) -> (r: String)
    ensures
        r@ == trim_spec(s@),
{
    let v = chars_of(s);
    let mut i: usize = 0;
    assert(v@.skip(0) =~= v@);
    while i < v.len() && char_is_whitespace(v[i])
        invariant
            i <= v.len(),
            v@ == s@,
            trim_start_spec(s@) == trim_start_spec(v@.skip(i as int)),
        decreases v.len() - i,
    {
        assert(v@.skip(i as int).drop_first() =~= v@.skip(i + 1));
        i = i + 1;
    }
    let front = string_from_range(&v, i, v.len());
    assert(v@.subrange(i as int, v@.len() as int) =~= v@.skip(i as int));
    trim_end(front.as_str())
}

/// `s` without its prefix `p`, when `p` is a prefix of `s` (std's
/// `str::strip_prefix`).
pub fn strip_prefix(s: &str, p: &str) -> (r: Option<String>)
    ensures
        match r {
            Some(rest) => p@.len() <= s@.len() && s@.take(p@.len() as int) == p@ && rest@ == s@.skip(p@.len() as int),
            None => !(p@.len() <= s@.len() && s@.take(p@.len() as int) == p@),
        },
{
    let v = chars_of(s);
    let q = chars_of(p);
    if q.len() > v.len() {
        return None;
    }
    let mut j: usize = 0;
    while j < q.len()
        invariant
            v@ == s@,
            q@ == p@,
            q.len() <= v.len(),
            j <= q.len(),
            forall|k: int| 0 <= k < j ==> v@[k] == q@[k],
        decreases q.len() - j,
    {
        if v[j] != q[j] {
            assert(s@.take(p@.len() as int)[j as int] != p@[j as int]);
            return None;
        }
        j = j + 1;
    }
    assert(s@.take(p@.len() as int) =~= p@);
    let rest = string_from_range(&v, q.len(), v.len());
    assert(v@.subrange(q.len() as int, v@.len() as int) =~= s@.skip(p@.len() as int));
    Some(rest)
}

/// Encoding a concatenation is concatenating the encodings.
pub proof fn lemma_encode_concat(a: Seq<char>, b: Seq<char>)
    ensures
        encode_utf8(a + b) == encode_utf8(a) + encode_utf8(b),
    decreases a.len(),
{
    if a.len() == 0 {
        assert(a + b =~= b);
        assert(encode_utf8(a) + encode_utf8(b) =~= encode_utf8(b));
    } else {
        assert((a + b).drop_first() =~= a.drop_first() + b);
        lemma_encode_concat(a.drop_first(), b);
        assert(encode_utf8(a + b) =~= encode_utf8(a) + encode_utf8(b));
    }
}

/// The encoding of a single character is its scalar encoding, of one to four bytes.
pub proof fn lemma_encode_single(c: char)
    ensures
        encode_utf8(seq![c]) == encode_scalar(c as u32),
        1 <= encode_scalar(c as u32).len() <= 4,
{
    assert(seq![c].drop_first() =~= Seq::<char>::empty());
    assert(encode_utf8(Seq::<char>::empty()) =~= Seq::<u8>::empty());
    assert(encode_utf8(seq![c]) =~= encode_scalar(c as u32));
}

/// One more character of prefix adds that character's encoding.
pub proof fn lemma_encode_prefix_step(s: Seq<char>, k: int)
    requires
        0 <= k < s.len(),
    ensures
        encode_utf8(s.take(k + 1)) == encode_utf8(s.take(k)) + encode_scalar(s[k] as u32),
        byte_len(s.take(k + 1)) == byte_len(s.take(k)) + encode_scalar(s[k] as u32).len(),
        byte_len(s.take(k)) < byte_len(s.take(k + 1)),
{
    assert(s.take(k + 1) =~= s.take(k) + seq![s[k]]);
    lemma_encode_concat(s.take(k), seq![s[k]]);
    lemma_encode_single(s[k]);
}

/// Byte lengths of prefixes grow strictly with the number of characters.
pub proof fn lemma_prefix_len_strict(s: Seq<char>, j: int, k: int)
    requires
        0 <= j < k <= s.len(),
    ensures
        byte_len(s.take(j)) < byte_len(s.take(k)),
    decreases k - j,
{
    lemma_encode_prefix_step(s, k - 1);
    if j < k - 1 {
        lemma_prefix_len_strict(s, j, k - 1);
    }
}

/// The whole sequence is its own prefix; the empty prefix has no bytes.
pub proof fn lemma_prefix_ends(s: Seq<char>)
    ensures
        s.take(s.len() as int) == s,
        byte_len(s.take(0)) == 0,
{
    assert(s.take(s.len() as int) =~= s);
    assert(s.take(0) =~= Seq::<char>::empty());
}

/// The encoding of a prefix followed by the encoding of the rest is the whole encoding.
pub proof fn lemma_encode_split(s: Seq<char>, k: int)
    requires
        0 <= k <= s.len(),
    ensures
        encode_utf8(s) == encode_utf8(s.take(k)) + encode_utf8(s.skip(k)),
{
    assert(s =~= s.take(k) + s.skip(k));
    lemma_encode_concat(s.take(k), s.skip(k));
}

/// Every character boundary of an encoding is the byte length of some prefix.
pub proof fn lemma_boundary_is_prefix(s: Seq<char>, i: int)
    requires
        is_char_boundary(encode_utf8(s), i),
    ensures
        exists|k: int| 0 <= k <= s.len() && #[trigger] byte_len(s.take(k)) == i,
    decreases s.len(),
{
    broadcast use encode_utf8_valid_utf8;

    lemma_prefix_ends(s);
    if i == 0 {
        assert(byte_len(s.take(0)) == 0);
    } else {
        let bytes = encode_utf8(s);
        assert(s.len() > 0) by {
            if s.len() == 0 {
                assert(bytes.len() == 0);
            }
        }
        encode_utf8_first_scalar(s);
        let l = length_of_first_scalar(bytes);
        lemma_encode_single(s[0]);
        assert(s =~= seq![s[0]] + s.drop_first());
        lemma_encode_concat(seq![s[0]], s.drop_first());
        assert(pop_first_scalar(bytes) =~= encode_utf8(s.drop_first()));
        lemma_boundary_is_prefix(s.drop_first(), i - l);
        let k = choose|k: int|
            0 <= k <= s.drop_first().len() && #[trigger] byte_len(s.drop_first().take(k)) == i - l;
        assert(s.take(k + 1) =~= seq![s[0]] + s.drop_first().take(k));
        lemma_encode_concat(seq![s[0]], s.drop_first().take(k));
        assert(byte_len(s.take(k + 1)) == i);
    }
}

/// The byte length of every prefix is a character boundary of the encoding.
pub proof fn lemma_prefix_is_boundary(s: Seq<char>, k: int)
    requires
        0 <= k <= s.len(),
    ensures
        is_char_boundary(encode_utf8(s), byte_len(s.take(k)) as int),
    decreases s.len(),
{
    broadcast use encode_utf8_valid_utf8;

    if k == 0 {
        lemma_prefix_ends(s);
    } else {
        let bytes = encode_utf8(s);
        encode_utf8_first_scalar(s);
        let l = length_of_first_scalar(bytes);
        lemma_encode_single(s[0]);
        assert(s =~= seq![s[0]] + s.drop_first());
        lemma_encode_concat(seq![s[0]], s.drop_first());
        assert(pop_first_scalar(bytes) =~= encode_utf8(s.drop_first()));
        lemma_prefix_is_boundary(s.drop_first(), k - 1);
        assert(s.take(k) =~= seq![s[0]] + s.drop_first().take(k - 1));
        lemma_encode_concat(seq![s[0]], s.drop_first().take(k - 1));
        lemma_encode_split(s, k);
        assert(byte_len(s.take(k)) <= bytes.len());
    }
}

/// In valid UTF-8, the position right after an ASCII byte is a character boundary.
pub proof fn lemma_ascii_next_boundary(bytes: Seq<u8>, i: int)
    requires
        valid_utf8(bytes),
        0 <= i < bytes.len(),
        bytes[i] < 0x80,
    ensures
        is_char_boundary(bytes, i + 1),
    decreases bytes.len(),
{
    let l = length_of_first_scalar(bytes);
    let tail = pop_first_scalar(bytes);
    assert(valid_first_scalar(bytes) && valid_utf8(tail));
    if i < l {
        assert(i == 0);
        assert(l == 1);
        assert(is_char_boundary(tail, 0));
    } else {
        assert(tail[i - l] == bytes[i]);
        lemma_ascii_next_boundary(tail, i - l);
    }
}

/// In valid UTF-8, every ASCII byte starts a character.
pub proof fn lemma_ascii_is_boundary(bytes: Seq<u8>, i: int)
    requires
        valid_utf8(bytes),
        0 <= i < bytes.len(),
        bytes[i] < 0x80,
    ensures
        is_char_boundary(bytes, i),
{
    is_char_boundary_iff_not_is_continuation_byte(bytes, i);
}

} // verus!
