//! Cursor arithmetic of the code view: line and column of a character
//! position, and the character position where a line starts.
use vstd::prelude::*;

use crate::text::chars_of;

verus! {

/// The code view. It has no state of its own: it shows the active tab.
pub struct EditorView;

/// Number of occurrences of `c` in `s`.
pub open spec fn count_char(s: Seq<char>, c: char) -> nat
    decreases s.len(),
{
    if s.len() == 0 {
        0
    } else {
        count_char(s.drop_last(), c) + if s.last() == c { 1nat } else { 0nat }
    }
}

/// Number of characters after the last newline of `s` (all of them when
/// there is none).
pub open spec fn col_after_newline(s: Seq<char>) -> nat
    decreases s.len(),
{
    if s.len() == 0 {
        0
    } else if s.last() == '\n' {
        0
    } else {
        col_after_newline(s.drop_last()) + 1
    }
}

/// The character position `char_idx` of `text` clamped to its length.
pub open spec fn clamp_len(text: Seq<char>, char_idx: int) -> int {
    if char_idx <= text.len() { char_idx } else { text.len() as int }
}

/// Zero-based line and column of character position `char_idx` in `text`
/// (positions past the end count as the end).
pub fn line_col(text: &str, char_idx: usize) -> (r: (usize, usize))
    ensures
        r.0 == count_char(text@.take(clamp_len(text@, char_idx as int)), '\n'),
        r.1 == col_after_newline(text@.take(clamp_len(text@, char_idx as int))),
{
    let v = chars_of(text);
    let mut line: usize = 0;
    let mut col: usize = 0;
    let mut i: usize = 0;
    while i < v.len()
        invariant
            v@ == text@,
            i <= v.len(),
            line == count_char(v@.take(i as int), '\n'),
            col == col_after_newline(v@.take(i as int)),
            line <= i,
            col <= i,
            i <= char_idx,
        decreases v.len() - i,
    {
        if i == char_idx {
            return (line, col);
        }
        assert(v@.take(i + 1).drop_last() =~= v@.take(i as int));
        if v[i] == '\n' {
            line = line + 1;
            col = 0;
        } else {
            col = col + 1;
        }
        i = i + 1;
    }
    assert(v@.take(v.len() as int) =~= v@);
    (line, col)
}

/// Character position where zero-based line `target` of `text` starts:
/// just after the `target`-th newline, or the end of `text` when it has
/// fewer newlines.
pub open spec fn is_line_start(text: Seq<char>, target: nat, k: int) -> bool {
    if target == 0 {
        k == 0
    } else {
        0 <= k <= text.len() && (
            (count_char(text.take(k), '\n') == target && text[k - 1] == '\n')
            || (k == text.len() && count_char(text, '\n') < target))
    }
}

proof fn lemma_count_char_take_step(s: Seq<char>, k: int, c: char)
    requires
        0 < k <= s.len(),
    ensures
        count_char(s.take(k), c) == count_char(s.take(k - 1), c) + if s[k - 1] == c { 1nat } else { 0nat },
        col_after_newline(s.take(k)) == if s[k - 1] == '\n' { 0 } else { col_after_newline(s.take(k - 1)) + 1 },
{
    assert(s.take(k).drop_last() =~= s.take(k - 1));
}

proof fn lemma_count_char_monotone(s: Seq<char>, i: int, j: int, c: char)
    requires
        0 <= i <= j <= s.len(),
    ensures
        count_char(s.take(i), c) <= count_char(s.take(j), c),
    decreases j - i,
{
    if i < j {
        lemma_count_char_take_step(s, j, c);
        lemma_count_char_monotone(s, i, j - 1, c);
    }
}

proof fn lemma_line_start_of_position(s: Seq<char>, k: int)
    requires
        0 <= k <= s.len(),
    ensures
        col_after_newline(s.take(k)) <= k,
        is_line_start(s, count_char(s.take(k), '\n'), k - col_after_newline(s.take(k))),
    decreases k,
{
    if k == 0 {
        assert(s.take(0) =~= Seq::<char>::empty());
    } else {
        lemma_count_char_take_step(s, k, '\n');
        lemma_line_start_of_position(s, k - 1);
    }
}

proof fn lemma_line_start_unique(s: Seq<char>, t: nat, a: int, b: int)
    requires
        is_line_start(s, t, a),
        is_line_start(s, t, b),
        a <= b,
    ensures
        a == b,
{
    if t > 0 && a < b {
        assert(s.take(s.len() as int) =~= s);
        if count_char(s.take(a), '\n') == t && s[a - 1] == '\n' {
            lemma_count_char_monotone(s, a, b - 1, '\n');
            lemma_count_char_take_step(s, b, '\n');
            lemma_count_char_monotone(s, b, s.len() as int, '\n');
        }
    }
}

/// Line and column locate a position: the line that `line_col` gives for
/// character position `k` starts `col` characters before `k`, so going to
/// that line (`line_start_char` of the line counted from 1) and moving
/// `col` characters right returns to `k`.
pub proof fn lemma_line_col_locates(s: Seq<char>, k: int)
    requires
        0 <= k <= s.len(),
    ensures
        forall|r: int| #[trigger] is_line_start(s, count_char(s.take(k), '\n'), r)
            ==> r + col_after_newline(s.take(k)) == k,
{
    lemma_line_start_of_position(s, k);
    let t = count_char(s.take(k), '\n');
    let r0 = k - col_after_newline(s.take(k));
    assert forall|r: int| #[trigger] is_line_start(s, t, r) implies r + col_after_newline(s.take(k)) == k by {
        if r <= r0 {
            lemma_line_start_unique(s, t, r, r0);
        } else {
            lemma_line_start_unique(s, t, r0, r);
        }
    }
}

/// Character position where line `target_line` (counted from 1; 0 is taken
/// as 1) of `content` starts; the end of `content` when it has fewer lines.
pub fn line_start_char(content: &str, target_line: u32) -> (r: usize)
    ensures
        is_line_start(content@, (if target_line == 0 { 0 } else { target_line - 1 }) as nat, r as int),
{
    let target: usize = if target_line == 0 { 0 } else { (target_line - 1) as usize };
    let v = chars_of(content);
    let mut line: usize = 0;
    let mut i: usize = 0;
    while i < v.len()
        invariant
            v@ == content@,
            i <= v.len(),
            line == count_char(v@.take(i as int), '\n'),
            line <= i,
            line < target || (line == target && (i == 0 || v@[i - 1] == '\n')) || target == 0,
            target == 0 ==> i == 0,
            target == (if target_line == 0 { 0 } else { target_line - 1 }),
        decreases v.len() - i,
    {
        if line == target {
            return i;
        }
        assert(v@.take(i + 1).drop_last() =~= v@.take(i as int));
        if v[i] == '\n' {
            line = line + 1;
        }
        i = i + 1;
    }
    assert(v@.take(v.len() as int) =~= v@);
    i
}

} // verus!
