//! The terminal panel's text: escape sequences and control characters are
//! dropped from the shell's output, and the kept text is bounded in size.
use vstd::prelude::*;

use crate::text::{
    byte_count, byte_len, chars_of, lemma_encode_prefix_step, lemma_encode_split, lemma_prefix_ends,
    push_char, string_from_range,
};

verus! {

/// Above this many bytes, the terminal text is cut down.
pub const MAX_BUFFER: usize = 200000;

pub open spec fn is_ascii_alpha(c: char) -> bool {
    ('a' <= c && c <= 'z') || ('A' <= c && c <= 'Z')
}

/// Position just after the end of a CSI sequence whose parameters start at
/// `j`: after its first letter or `~`, or the end of the text.
pub open spec fn csi_end(s: Seq<char>, j: int) -> int
    decreases s.len() - j,
{
    if j >= s.len() {
        s.len() as int
    } else if is_ascii_alpha(s[j]) || s[j] == '~' {
        j + 1
    } else {
        csi_end(s, j + 1)
    }
}

/// Position just after the end of an OSC sequence whose text starts at `j`:
/// after its BEL, or after its ESC and the character that follows, or the
/// end of the text.
pub open spec fn osc_end(s: Seq<char>, j: int) -> int
    decreases s.len() - j,
{
    if j >= s.len() {
        s.len() as int
    } else if s[j] == '\x07' {
        j + 1
    } else if s[j] == '\x1b' {
        if j + 1 < s.len() { j + 2 } else { j + 1 }
    } else {
        osc_end(s, j + 1)
    }
}

pub proof fn lemma_csi_end(s: Seq<char>, j: int)
    requires
        0 <= j,
    ensures
        j <= csi_end(s, j) <= s.len() || (j > s.len() && csi_end(s, j) == s.len()),
        csi_end(s, j) >= j || j > s.len(),
    decreases s.len() - j,
{
    if j < s.len() && !(is_ascii_alpha(s[j]) || s[j] == '~') {
        lemma_csi_end(s, j + 1);
    }
}

pub proof fn lemma_osc_end(s: Seq<char>, j: int)
    requires
        0 <= j,
    ensures
        j <= osc_end(s, j) <= s.len() || (j > s.len() && osc_end(s, j) == s.len()),
        osc_end(s, j) >= j || j > s.len(),
    decreases s.len() - j,
{
    if j < s.len() && s[j] != '\x07' && s[j] != '\x1b' {
        lemma_osc_end(s, j + 1);
    }
}

/// The text shown for `s` from position `i` on: escape sequences (CSI
/// `ESC [ .. letter`, OSC `ESC ] .. BEL`, and any other `ESC x` pair),
/// carriage returns, bells and backspaces are dropped; the rest is kept.
pub open spec fn strip_from(s: Seq<char>, i: int) -> Seq<char>
    decreases s.len() - i,
    when 0 <= i
{
    if i >= s.len() {
        seq![]
    } else if s[i] == '\x1b' {
        if i + 1 >= s.len() {
            seq![]
        } else if s[i + 1] == '[' {
            proof {
                lemma_csi_end(s, i + 2);
            }
            strip_from(s, csi_end(s, i + 2))
        } else if s[i + 1] == ']' {
            proof {
                lemma_osc_end(s, i + 2);
            }
            strip_from(s, osc_end(s, i + 2))
        } else {
            strip_from(s, i + 2)
        }
    } else if s[i] == '\r' || s[i] == '\x07' || s[i] == '\x08' {
        strip_from(s, i + 1)
    } else {
        seq![s[i]] + strip_from(s, i + 1)
    }
}

/// A character that the terminal view never shows: ESC, carriage return,
/// bell or backspace.
pub open spec fn is_hidden_char(c: char) -> bool {
    c == '\x1b' || c == '\r' || c == '\x07' || c == '\x08'
}

/// No character of `t` is one the terminal view hides.
pub open spec fn is_clean(t: Seq<char>) -> bool {
    forall|k: int| 0 <= k < t.len() ==> !is_hidden_char(#[trigger] t[k])
}

/// The shown text holds no escape character, carriage return, bell or backspace.
pub proof fn lemma_strip_is_clean(s: Seq<char>, i: int)
    requires
        0 <= i,
    ensures
        is_clean(strip_from(s, i)),
    decreases s.len() - i,
{
    if i < s.len() {
        if s[i] == '\x1b' {
            if i + 1 < s.len() {
                if s[i + 1] == '[' {
                    lemma_csi_end(s, i + 2);
                    lemma_strip_is_clean(s, csi_end(s, i + 2));
                } else if s[i + 1] == ']' {
                    lemma_osc_end(s, i + 2);
                    lemma_strip_is_clean(s, osc_end(s, i + 2));
                } else {
                    lemma_strip_is_clean(s, i + 2);
                }
            }
        } else if s[i] == '\r' || s[i] == '\x07' || s[i] == '\x08' {
            lemma_strip_is_clean(s, i + 1);
        } else {
            lemma_strip_is_clean(s, i + 1);
            let t = seq![s[i]] + strip_from(s, i + 1);
            assert forall|k: int| 0 <= k < t.len() implies !is_hidden_char(#[trigger] t[k]) by {
                if k > 0 {
                    assert(t[k] == strip_from(s, i + 1)[k - 1]);
                }
            }
        }
    }
}

proof fn lemma_strip_clean_text(t: Seq<char>, i: int)
    requires
        0 <= i <= t.len(),
        is_clean(t),
    ensures
        strip_from(t, i) == t.skip(i),
    decreases t.len() - i,
{
    if i < t.len() {
        assert(!is_hidden_char(t[i]));
        lemma_strip_clean_text(t, i + 1);
        assert(t.skip(i) =~= seq![t[i]] + t.skip(i + 1));
    } else {
        assert(t.skip(i) =~= Seq::<char>::empty());
    }
}

/// Stripping shown text again changes nothing.
pub proof fn lemma_strip_idempotent(s: Seq<char>)
    ensures
        strip_from(strip_from(s, 0), 0) == strip_from(s, 0),
{
    let t = strip_from(s, 0);
    lemma_strip_is_clean(s, 0);
    lemma_strip_clean_text(t, 0);
    assert(t.skip(0) =~= t);
}

fn osc_end_exec(v: &Vec<char>, j0: usize) -> (r: usize)
    requires
        j0 <= v@.len(),
    ensures
        r == osc_end(v@, j0 as int),
        j0 <= r <= v@.len(),
{
    let n = v.len();
    let mut j = j0;
    while j < n
        invariant
            n == v@.len(),
            j0 <= j <= n,
            osc_end(v@, j0 as int) == osc_end(v@, j as int),
        decreases n - j,
    {
        if v[j] == '\x07' {
            return j + 1;
        }
        if v[j] == '\x1b' {
            return if j + 1 < n { j + 2 } else { j + 1 };
        }
        j = j + 1;
    }
    n
}

/// Appends the shell output `s` to `buf`, without escape sequences and
/// control characters.
pub fn append_ansi_stripped(buf: &mut String, s: &str)
    ensures
        final(buf)@ == old(buf)@ + strip_from(s@, 0),
{
    let v = chars_of(s);
    let n = v.len();
    let mut i: usize = 0;
    assert(old(buf)@ + strip_from(s@, 0) =~= buf@ + strip_from(v@, 0));
    while i < n
        invariant
            v@ == s@,
            n == v@.len(),
            i <= n,
            old(buf)@ + strip_from(s@, 0) == buf@ + strip_from(v@, i as int),
        decreases n - i,
    {
        let c = v[i];
        if c == '\x1b' {
            if i + 1 >= n {
                i = n;
            } else if v[i + 1] == '[' {
                let mut j = i + 2;
                proof {
                    lemma_csi_end(v@, j as int);
                }
                while j < n && !((('a' <= v[j] && v[j] <= 'z') || ('A' <= v[j] && v[j] <= 'Z')) || v[j] == '~')
                    invariant
                        v@ == s@,
                        n == v@.len(),
                        i + 2 <= j <= n,
                        csi_end(v@, i + 2) == csi_end(v@, j as int),
                    decreases n - j,
                {
                    j = j + 1;
                }
                if j < n {
                    j = j + 1;
                }
                i = j;
            } else if v[i + 1] == ']' {
                i = osc_end_exec(&v, i + 2);
            } else {
                i = i + 2;
            }
        } else if c == '\r' || c == '\x07' || c == '\x08' {
            i = i + 1;
        } else {
            let ghost before = buf@;
            push_char(buf, c);
            assert(before + (seq![c] + strip_from(v@, i + 1)) =~= buf@ + strip_from(v@, i + 1));
            i = i + 1;
        }
    }
    assert(buf@ + strip_from(v@, i as int) =~= buf@);
}

/// Where the terminal text is cut when it is too long: the first character
/// starting at or after byte `len - MAX_BUFFER / 2`.
pub open spec fn is_cut_point(s: Seq<char>, k: int) -> bool {
    let cut = byte_len(s) - MAX_BUFFER / 2;
    &&& 0 <= k <= s.len()
    &&& byte_len(s.take(k)) >= cut
    &&& (k == 0 || byte_len(s.take(k - 1)) < cut)
}

/// Keeps the terminal text within bounds: above `MAX_BUFFER` bytes, only
/// about its last `MAX_BUFFER / 2` bytes are kept, cut at a character start.
pub fn limit_buffer(buffer: &mut String)
    ensures
        byte_len(old(buffer)@) <= MAX_BUFFER ==> final(buffer)@ == old(buffer)@,
        byte_len(old(buffer)@) > MAX_BUFFER ==> exists|k: int| #[trigger] is_cut_point(old(buffer)@, k)
            && final(buffer)@ == old(buffer)@.skip(k),
        byte_len(final(buffer)@) <= MAX_BUFFER,
{
    let len = byte_count(buffer.as_str());
    if len <= MAX_BUFFER {
        return;
    }
    let cut = len - MAX_BUFFER / 2;
    let v = chars_of(buffer.as_str());
    let ghost s = buffer@;
    proof {
        lemma_prefix_ends(s);
    }
    let mut k: usize = 0;
    let mut bytes: usize = 0;
    while bytes < cut
        invariant
            v@ == s,
            len == byte_len(s),
            cut < len,
            k <= v.len(),
            bytes == byte_len(s.take(k as int)),
            bytes <= len,
            k == 0 || byte_len(s.take(k - 1)) < cut,
        decreases len - bytes,
    {
        assert(k < v.len()) by {
            if k == v.len() {
                assert(s.take(k as int) =~= s);
            }
        }
        proof {
            lemma_encode_prefix_step(s, k as int);
            lemma_encode_split(s, k + 1);
        }
        let step = crate::find::char_len_utf8(v[k]);
        bytes = bytes + step;
        k = k + 1;
    }
    let kept = string_from_range(&v, k, v.len());
    assert(v@.subrange(k as int, v@.len() as int) =~= s.skip(k as int));
    assert(is_cut_point(s, k as int));
    proof {
        lemma_encode_split(s, k as int);
    }
    *buffer = kept;
}

} // verus!
