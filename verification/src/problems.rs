//! The problems panel: how diagnostics are counted, ordered and summarized.
use vstd::prelude::*;

use crate::git::{lemma_seq_less_asymmetric, lemma_seq_less_split, seq_less, str_less};
use crate::lsp::{Diagnostic, SEVERITY_ERROR, SEVERITY_HINT, SEVERITY_INFORMATION, SEVERITY_WARNING};
use crate::text::{chars_of, string_from_range};

verus! {

/// What the user asked the problems panel to do: open a file at a line.
pub enum ProblemAction {
    Open(String, u32),
}

/// The icon of a diagnostic of severity `sev`.
pub open spec fn severity_icon_spec(sev: Option<i32>) -> Seq<char> {
    match sev {
        Some(s) => if s == SEVERITY_ERROR {
            "✗"@
        } else if s == SEVERITY_WARNING {
            "⚠"@
        } else if s == SEVERITY_INFORMATION {
            "ℹ"@
        } else {
            "·"@
        },
        None => "·"@,
    }
}

/// The icon shown before a diagnostic: errors, warnings, information, and
/// hints or unknown severities.
pub fn severity_icon(sev: Option<i32>) -> (r: &'static str)
    ensures
        r@ == severity_icon_spec(sev),
{
    match sev {
        Some(s) => if s == SEVERITY_ERROR {
            "✗"
        } else if s == SEVERITY_WARNING {
            "⚠"
        } else if s == SEVERITY_INFORMATION {
            "ℹ"
        } else if s == SEVERITY_HINT {
            "·"
        } else {
            "·"
        },
        None => "·",
    }
}

/// One-based line and column where a diagnostic starts.
pub fn problem_location(d: &Diagnostic) -> (r: (u32, u32))
    requires
        d.range.start.line < u32::MAX,
        d.range.start.character < u32::MAX,
    ensures
        r.0 == d.range.start.line + 1,
        r.1 == d.range.start.character + 1,
{
    (d.range.start.line + 1, d.range.start.character + 1)
}

/// Number of diagnostics over all documents.
pub open spec fn total_diagnostics(entries: Seq<(String, Vec<Diagnostic>)>) -> nat
    decreases entries.len(),
{
    if entries.len() == 0 {
        0
    } else {
        total_diagnostics(entries.drop_last()) + entries.last().1@.len()
    }
}

proof fn lemma_total_diagnostics_prefix(entries: Seq<(String, Vec<Diagnostic>)>, k: int)
    requires
        0 <= k <= entries.len(),
    ensures
        total_diagnostics(entries.take(k)) <= total_diagnostics(entries),
    decreases entries.len() - k,
{
    if k < entries.len() {
        assert(entries.take(k + 1).drop_last() =~= entries.take(k));
        lemma_total_diagnostics_prefix(entries, k + 1);
    } else {
        assert(entries.take(k) =~= entries);
    }
}

/// The number of problems the panel's title shows: all diagnostics of all
/// documents.
pub fn total_problems(entries: &Vec<(String, Vec<Diagnostic>)>) -> (r: usize)
    requires
        total_diagnostics(entries@) <= usize::MAX,
    ensures
        r == total_diagnostics(entries@),
{
    let mut total: usize = 0;
    let mut i: usize = 0;
    while i < entries.len()
        invariant
            i <= entries@.len(),
            total == total_diagnostics(entries@.take(i as int)),
            total_diagnostics(entries@) <= usize::MAX,
        decreases entries@.len() - i,
    {
        proof {
            assert(entries@.take(i + 1).drop_last() =~= entries@.take(i as int));
            lemma_total_diagnostics_prefix(entries@, i + 1);
        }
        total = total + entries[i].1.len();
        i = i + 1;
    }
    assert(entries@.take(entries@.len() as int) =~= entries@);
    total
}

/// `names` joined with ", ".
pub open spec fn joined(names: Seq<Seq<char>>) -> Seq<char>
    decreases names.len(),
{
    if names.len() == 0 {
        Seq::<char>::empty()
    } else if names.len() == 1 {
        names[0]
    } else {
        joined(names.drop_last()) + ", "@ + names.last()
    }
}

/// The label listing the running language servers: "servers: " and their
/// languages joined with ", ".
pub fn servers_label(langs: &Vec<String>) -> (r: String)
    ensures
        r@ == "servers: "@ + joined(langs@.map_values(|s: String| s@)),
{
    let ghost names = langs@.map_values(|s: String| s@);
    let mut s = String::from_str("servers: ");
    let mut i: usize = 0;
    while i < langs.len()
        invariant
            i <= langs@.len(),
            names == langs@.map_values(|s: String| s@),
            s@ == "servers: "@ + joined(names.take(i as int)),
        decreases langs@.len() - i,
    {
        proof {
            assert(names.take(i + 1).drop_last() =~= names.take(i as int));
            assert(names.take(i + 1).last() == langs@[i as int]@);
            if i == 0 {
                assert(names.take(1) =~= seq![langs@[0]@]);
            }
        }
        let ghost before = s@;
        if i > 0 {
            s.append(", ");
        }
        s.append(langs[i].as_str());
        proof {
            if i == 0 {
                assert(names.take(0) =~= Seq::<Seq<char>>::empty());
                assert(s@ =~= "servers: "@ + joined(names.take(1)));
            } else {
                assert(s@ =~= "servers: "@ + joined(names.take(i + 1)));
            }
        }
        i = i + 1;
    }
    assert(names.take(langs@.len() as int) =~= names);
    s
}

/// Index of the first newline of `s`.
pub open spec fn first_newline(s: Seq<char>) -> Option<int>
    decreases s.len(),
{
    if s.len() == 0 {
        None
    } else if s[0] == '\n' {
        Some(0)
    } else {
        match first_newline(s.drop_first()) {
            Some(k) => Some(k + 1),
            None => None,
        }
    }
}

/// The first line of `s` (std's `str::lines().next()`, or empty): the text
/// before the first newline without a carriage return that ends it, or all
/// of `s` when it has no newline.
pub open spec fn first_line_spec(s: Seq<char>) -> Seq<char> {
    match first_newline(s) {
        Some(k) => if k > 0 && s[k - 1] == '\r' {
            s.take(k - 1)
        } else {
            s.take(k)
        },
        None => s,
    }
}

/// The first line of a diagnostic's message, shown as its summary.
pub fn first_line(s: &str) -> (r: String)
    ensures
        r@ == first_line_spec(s@),
{
    let v = chars_of(s);
    let mut i: usize = 0;
    assert(s@.skip(0) =~= s@);
    while i < v.len() && v[i] != '\n'
        invariant
            v@ == s@,
            i <= v.len(),
            first_newline(s@) == (match first_newline(s@.skip(i as int)) {
                Some(k) => Some(k + i),
                None => None,
            }),
        decreases v.len() - i,
    {
        assert(s@.skip(i as int).drop_first() =~= s@.skip(i + 1));
        i = i + 1;
    }
    if i == v.len() {
        assert(s@.skip(i as int) =~= Seq::<char>::empty());
        return string_from_range(&v, 0, v.len());
    }
    let end = if i > 0 && v[i - 1] == '\r' { i - 1 } else { i };
    let r = string_from_range(&v, 0, end);
    assert(v@.subrange(0, end as int) =~= s@.take(end as int));
    assert(v@.subrange(0, v@.len() as int) =~= s@);
    r
}

/// The order in which the panel lists documents: `order` is a permutation
/// of the entry indices with URLs in increasing order, equal URLs keeping
/// their order.
pub open spec fn insert_by_key(order: Seq<int>, keys: Seq<Seq<char>>, i: int) -> Seq<int>
    decreases order.len(),
{
    if order.len() == 0 {
        seq![i]
    } else if seq_less(keys[i], keys[order.last()]) {
        insert_by_key(order.drop_last(), keys, i).push(order.last())
    } else {
        order.push(i)
    }
}

/// Indices `0..n` ordered by `keys` (stable insertion).
pub open spec fn order_by_key(keys: Seq<Seq<char>>, n: nat) -> Seq<int>
    decreases n,
{
    if n == 0 {
        seq![]
    } else {
        insert_by_key(order_by_key(keys, (n - 1) as nat), keys, n - 1)
    }
}

/// Along `order`, no key comes before the key of an earlier index.
pub open spec fn keys_ordered(keys: Seq<Seq<char>>, order: Seq<int>) -> bool {
    forall|i: int, j: int| 0 <= i < j < order.len() ==> !seq_less(keys[#[trigger] order[j]], keys[#[trigger] order[i]])
}

proof fn lemma_insert_by_key(order: Seq<int>, keys: Seq<Seq<char>>, x: int)
    requires
        keys_ordered(keys, order),
    ensures
        keys_ordered(keys, insert_by_key(order, keys, x)),
        insert_by_key(order, keys, x).to_multiset() =~= order.to_multiset().insert(x),
    decreases order.len(),
{
    broadcast use vstd::seq_lib::group_to_multiset_ensures;
    if order.len() == 0 {
        assert(seq![x] =~= Seq::<int>::empty().push(x));
    } else {
        let last = order.last();
        let front = order.drop_last();
        assert(order =~= front.push(last));
        assert(keys_ordered(keys, front)) by {
            assert forall|i: int, j: int| 0 <= i < j < front.len()
                implies !seq_less(keys[#[trigger] front[j]], keys[#[trigger] front[i]]) by {
                assert(front[j] == order[j] && front[i] == order[i]);
            }
        }
        if seq_less(keys[x], keys[last]) {
            lemma_insert_by_key(front, keys, x);
            let r = insert_by_key(front, keys, x);
            assert forall|i: int| 0 <= i < r.len() implies !seq_less(keys[last], keys[#[trigger] r[i]]) by {
                assert(r.to_multiset().count(r[i]) > 0);
                if r[i] == x {
                    lemma_seq_less_asymmetric(keys[x], keys[last]);
                } else {
                    assert(front.to_multiset().count(r[i]) > 0);
                    let k = choose|k: int| 0 <= k < front.len() && front[k] == r[i];
                    assert(order[k] == front[k]);
                    assert(order[order.len() - 1] == last);
                }
            }
            let rp = r.push(last);
            assert forall|i: int, j: int| 0 <= i < j < rp.len()
                implies !seq_less(keys[#[trigger] rp[j]], keys[#[trigger] rp[i]]) by {
                if j == rp.len() - 1 {
                    assert(rp[j] == last && rp[i] == r[i]);
                } else {
                    assert(rp[j] == r[j] && rp[i] == r[i]);
                }
            }
        } else {
            let rp = order.push(x);
            assert forall|i: int, j: int| 0 <= i < j < rp.len()
                implies !seq_less(keys[#[trigger] rp[j]], keys[#[trigger] rp[i]]) by {
                if j == rp.len() - 1 {
                    assert(rp[j] == x && rp[i] == order[i]);
                    if seq_less(keys[x], keys[order[i]]) {
                        lemma_seq_less_split(keys[x], keys[last], keys[order[i]]);
                        assert(order[order.len() - 1] == last);
                    }
                } else {
                    assert(rp[j] == order[j] && rp[i] == order[i]);
                }
            }
        }
    }
}

/// The panel's order lists every document exactly once, by URL.
proof fn lemma_order_by_key(keys: Seq<Seq<char>>, n: nat)
    ensures
        keys_ordered(keys, order_by_key(keys, n)),
        order_by_key(keys, n).to_multiset() =~= Seq::new(n, |i: int| i).to_multiset(),
    decreases n,
{
    broadcast use vstd::seq_lib::group_to_multiset_ensures;
    if n > 0 {
        lemma_order_by_key(keys, (n - 1) as nat);
        lemma_insert_by_key(order_by_key(keys, (n - 1) as nat), keys, n - 1);
        assert(Seq::new(n, |i: int| i) =~= Seq::new((n - 1) as nat, |i: int| i).push(n - 1));
    } else {
        assert(Seq::new(0, |i: int| i) =~= Seq::<int>::empty());
    }
}

/// The URLs of diagnostic entries.
pub open spec fn entry_keys(entries: Seq<(String, Vec<Diagnostic>)>) -> Seq<Seq<char>> {
    entries.map_values(|e: (String, Vec<Diagnostic>)| e.0@)
}

/// The order in which the problems panel lists the documents of `entries`:
/// by URL.
pub fn problem_order(entries: &Vec<(String, Vec<Diagnostic>)>) -> (r: Vec<usize>)
    ensures
        r@.map_values(|i: usize| i as int) == order_by_key(entry_keys(entries@), entries@.len()),
        keys_ordered(entry_keys(entries@), r@.map_values(|i: usize| i as int)),
        r@.map_values(|i: usize| i as int).to_multiset() == Seq::new(entries@.len(), |i: int| i).to_multiset(),
{
    let ghost keys = entry_keys(entries@);
    let mut order: Vec<usize> = Vec::new();
    let mut n: usize = 0;
    while n < entries.len()
        invariant
            n <= entries@.len(),
            keys == entry_keys(entries@),
            order@.map_values(|i: usize| i as int) == order_by_key(keys, n as nat),
            forall|j: int| 0 <= j < order@.len() ==> #[trigger] order@[j] < n,
        decreases entries@.len() - n,
    {
        // insert n after every index whose key is not greater
        let mut k = order.len();
        let ghost o = order@.map_values(|i: usize| i as int);
        proof {
            assert(o.take(k as int) =~= o);
            assert(o.skip(k as int) =~= Seq::<int>::empty());
        }
        while k > 0 && str_less(entries[n].0.as_str(), entries[order[k - 1]].0.as_str())
            invariant
                k <= order@.len(),
                o == order@.map_values(|i: usize| i as int),
                n < entries@.len(),
                keys == entry_keys(entries@),
                forall|j: int| 0 <= j < order@.len() ==> #[trigger] order@[j] < n,
                insert_by_key(o, keys, n as int) == insert_by_key(o.take(k as int), keys, n as int) + o.skip(k as int),
            decreases k,
        {
            proof {
                let s = o.take(k as int);
                assert(s.drop_last() =~= o.take(k - 1));
                assert(s.last() == order@[k - 1] as int);
                assert(keys[n as int] == entries@[n as int].0@);
                assert(keys[order@[k - 1] as int] == entries@[order@[k - 1] as int].0@);
                assert(o.skip(k - 1) =~= seq![s.last()] + o.skip(k as int));
                assert(insert_by_key(s.drop_last(), keys, n as int).push(s.last()) + o.skip(k as int)
                    =~= insert_by_key(s.drop_last(), keys, n as int) + (seq![s.last()] + o.skip(k as int)));
            }
            k = k - 1;
        }
        proof {
            let s = o.take(k as int);
            if k > 0 {
                assert(keys[n as int] == entries@[n as int].0@);
                assert(keys[order@[k - 1] as int] == entries@[order@[k - 1] as int].0@);
                assert(s.last() == order@[k - 1] as int);
            }
            assert(insert_by_key(s, keys, n as int) == s.push(n as int));
            assert(o =~= s + o.skip(k as int));
        }
        order.insert(k, n);
        proof {
            let s = o.take(k as int);
            assert(order@.map_values(|i: usize| i as int) =~= s.push(n as int) + o.skip(k as int));
            assert(order_by_key(keys, (n + 1) as nat) == insert_by_key(order_by_key(keys, n as nat), keys, n as int));
        }
        n = n + 1;
    }
    proof {
        lemma_order_by_key(keys, entries@.len());
    }
    order
}

} // verus!
