//! Git working-tree status as the editor shows it: what change each file has,
//! staged or not, in which order; plus the texts shown for the branch and for
//! the output of git commands.
use vstd::prelude::*;

use crate::text::{chars_of, concat, push_char, string_from_range};

verus! {

/// The kind of change of a file.
#[derive(Clone, Copy, Debug, PartialEq, Eq, Structural)]
pub enum Change {
    Added,
    Modified,
    Deleted,
    Renamed,
    TypeChange,
    Untracked,
    Conflicted,
}

/// The one-letter mark of a change.
pub open spec fn glyph_of(c: Change) -> Seq<char> {
    match c {
        Change::Added => "A"@,
        Change::Modified => "M"@,
        Change::Deleted => "D"@,
        Change::Renamed => "R"@,
        Change::TypeChange => "T"@,
        Change::Untracked => "U"@,
        Change::Conflicted => "!"@,
    }
}

impl Change {
    /// The one-letter mark shown before a changed file.
    pub fn glyph(self) -> (r: &'static str)
        ensures
            r@ == glyph_of(self),
    {
        match self {
            Change::Added => "A",
            Change::Modified => "M",
            Change::Deleted => "D",
            Change::Renamed => "R",
            Change::TypeChange => "T",
            Change::Untracked => "U",
            Change::Conflicted => "!",
        }
    }
}

/// A changed file: its path in the repository, the change, and whether the
/// change is staged (in the index) or in the working tree.
pub struct StatusEntry {
    pub path: String,
    pub change: Change,
    pub staged: bool,
}

impl Clone for StatusEntry {
    fn clone(&self) -> (r: Self)
        ensures
            r == *self,
    {
        StatusEntry { path: self.path.clone(), change: self.change, staged: self.staged }
    }
}

/// A commit as listed in the source-control panel.
pub struct CommitInfo {
    pub oid_short: String,
    pub summary: String,
    pub author: String,
    pub time: String,
}

/// What git reports of one file: which index (staged) and working-tree
/// changes it has, and whether it is in conflict.
pub struct StatusFlags {
    pub conflicted: bool,
    pub index_new: bool,
    pub index_modified: bool,
    pub index_deleted: bool,
    pub index_renamed: bool,
    pub index_typechange: bool,
    pub wt_new: bool,
    pub wt_modified: bool,
    pub wt_deleted: bool,
    pub wt_renamed: bool,
    pub wt_typechange: bool,
}

/// The staged change of a file, if any (the first that applies of added,
/// modified, deleted, renamed, type change).
pub open spec fn staged_change(st: StatusFlags) -> Option<Change> {
    if st.index_new {
        Some(Change::Added)
    } else if st.index_modified {
        Some(Change::Modified)
    } else if st.index_deleted {
        Some(Change::Deleted)
    } else if st.index_renamed {
        Some(Change::Renamed)
    } else if st.index_typechange {
        Some(Change::TypeChange)
    } else {
        None
    }
}

/// The unstaged change of a file, if any (the first that applies of
/// untracked, modified, deleted, renamed, type change).
pub open spec fn unstaged_change(st: StatusFlags) -> Option<Change> {
    if st.wt_new {
        Some(Change::Untracked)
    } else if st.wt_modified {
        Some(Change::Modified)
    } else if st.wt_deleted {
        Some(Change::Deleted)
    } else if st.wt_renamed {
        Some(Change::Renamed)
    } else if st.wt_typechange {
        Some(Change::TypeChange)
    } else {
        None
    }
}

/// The plain content of an entry.
pub open spec fn entry_view(e: StatusEntry) -> (Seq<char>, Change, bool) {
    (e.path@, e.change, e.staged)
}

/// The entries listed for a file at `path` with status `st`: a conflicted
/// file is listed once, as an unstaged conflict; otherwise its staged change
/// and then its unstaged change, those it has.
pub open spec fn entries_of(path: Seq<char>, st: StatusFlags) -> Seq<(Seq<char>, Change, bool)> {
    if st.conflicted {
        seq![(path, Change::Conflicted, false)]
    } else {
        let s = match staged_change(st) {
            Some(c) => seq![(path, c, true)],
            None => seq![],
        };
        let u = match unstaged_change(st) {
            Some(c) => seq![(path, c, false)],
            None => seq![],
        };
        s + u
    }
}

/// The entries of all files that have a path, in the order git reports them.
pub open spec fn raw_entries(files: Seq<(Option<String>, StatusFlags)>) -> Seq<(Seq<char>, Change, bool)>
    decreases files.len(),
{
    if files.len() == 0 {
        seq![]
    } else {
        let rest = raw_entries(files.drop_last());
        match files.last().0 {
            Some(p) => rest + entries_of(p@, files.last().1),
            None => rest,
        }
    }
}

/// `a` comes strictly before `b` in the order of characters.
pub open spec fn seq_less(a: Seq<char>, b: Seq<char>) -> bool
    decreases a.len(),
{
    if b.len() == 0 {
        false
    } else if a.len() == 0 {
        true
    } else if a[0] != b[0] {
        a[0] < b[0]
    } else {
        seq_less(a.drop_first(), b.drop_first())
    }
}

/// Entry `a` is listed before entry `b`: staged entries first, then by path.
pub open spec fn entry_less(a: (Seq<char>, Change, bool), b: (Seq<char>, Change, bool)) -> bool {
    (a.2 && !b.2) || (a.2 == b.2 && seq_less(a.0, b.0))
}

/// `e` inserted into the sorted `s` after every entry not after it.
pub open spec fn insert_sorted(s: Seq<(Seq<char>, Change, bool)>, e: (Seq<char>, Change, bool)) -> Seq<(Seq<char>, Change, bool)>
    decreases s.len(),
{
    if s.len() == 0 {
        seq![e]
    } else if entry_less(e, s.last()) {
        insert_sorted(s.drop_last(), e).push(s.last())
    } else {
        s.push(e)
    }
}

/// The entries of `s` in the editor's order (staged first, then by path),
/// entries that compare equal keeping their order.
pub open spec fn sorted_entries(s: Seq<(Seq<char>, Change, bool)>) -> Seq<(Seq<char>, Change, bool)>
    decreases s.len(),
{
    if s.len() == 0 {
        seq![]
    } else {
        insert_sorted(sorted_entries(s.drop_last()), s.last())
    }
}

/// No entry of `s` comes before an entry listed earlier.
pub open spec fn entries_sorted(s: Seq<(Seq<char>, Change, bool)>) -> bool {
    forall|i: int, j: int| 0 <= i < j < s.len() ==> !entry_less(#[trigger] s[j], #[trigger] s[i])
}

proof fn lemma_seq_less_irreflexive(a: Seq<char>)
    ensures
        !seq_less(a, a),
    decreases a.len(),
{
    if a.len() > 0 {
        lemma_seq_less_irreflexive(a.drop_first());
    }
}

proof fn lemma_seq_less_transitive(a: Seq<char>, b: Seq<char>, c: Seq<char>)
    requires
        seq_less(a, b),
        seq_less(b, c),
    ensures
        seq_less(a, c),
    decreases a.len(),
{
    if a.len() > 0 && b.len() > 0 && c.len() > 0 && a[0] == b[0] && b[0] == c[0] {
        lemma_seq_less_transitive(a.drop_first(), b.drop_first(), c.drop_first());
    }
}

proof fn lemma_seq_less_total(a: Seq<char>, b: Seq<char>)
    requires
        a != b,
    ensures
        seq_less(a, b) || seq_less(b, a),
    decreases a.len(),
{
    if a.len() > 0 && b.len() > 0 && a[0] == b[0] {
        if a.drop_first() == b.drop_first() {
            assert(a =~= seq![a[0]] + a.drop_first());
            assert(b =~= seq![b[0]] + b.drop_first());
        }
        lemma_seq_less_total(a.drop_first(), b.drop_first());
    } else if a.len() == 0 && b.len() == 0 {
        assert(a =~= b);
    }
}

pub(crate) proof fn lemma_seq_less_asymmetric(a: Seq<char>, b: Seq<char>)
    requires
        seq_less(a, b),
    ensures
        !seq_less(b, a),
{
    if seq_less(b, a) {
        lemma_seq_less_transitive(a, b, a);
        lemma_seq_less_irreflexive(a);
    }
}

/// When `a` comes before `c`, any `b` comes after `a` or before `c`.
pub(crate) proof fn lemma_seq_less_split(a: Seq<char>, b: Seq<char>, c: Seq<char>)
    requires
        seq_less(a, c),
    ensures
        seq_less(a, b) || seq_less(b, c),
{
    if a != b {
        lemma_seq_less_total(a, b);
        if seq_less(b, a) {
            lemma_seq_less_transitive(b, a, c);
        }
    }
}

/// When `x` comes before `z`, any `y` comes after `x` or before `z`.
proof fn lemma_entry_less_split(x: (Seq<char>, Change, bool), y: (Seq<char>, Change, bool), z: (Seq<char>, Change, bool))
    requires
        entry_less(x, z),
    ensures
        entry_less(x, y) || entry_less(y, z),
{
    if x.2 == z.2 && y.2 == x.2 {
        if y.0 == x.0 {
        } else {
            lemma_seq_less_total(x.0, y.0);
            if seq_less(y.0, x.0) {
                lemma_seq_less_transitive(y.0, x.0, z.0);
            }
        }
    }
}

proof fn lemma_entry_less_asymmetric(x: (Seq<char>, Change, bool), y: (Seq<char>, Change, bool))
    requires
        entry_less(x, y),
    ensures
        !entry_less(y, x),
{
    if x.2 == y.2 {
        lemma_seq_less_asymmetric(x.0, y.0);
    }
}

proof fn lemma_insert_sorted(s: Seq<(Seq<char>, Change, bool)>, e: (Seq<char>, Change, bool))
    requires
        entries_sorted(s),
    ensures
        entries_sorted(insert_sorted(s, e)),
        insert_sorted(s, e).to_multiset() =~= s.to_multiset().insert(e),
    decreases s.len(),
{
    broadcast use vstd::seq_lib::group_to_multiset_ensures;
    if s.len() == 0 {
        assert(seq![e] =~= Seq::<(Seq<char>, Change, bool)>::empty().push(e));
    } else {
        let last = s.last();
        let front = s.drop_last();
        assert(s =~= front.push(last));
        assert(entries_sorted(front)) by {
            assert forall|i: int, j: int| 0 <= i < j < front.len() implies !entry_less(#[trigger] front[j], #[trigger] front[i]) by {
                assert(front[j] == s[j] && front[i] == s[i]);
            }
        }
        if entry_less(e, last) {
            lemma_insert_sorted(front, e);
            let r = insert_sorted(front, e);
            assert forall|i: int| 0 <= i < r.len() implies !entry_less(last, #[trigger] r[i]) by {
                assert(r.to_multiset().count(r[i]) > 0);
                if r[i] == e {
                    lemma_entry_less_asymmetric(e, last);
                } else {
                    assert(front.to_multiset().count(r[i]) > 0);
                    let k = choose|k: int| 0 <= k < front.len() && front[k] == r[i];
                    assert(s[k] == front[k]);
                    assert(s[s.len() - 1] == last);
                }
            }
            let rp = r.push(last);
            assert forall|i: int, j: int| 0 <= i < j < rp.len() implies !entry_less(#[trigger] rp[j], #[trigger] rp[i]) by {
                if j == rp.len() - 1 {
                    assert(rp[j] == last && rp[i] == r[i]);
                } else {
                    assert(rp[j] == r[j] && rp[i] == r[i]);
                }
            }
        } else {
            let rp = s.push(e);
            assert forall|i: int, j: int| 0 <= i < j < rp.len() implies !entry_less(#[trigger] rp[j], #[trigger] rp[i]) by {
                if j == rp.len() - 1 {
                    assert(rp[j] == e && rp[i] == s[i]);
                    if entry_less(e, s[i]) {
                        lemma_entry_less_split(e, last, s[i]);
                        assert(s[s.len() - 1] == last);
                    }
                } else {
                    assert(rp[j] == s[j] && rp[i] == s[i]);
                }
            }
        }
    }
}

proof fn lemma_sorted_entries(s: Seq<(Seq<char>, Change, bool)>)
    ensures
        entries_sorted(sorted_entries(s)),
        sorted_entries(s).to_multiset() =~= s.to_multiset(),
    decreases s.len(),
{
    broadcast use vstd::seq_lib::group_to_multiset_ensures;
    if s.len() > 0 {
        lemma_sorted_entries(s.drop_last());
        lemma_insert_sorted(sorted_entries(s.drop_last()), s.last());
        assert(s =~= s.drop_last().push(s.last()));
    }
}

/// No entry is a staged conflict.
pub open spec fn no_staged_conflict(s: Seq<(Seq<char>, Change, bool)>) -> bool {
    forall|k: int| 0 <= k < s.len() ==> !((#[trigger] s[k]).2 && s[k].1 == Change::Conflicted)
}

proof fn lemma_raw_no_staged_conflict(files: Seq<(Option<String>, StatusFlags)>)
    ensures
        no_staged_conflict(raw_entries(files)),
    decreases files.len(),
{
    if files.len() > 0 {
        lemma_raw_no_staged_conflict(files.drop_last());
        let rest = raw_entries(files.drop_last());
        match files.last().0 {
            Some(p) => {
                let e = entries_of(p@, files.last().1);
                let all = rest + e;
                assert forall|k: int| 0 <= k < all.len() implies !((#[trigger] all[k]).2 && all[k].1 == Change::Conflicted) by {
                    if k >= rest.len() {
                        assert(all[k] == e[k - rest.len()]);
                    } else {
                        assert(all[k] == rest[k]);
                    }
                }
            },
            None => {},
        }
    }
}

/// The index flag that a staged change of kind `c` stands for.
pub open spec fn index_flag(st: StatusFlags, c: Change) -> bool {
    match c {
        Change::Added => st.index_new,
        Change::Modified => st.index_modified,
        Change::Deleted => st.index_deleted,
        Change::Renamed => st.index_renamed,
        Change::TypeChange => st.index_typechange,
        _ => false,
    }
}

/// The working-tree flag that an unstaged change of kind `c` stands for.
pub open spec fn worktree_flag(st: StatusFlags, c: Change) -> bool {
    match c {
        Change::Untracked => st.wt_new,
        Change::Modified => st.wt_modified,
        Change::Deleted => st.wt_deleted,
        Change::Renamed => st.wt_renamed,
        Change::TypeChange => st.wt_typechange,
        _ => false,
    }
}

/// Entry `e` is backed by git's flags `st`: a conflict for a conflicted
/// file, else a staged change whose index flag is set, or an unstaged
/// change whose working-tree flag is set.
pub open spec fn backed_by(st: StatusFlags, e: (Seq<char>, Change, bool)) -> bool {
    if st.conflicted {
        e.1 == Change::Conflicted && !e.2
    } else if e.2 {
        index_flag(st, e.1)
    } else {
        worktree_flag(st, e.1)
    }
}

/// Entry `e` is backed by the flags git reports for its path.
pub open spec fn reported_in(files: Seq<(Option<String>, StatusFlags)>, e: (Seq<char>, Change, bool)) -> bool {
    exists|i: int| 0 <= i < files.len() && (#[trigger] files[i]).0 is Some && files[i].0.unwrap()@ == e.0 && backed_by(files[i].1, e)
}

/// Each entry listed for a file is backed by its flags; a conflicted file is
/// listed as a conflict, and a file with an index flag (or a working-tree
/// flag) set gets a staged (or an unstaged) entry.
pub proof fn lemma_entries_follow_flags(path: Seq<char>, st: StatusFlags)
    ensures
        forall|k: int| 0 <= k < entries_of(path, st).len()
            ==> (#[trigger] entries_of(path, st)[k]).0 == path && backed_by(st, entries_of(path, st)[k]),
        st.conflicted ==> entries_of(path, st).contains((path, Change::Conflicted, false)),
        !st.conflicted && (st.index_new || st.index_modified || st.index_deleted || st.index_renamed || st.index_typechange)
            ==> exists|c: Change| entries_of(path, st).contains((path, c, true)),
        !st.conflicted && (st.wt_new || st.wt_modified || st.wt_deleted || st.wt_renamed || st.wt_typechange)
            ==> exists|c: Change| entries_of(path, st).contains((path, c, false)),
{
    let e = entries_of(path, st);
    if st.conflicted {
        assert(e[0] == (path, Change::Conflicted, false));
        assert(e.contains((path, Change::Conflicted, false)));
    } else {
        let sp = match staged_change(st) {
            Some(c) => seq![(path, c, true)],
            None => Seq::<(Seq<char>, Change, bool)>::empty(),
        };
        assert forall|k: int| 0 <= k < e.len() implies (#[trigger] e[k]).0 == path && backed_by(st, e[k]) by {
            if k < sp.len() {
                assert(e[k] == sp[k]);
            } else {
                assert(e[k] == e[k]);
            }
        }
        if st.index_new || st.index_modified || st.index_deleted || st.index_renamed || st.index_typechange {
            let c = staged_change(st).unwrap();
            assert(e[0] == (path, c, true));
            assert(e.contains((path, c, true)));
        }
        if st.wt_new || st.wt_modified || st.wt_deleted || st.wt_renamed || st.wt_typechange {
            let c = unstaged_change(st).unwrap();
            assert(e[e.len() - 1] == (path, c, false));
            assert(e.contains((path, c, false)));
        }
    }
}

proof fn lemma_raw_entries_reported(files: Seq<(Option<String>, StatusFlags)>)
    ensures
        forall|k: int| 0 <= k < raw_entries(files).len() ==> reported_in(files, #[trigger] raw_entries(files)[k]),
        forall|i: int, x: (Seq<char>, Change, bool)| 0 <= i < files.len() && files[i].0 is Some
            && #[trigger] entries_of(files[i].0.unwrap()@, files[i].1).contains(x) ==> raw_entries(files).contains(x),
    decreases files.len(),
{
    if files.len() > 0 {
        let front = files.drop_last();
        lemma_raw_entries_reported(front);
        let rest = raw_entries(front);
        let all = raw_entries(files);
        assert forall|k: int| 0 <= k < all.len() implies reported_in(files, #[trigger] all[k]) by {
            if k < rest.len() {
                assert(all[k] == rest[k]);
                assert(reported_in(front, rest[k]));
                let i = choose|i: int| 0 <= i < front.len() && (#[trigger] front[i]).0 is Some && front[i].0.unwrap()@ == rest[k].0 && backed_by(front[i].1, rest[k]);
                assert(files[i] == front[i]);
            } else {
                let p = files.last().0.unwrap();
                lemma_entries_follow_flags(p@, files.last().1);
                assert(all[k] == entries_of(p@, files.last().1)[k - rest.len()]);
                assert(files[files.len() - 1] == files.last());
            }
        }
        assert forall|i: int, x: (Seq<char>, Change, bool)| 0 <= i < files.len() && files[i].0 is Some
            && #[trigger] entries_of(files[i].0.unwrap()@, files[i].1).contains(x) implies all.contains(x) by {
            if i < front.len() {
                assert(front[i] == files[i]);
                assert(rest.contains(x));
                let j = choose|j: int| 0 <= j < rest.len() && rest[j] == x;
                assert(all[j] == x);
            } else {
                let p = files.last().0.unwrap();
                let e = entries_of(p@, files.last().1);
                let j = choose|j: int| 0 <= j < e.len() && e[j] == x;
                assert(all[rest.len() + j] == x);
            }
        }
    }
}

/// Whether `a` comes strictly before `b`.
pub fn str_less(a: &str, b: &str) -> (r: bool)
    ensures
        r == seq_less(a@, b@),
{
    let va = chars_of(a);
    let vb = chars_of(b);
    let mut i: usize = 0;
    assert(a@.skip(0) =~= a@);
    assert(b@.skip(0) =~= b@);
    while i < va.len() && i < vb.len() && va[i] == vb[i]
        invariant
            va@ == a@,
            vb@ == b@,
            i <= va.len(),
            i <= vb.len(),
            seq_less(a@, b@) == seq_less(a@.skip(i as int), b@.skip(i as int)),
        decreases va.len() - i,
    {
        assert(a@.skip(i as int).drop_first() =~= a@.skip(i + 1));
        assert(b@.skip(i as int).drop_first() =~= b@.skip(i + 1));
        i = i + 1;
    }
    if i == vb.len() {
        return false;
    }
    if i == va.len() {
        return true;
    }
    va[i] < vb[i]
}

fn entry_less_exec(a: &StatusEntry, b: &StatusEntry) -> (r: bool)
    ensures
        r == entry_less(entry_view(*a), entry_view(*b)),
{
    (a.staged && !b.staged) || (a.staged == b.staged && str_less(a.path.as_str(), b.path.as_str()))
}

/// The plain contents of a list of entries.
pub open spec fn entry_views(v: Seq<StatusEntry>) -> Seq<(Seq<char>, Change, bool)> {
    v.map_values(|e: StatusEntry| entry_view(e))
}

fn entries_for(out: &mut Vec<StatusEntry>, path: &String, st: &StatusFlags)
    ensures
        entry_views(final(out)@) == entry_views(old(out)@) + entries_of(path@, *st),
{
    let ghost start = entry_views(out@);
    if st.conflicted {
        out.push(StatusEntry { path: path.clone(), change: Change::Conflicted, staged: false });
        assert(entry_views(out@) =~= start + entries_of(path@, *st));
        return;
    }
    let staged = if st.index_new {
        Some(Change::Added)
    } else if st.index_modified {
        Some(Change::Modified)
    } else if st.index_deleted {
        Some(Change::Deleted)
    } else if st.index_renamed {
        Some(Change::Renamed)
    } else if st.index_typechange {
        Some(Change::TypeChange)
    } else {
        None
    };
    let unstaged = if st.wt_new {
        Some(Change::Untracked)
    } else if st.wt_modified {
        Some(Change::Modified)
    } else if st.wt_deleted {
        Some(Change::Deleted)
    } else if st.wt_renamed {
        Some(Change::Renamed)
    } else if st.wt_typechange {
        Some(Change::TypeChange)
    } else {
        None
    };
    match staged {
        Some(c) => {
            out.push(StatusEntry { path: path.clone(), change: c, staged: true });
        },
        None => {},
    }
    let ghost mid = entry_views(out@);
    match unstaged {
        Some(c) => {
            out.push(StatusEntry { path: path.clone(), change: c, staged: false });
        },
        None => {},
    }
    assert(entry_views(out@) =~= start + entries_of(path@, *st));
}

fn insert_entry(sorted: &mut Vec<StatusEntry>, e: StatusEntry)
    ensures
        entry_views(final(sorted)@) == insert_sorted(entry_views(old(sorted)@), entry_view(e)),
{
    let ghost ev = entry_view(e);
    let mut k = sorted.len();
    assert(old(sorted)@.take(k as int) =~= old(sorted)@);
    assert(entry_views(old(sorted)@.skip(k as int)) =~= Seq::<(Seq<char>, Change, bool)>::empty());
    assert(insert_sorted(entry_views(old(sorted)@), ev) + Seq::<(Seq<char>, Change, bool)>::empty()
        =~= insert_sorted(entry_views(old(sorted)@), ev));
    // the entries from `k` on are after `e`
    while k > 0 && entry_less_exec(&e, &sorted[k - 1])
        invariant
            k <= sorted@.len(),
            *sorted == *old(sorted),
            ev == entry_view(e),
            insert_sorted(entry_views(old(sorted)@), ev)
                == insert_sorted(entry_views(old(sorted)@.take(k as int)), ev) + entry_views(old(sorted)@.skip(k as int)),
        decreases k,
    {
        proof {
            let s = entry_views(old(sorted)@.take(k as int));
            assert(s.drop_last() =~= entry_views(old(sorted)@.take(k - 1)));
            assert(s.last() == entry_view(old(sorted)@[k - 1]));
            assert(entry_views(old(sorted)@.skip(k - 1)) =~= seq![s.last()] + entry_views(old(sorted)@.skip(k as int)));
            assert(insert_sorted(s, ev) == insert_sorted(s.drop_last(), ev).push(s.last()));
            assert(insert_sorted(s.drop_last(), ev).push(s.last()) + entry_views(old(sorted)@.skip(k as int))
                =~= insert_sorted(s.drop_last(), ev) + (seq![s.last()] + entry_views(old(sorted)@.skip(k as int))));
        }
        k = k - 1;
    }
    proof {
        let s = entry_views(old(sorted)@.take(k as int));
        assert(insert_sorted(s, ev) == s.push(ev));
        assert(entry_views(old(sorted)@) =~= s + entry_views(old(sorted)@.skip(k as int)));
    }
    sorted.insert(k, e);
    proof {
        let s = entry_views(old(sorted)@.take(k as int));
        assert(entry_views(sorted@) =~= s.push(ev) + entry_views(old(sorted)@.skip(k as int)));
    }
}

/// The status entries of the files git reports (files without a path are
/// skipped), staged entries first, then by path; equal entries keep git's
/// order.
pub fn collect_statuses(files: &Vec<(Option<String>, StatusFlags)>) -> (r: Vec<StatusEntry>)
    ensures
        entry_views(r@) == sorted_entries(raw_entries(files@)),
        entries_sorted(entry_views(r@)),
        entry_views(r@).to_multiset() == raw_entries(files@).to_multiset(),
        forall|k: int| 0 <= k < r@.len() ==> !((#[trigger] r@[k]).staged && r@[k].change == Change::Conflicted),
        forall|k: int| 0 <= k < r@.len() ==> reported_in(files@, entry_view(#[trigger] r@[k])),
        forall|i: int, x: (Seq<char>, Change, bool)| 0 <= i < files@.len() && files@[i].0 is Some
            && #[trigger] entries_of(files@[i].0.unwrap()@, files@[i].1).contains(x) ==> entry_views(r@).contains(x),
{
    let mut raw: Vec<StatusEntry> = Vec::new();
    let mut i: usize = 0;
    assert(entry_views(raw@) =~= raw_entries(files@.take(0)));
    while i < files.len()
        invariant
            i <= files@.len(),
            entry_views(raw@) == raw_entries(files@.take(i as int)),
        decreases files@.len() - i,
    {
        assert(files@.take(i + 1).drop_last() =~= files@.take(i as int));
        match &files[i].0 {
            Some(p) => {
                entries_for(&mut raw, p, &files[i].1);
            },
            None => {},
        }
        i = i + 1;
    }
    assert(files@.take(files@.len() as int) =~= files@);
    let mut sorted: Vec<StatusEntry> = Vec::new();
    let mut j: usize = 0;
    assert(entry_views(sorted@) =~= sorted_entries(entry_views(raw@).take(0)));
    while j < raw.len()
        invariant
            j <= raw@.len(),
            entry_views(sorted@) == sorted_entries(entry_views(raw@).take(j as int)),
        decreases raw@.len() - j,
    {
        assert(entry_views(raw@).take(j + 1).drop_last() =~= entry_views(raw@).take(j as int));
        assert(entry_views(raw@).take(j + 1).last() == entry_view(raw@[j as int]));
        insert_entry(&mut sorted, raw[j].clone());
        j = j + 1;
    }
    assert(entry_views(raw@).take(raw@.len() as int) =~= entry_views(raw@));
    proof {
        broadcast use vstd::seq_lib::group_to_multiset_ensures;
        lemma_sorted_entries(raw_entries(files@));
        lemma_raw_no_staged_conflict(files@);
        let v = entry_views(sorted@);
        let raw_v = raw_entries(files@);
        assert forall|k: int| 0 <= k < sorted@.len() implies !((#[trigger] sorted@[k]).staged && sorted@[k].change == Change::Conflicted) by {
            assert(v[k] == entry_view(sorted@[k]));
            assert(v.to_multiset().count(v[k]) > 0);
            assert(raw_v.to_multiset().count(v[k]) > 0);
            let j = choose|j: int| 0 <= j < raw_v.len() && raw_v[j] == v[k];
            assert(!(raw_v[j].2 && raw_v[j].1 == Change::Conflicted));
        }
        lemma_raw_entries_reported(files@);
        assert forall|k: int| 0 <= k < sorted@.len() implies reported_in(files@, entry_view(#[trigger] sorted@[k])) by {
            assert(v[k] == entry_view(sorted@[k]));
            assert(v.to_multiset().count(v[k]) > 0);
            assert(raw_v.to_multiset().count(v[k]) > 0);
            let j = choose|j: int| 0 <= j < raw_v.len() && raw_v[j] == v[k];
        }
        assert forall|i: int, x: (Seq<char>, Change, bool)| 0 <= i < files@.len() && files@[i].0 is Some
            && #[trigger] entries_of(files@[i].0.unwrap()@, files@[i].1).contains(x) implies v.contains(x) by {
            assert(raw_v.contains(x));
            let j = choose|j: int| 0 <= j < raw_v.len() && raw_v[j] == x;
            assert(raw_v.to_multiset().count(x) > 0);
            assert(v.to_multiset().count(x) > 0);
        }
    }
    sorted
}

/// What HEAD is: `None` when there is none yet (no commits); otherwise its
/// short branch name and the id of the commit it points to, those it has.
pub open spec fn branch_label_spec(head: Option<(Option<Seq<char>>, Option<Seq<char>>)>) -> Seq<char> {
    match head {
        None => "(no commits)"@,
        Some((Some(name), _)) => name,
        Some((None, Some(oid))) => "("@ + oid.take(if oid.len() < 7 { oid.len() as int } else { 7 }) + ")"@,
        Some((None, None)) => "(no branch)"@,
    }
}

/// The branch shown for HEAD: its short name, else the first seven
/// characters of its commit id in parentheses, else "(no branch)"; and
/// "(no commits)" when there is no HEAD yet.
pub fn branch_label(head: Option<(Option<String>, Option<String>)>) -> (r: String)
    ensures
        r@ == branch_label_spec(match head {
            Some((n, o)) => Some((
                match n {
                    Some(x) => Some(x@),
                    None => None,
                },
                match o {
                    Some(x) => Some(x@),
                    None => None,
                },
            )),
            None => None,
        }),
{
    match head {
        None => String::from_str("(no commits)"),
        Some((Some(name), _)) => name,
        Some((None, Some(oid))) => {
            let v = chars_of(oid.as_str());
            let n = if v.len() < 7 { v.len() } else { 7 };
            let short = string_from_range(&v, 0, n);
            assert(v@.subrange(0, n as int) =~= oid@.take(n as int));
            let mut s = concat("(", short.as_str());
            s.append(")");
            s
        },
        Some((None, None)) => String::from_str("(no branch)"),
    }
}

/// What a git command run in a shell gives: on success its output, or its
/// error output when the output is empty; on failure its error output, or
/// its output when the error output is empty.
pub fn shell_result(success: bool, stdout: String, stderr: String) -> (r: Result<String, String>)
    ensures
        success ==> r == Ok::<String, String>(if stdout@.len() == 0 { stderr } else { stdout }),
        !success ==> r == Err::<String, String>(if stderr@.len() == 0 { stdout } else { stderr }),
{
    if success {
        Ok(if stdout.as_str().is_empty() { stderr } else { stdout })
    } else {
        Err(if stderr.as_str().is_empty() { stdout } else { stderr })
    }
}

/// How a change is discarded.
pub enum DiscardPlan {
    /// Delete the untracked file at this path of the working tree.
    RemoveFile(String),
    /// Check the path out from HEAD (`git checkout HEAD -- path`).
    CheckoutHead(String),
}

/// How the change of `entry` is discarded: an untracked file is deleted,
/// any other change is checked out from HEAD.
pub fn discard_plan(entry: &StatusEntry) -> (r: DiscardPlan)
    ensures
        match r {
            DiscardPlan::RemoveFile(p) => entry.change == Change::Untracked && p@ == entry.path@,
            DiscardPlan::CheckoutHead(p) => entry.change != Change::Untracked && p@ == entry.path@,
        },
{
    if entry.change == Change::Untracked {
        DiscardPlan::RemoveFile(entry.path.clone())
    } else {
        DiscardPlan::CheckoutHead(entry.path.clone())
    }
}

/// A patch line as the diff view shows it: `+`, `-` and ` ` lines keep
/// their mark before the content; other lines show the content alone.
pub open spec fn diff_line_text(origin: char, content: Seq<char>) -> Seq<char> {
    if origin == '+' || origin == '-' || origin == ' ' {
        seq![origin] + content
    } else {
        content
    }
}

/// Appends one patch line (its origin mark and its text) to a diff text.
pub fn append_diff_line(out: &mut String, origin: char, content: &str)
    ensures
        final(out)@ == old(out)@ + diff_line_text(origin, content@),
{
    let ghost start = out@;
    if origin == '+' || origin == '-' || origin == ' ' {
        push_char(out, origin);
    }
    out.append(content);
    assert(out@ =~= start + diff_line_text(origin, content@));
}

} // verus!
