//! The file explorer: the opened folder, which folders are expanded, how
//! entries are ordered and which icon a file gets.
use vstd::prelude::*;

use crate::find::{lowercase, to_lowercase};
use crate::git::{lemma_seq_less_asymmetric, lemma_seq_less_split, seq_less, str_less};
use crate::paths::{ext_is, extension_of, path_extension, paths_equal, same_path};

verus! {

/// The file tree panel's state: the opened folder and the expanded folders.
pub struct FileExplorer {
    root: Option<String>,
    expanded: Vec<String>,
}

/// Whether `path` is among `expanded`.
pub open spec fn contains_path(expanded: Seq<Seq<char>>, path: Seq<char>) -> bool {
    exists|i: int| 0 <= i < expanded.len() && same_path(#[trigger] expanded[i], path)
}

impl FileExplorer {
    /// The opened folder.
    pub closed spec fn root_spec(&self) -> Option<Seq<char>> {
        match self.root {
            Some(r) => Some(r@),
            None => None,
        }
    }

    /// The expanded folders.
    pub closed spec fn expanded_spec(&self) -> Seq<Seq<char>> {
        self.expanded@.map_values(|s: String| s@)
    }

    /// No folder opened.
    pub fn new() -> (e: Self)
        ensures
            e.root_spec() is None,
            e.expanded_spec() == Seq::<Seq<char>>::empty(),
    {
        let e = FileExplorer { root: None, expanded: Vec::new() };
        assert(e.expanded_spec() =~= Seq::<Seq<char>>::empty());
        e
    }

    /// Opens the folder `root`: it becomes the only expanded folder.
    pub fn set_root(&mut self, root: String)
        ensures
            final(self).root_spec() == Some(root@),
            final(self).expanded_spec() == seq![root@],
    {
        self.expanded = Vec::new();
        self.expanded.push(root.clone());
        self.root = Some(root);
        assert(self.expanded_spec() =~= seq![root@]);
    }

    /// The opened folder.
    pub fn root(&self) -> (r: Option<&String>)
        ensures
            match r {
                Some(p) => self.root_spec() == Some(p@),
                None => self.root_spec() is None,
            },
    {
        match &self.root {
            Some(p) => Some(p),
            None => None,
        }
    }

    /// Whether the folder `path` is expanded.
    pub fn is_expanded(&self, path: &str) -> (r: bool)
        ensures
            r == contains_path(self.expanded_spec(), path@),
    {
        let mut i: usize = 0;
        while i < self.expanded.len()
            invariant
                i <= self.expanded.len(),
                forall|j: int| 0 <= j < i ==> !same_path(#[trigger] self.expanded_spec()[j], path@),
            decreases self.expanded.len() - i,
        {
            if paths_equal(self.expanded[i].as_str(), path) {
                assert(same_path(self.expanded_spec()[i as int], path@));
                return true;
            }
            i = i + 1;
        }
        false
    }

    /// Expands (`open`) or collapses the folder `path`. Expanding a folder
    /// already expanded, or collapsing one not expanded, changes nothing.
    pub fn set_expanded(&mut self, path: &str, open: bool)
        ensures
            final(self).root_spec() == old(self).root_spec(),
            open ==> final(self).expanded_spec() == (if contains_path(old(self).expanded_spec(), path@) {
                old(self).expanded_spec()
            } else {
                old(self).expanded_spec().push(path@)
            }),
            !open ==> final(self).expanded_spec() == old(self).expanded_spec().filter(
                |q: Seq<char>| !same_path(q, path@),
            ),
            open ==> exists|k: int| 0 <= k < final(self).expanded_spec().len()
                && (#[trigger] final(self).expanded_spec()[k] == path@ || same_path(final(self).expanded_spec()[k], path@)),
            !open ==> !contains_path(final(self).expanded_spec(), path@),
    {
        if open {
            if !self.is_expanded(path) {
                self.expanded.push(String::from_str(path));
                assert(self.expanded_spec() =~= old(self).expanded_spec().push(path@));
                assert(self.expanded_spec()[self.expanded_spec().len() - 1] == path@);
            } else {
                let ghost k = choose|k: int| 0 <= k < self.expanded_spec().len() && same_path(#[trigger] self.expanded_spec()[k], path@);
                assert(same_path(self.expanded_spec()[k], path@));
            }
        } else {
            let ghost pred = |q: Seq<char>| !same_path(q, path@);
            let ghost old_exp = self.expanded_spec();
            let mut kept: Vec<String> = Vec::new();
            let mut i: usize = 0;
            while i < self.expanded.len()
                invariant
                    i <= self.expanded.len(),
                    old_exp == self.expanded_spec(),
                    pred == (|q: Seq<char>| !same_path(q, path@)),
                    kept@.map_values(|s: String| s@) == old_exp.take(i as int).filter(pred),
                decreases self.expanded.len() - i,
            {
                proof {
                    reveal_with_fuel(Seq::filter, 1);
                    let next = old_exp.take(i + 1);
                    assert(next.drop_last() =~= old_exp.take(i as int));
                    assert(next.last() == old_exp[i as int]);
                    assert(old_exp[i as int] == self.expanded@[i as int]@);
                    assert(next.filter(pred) == (if pred(next.last()) {
                        next.drop_last().filter(pred).push(next.last())
                    } else {
                        next.drop_last().filter(pred)
                    }));
                }
                if !paths_equal(self.expanded[i].as_str(), path) {
                    kept.push(self.expanded[i].clone());
                    assert(pred(old_exp[i as int]));
                    assert(kept@.map_values(|s: String| s@) =~= old_exp.take(i as int).filter(pred).push(old_exp[i as int]));
                    assert(kept@.map_values(|s: String| s@) == old_exp.take(i + 1).filter(pred));
                } else {
                    assert(!pred(old_exp[i as int]));
                    assert(kept@.map_values(|s: String| s@) =~= old_exp.take(i as int).filter(pred));
                    assert(kept@.map_values(|s: String| s@) == old_exp.take(i + 1).filter(pred));
                }
                i = i + 1;
            }
            assert(old_exp.take(old_exp.len() as int) =~= old_exp);
            self.expanded = kept;
        }
    }
}

/// The sort key of a folder entry (whether it is a folder, its name):
/// whether it is a folder, and its lower-cased name.
pub open spec fn dir_entry_key(e: (bool, String)) -> (bool, Seq<char>) {
    (e.0, lowercase(e.1@))
}

/// Entry key `a` is listed before `b`: folders first, then by lower-cased name.
pub open spec fn dir_key_less(a: (bool, Seq<char>), b: (bool, Seq<char>)) -> bool {
    (a.0 && !b.0) || (a.0 == b.0 && seq_less(a.1, b.1))
}

/// `order` with index `x` inserted after every index whose key is not after
/// the key of `x`.
pub open spec fn insert_entry_index(order: Seq<int>, keys: Seq<(bool, Seq<char>)>, x: int) -> Seq<int>
    decreases order.len(),
{
    if order.len() == 0 {
        seq![x]
    } else if dir_key_less(keys[x], keys[order.last()]) {
        insert_entry_index(order.drop_last(), keys, x).push(order.last())
    } else {
        order.push(x)
    }
}

/// The indices `0..n` in listing order (a stable sort by key).
pub open spec fn entry_order(keys: Seq<(bool, Seq<char>)>, n: nat) -> Seq<int>
    decreases n,
{
    if n == 0 {
        seq![]
    } else {
        insert_entry_index(entry_order(keys, (n - 1) as nat), keys, n - 1)
    }
}

/// Along `order`, no key comes before the key of an earlier index.
pub open spec fn entries_ordered(keys: Seq<(bool, Seq<char>)>, order: Seq<int>) -> bool {
    forall|i: int, j: int| 0 <= i < j < order.len() ==> !dir_key_less(keys[#[trigger] order[j]], keys[#[trigger] order[i]])
}

proof fn lemma_dir_key_split(a: (bool, Seq<char>), b: (bool, Seq<char>), c: (bool, Seq<char>))
    requires
        dir_key_less(a, c),
    ensures
        dir_key_less(a, b) || dir_key_less(b, c),
{
    if a.0 == c.0 && b.0 == a.0 {
        lemma_seq_less_split(a.1, b.1, c.1);
    }
}

proof fn lemma_dir_key_asymmetric(a: (bool, Seq<char>), b: (bool, Seq<char>))
    requires
        dir_key_less(a, b),
    ensures
        !dir_key_less(b, a),
{
    if a.0 == b.0 {
        lemma_seq_less_asymmetric(a.1, b.1);
    }
}

proof fn lemma_insert_entry_index(order: Seq<int>, keys: Seq<(bool, Seq<char>)>, x: int)
    requires
        entries_ordered(keys, order),
    ensures
        entries_ordered(keys, insert_entry_index(order, keys, x)),
        insert_entry_index(order, keys, x).to_multiset() =~= order.to_multiset().insert(x),
    decreases order.len(),
{
    broadcast use vstd::seq_lib::group_to_multiset_ensures;
    if order.len() == 0 {
        assert(seq![x] =~= Seq::<int>::empty().push(x));
    } else {
        let last = order.last();
        let front = order.drop_last();
        assert(order =~= front.push(last));
        assert(entries_ordered(keys, front)) by {
            assert forall|i: int, j: int| 0 <= i < j < front.len()
                implies !dir_key_less(keys[#[trigger] front[j]], keys[#[trigger] front[i]]) by {
                assert(front[j] == order[j] && front[i] == order[i]);
            }
        }
        if dir_key_less(keys[x], keys[last]) {
            lemma_insert_entry_index(front, keys, x);
            let r = insert_entry_index(front, keys, x);
            assert forall|i: int| 0 <= i < r.len() implies !dir_key_less(keys[last], keys[#[trigger] r[i]]) by {
                assert(r.to_multiset().count(r[i]) > 0);
                if r[i] == x {
                    lemma_dir_key_asymmetric(keys[x], keys[last]);
                } else {
                    assert(front.to_multiset().count(r[i]) > 0);
                    let k = choose|k: int| 0 <= k < front.len() && front[k] == r[i];
                    assert(order[k] == front[k]);
                    assert(order[order.len() - 1] == last);
                }
            }
            let rp = r.push(last);
            assert forall|i: int, j: int| 0 <= i < j < rp.len()
                implies !dir_key_less(keys[#[trigger] rp[j]], keys[#[trigger] rp[i]]) by {
                if j == rp.len() - 1 {
                    assert(rp[j] == last && rp[i] == r[i]);
                } else {
                    assert(rp[j] == r[j] && rp[i] == r[i]);
                }
            }
        } else {
            let rp = order.push(x);
            assert forall|i: int, j: int| 0 <= i < j < rp.len()
                implies !dir_key_less(keys[#[trigger] rp[j]], keys[#[trigger] rp[i]]) by {
                if j == rp.len() - 1 {
                    assert(rp[j] == x && rp[i] == order[i]);
                    if dir_key_less(keys[x], keys[order[i]]) {
                        lemma_dir_key_split(keys[x], keys[last], keys[order[i]]);
                        assert(order[order.len() - 1] == last);
                    }
                } else {
                    assert(rp[j] == order[j] && rp[i] == order[i]);
                }
            }
        }
    }
}

proof fn lemma_entry_order(keys: Seq<(bool, Seq<char>)>, n: nat)
    ensures
        entries_ordered(keys, entry_order(keys, n)),
        entry_order(keys, n).to_multiset() =~= Seq::new(n, |i: int| i).to_multiset(),
    decreases n,
{
    broadcast use vstd::seq_lib::group_to_multiset_ensures;
    if n > 0 {
        lemma_entry_order(keys, (n - 1) as nat);
        lemma_insert_entry_index(entry_order(keys, (n - 1) as nat), keys, n - 1);
        assert(Seq::new(n, |i: int| i) =~= Seq::new((n - 1) as nat, |i: int| i).push(n - 1));
    } else {
        assert(Seq::new(0, |i: int| i) =~= Seq::<int>::empty());
    }
}

/// The keys of a folder's entries.
pub open spec fn dir_entry_keys(entries: Seq<(bool, String)>) -> Seq<(bool, Seq<char>)> {
    entries.map_values(|e: (bool, String)| dir_entry_key(e))
}

/// Folder entry `x` (whether it is a folder, its name) is listed before `y`:
/// folders before files, else by lower-cased name.
pub open spec fn listed_before(x: (bool, String), y: (bool, String)) -> bool {
    (x.0 && !y.0) || (x.0 == y.0 && seq_less(lowercase(x.1@), lowercase(y.1@)))
}

/// The order depends only on whether each entry is a folder and on its
/// lower-cased name: two folders' listings whose entries agree on those
/// (names that differ only in case, say) are ordered alike.
pub proof fn lemma_order_ignores_case(a: Seq<(bool, String)>, b: Seq<(bool, String)>)
    requires
        a.len() == b.len(),
        forall|i: int| 0 <= i < a.len() ==> (#[trigger] a[i]).0 == b[i].0 && lowercase(a[i].1@) == lowercase(b[i].1@),
    ensures
        entry_order(dir_entry_keys(a), a.len()) == entry_order(dir_entry_keys(b), b.len()),
{
    assert(dir_entry_keys(a) =~= dir_entry_keys(b)) by {
        assert forall|i: int| 0 <= i < a.len() implies dir_entry_keys(a)[i] == dir_entry_keys(b)[i] by {
            assert(a[i].0 == b[i].0 && lowercase(a[i].1@) == lowercase(b[i].1@));
        }
    }
}

/// The order in which the explorer lists a folder's `entries` (each one
/// whether it is a folder, and its name): folders first, then by
/// lower-cased name, entries with equal keys keeping their order. The
/// result lists every index exactly once.
pub fn sorted_entry_order(entries: &Vec<(bool, String)>) -> (r: Vec<usize>)
    ensures
        r@.map_values(|i: usize| i as int) == entry_order(dir_entry_keys(entries@), entries@.len()),
        entries_ordered(dir_entry_keys(entries@), r@.map_values(|i: usize| i as int)),
        r@.map_values(|i: usize| i as int).to_multiset() == Seq::new(entries@.len(), |i: int| i).to_multiset(),
        forall|a: int, b: int| 0 <= a < b < r@.len() ==> !listed_before(entries@[#[trigger] r@[b] as int], entries@[#[trigger] r@[a] as int]),
{
    let ghost keys = dir_entry_keys(entries@);
    let mut lows: Vec<String> = Vec::new();
    let mut m: usize = 0;
    while m < entries.len()
        invariant
            m <= entries@.len(),
            lows@.len() == m,
            forall|j: int| 0 <= j < m ==> (#[trigger] lows@[j])@ == lowercase(entries@[j].1@),
        decreases entries@.len() - m,
    {
        lows.push(to_lowercase(entries[m].1.as_str()));
        m = m + 1;
    }
    let mut order: Vec<usize> = Vec::new();
    let mut n: usize = 0;
    while n < entries.len()
        invariant
            n <= entries@.len(),
            keys == dir_entry_keys(entries@),
            lows@.len() == entries@.len(),
            forall|j: int| 0 <= j < entries@.len() ==> (#[trigger] lows@[j])@ == lowercase(entries@[j].1@),
            order@.map_values(|i: usize| i as int) == entry_order(keys, n as nat),
            forall|j: int| 0 <= j < order@.len() ==> #[trigger] order@[j] < n,
        decreases entries@.len() - n,
    {
        let mut k = order.len();
        let ghost o = order@.map_values(|i: usize| i as int);
        proof {
            assert(o.take(k as int) =~= o);
            assert(o.skip(k as int) =~= Seq::<int>::empty());
        }
        loop
            invariant
                k <= order@.len(),
                o == order@.map_values(|i: usize| i as int),
                n < entries@.len(),
                keys == dir_entry_keys(entries@),
                lows@.len() == entries@.len(),
                forall|j: int| 0 <= j < entries@.len() ==> (#[trigger] lows@[j])@ == lowercase(entries@[j].1@),
                forall|j: int| 0 <= j < order@.len() ==> #[trigger] order@[j] < n,
                insert_entry_index(o, keys, n as int) == insert_entry_index(o.take(k as int), keys, n as int) + o.skip(k as int),
            ensures
                k <= order@.len(),
                insert_entry_index(o, keys, n as int) == insert_entry_index(o.take(k as int), keys, n as int) + o.skip(k as int),
                k > 0 ==> !dir_key_less(keys[n as int], keys[order@[k - 1] as int]),
            decreases k,
        {
            if k == 0 {
                break;
            }
            let p = order[k - 1];
            let a_dir = entries[n].0;
            let b_dir = entries[p].0;
            let before = (a_dir && !b_dir) || (a_dir == b_dir && str_less(lows[n].as_str(), lows[p].as_str()));
            proof {
                assert(keys[n as int] == dir_entry_key(entries@[n as int]));
                assert(keys[p as int] == dir_entry_key(entries@[p as int]));
            }
            if !before {
                break;
            }
            proof {
                let s = o.take(k as int);
                assert(s.drop_last() =~= o.take(k - 1));
                assert(s.last() == order@[k - 1] as int);
                assert(o.skip(k - 1) =~= seq![s.last()] + o.skip(k as int));
                assert(insert_entry_index(s.drop_last(), keys, n as int).push(s.last()) + o.skip(k as int)
                    =~= insert_entry_index(s.drop_last(), keys, n as int) + (seq![s.last()] + o.skip(k as int)));
            }
            k = k - 1;
        }
        proof {
            let s = o.take(k as int);
            if k > 0 {
                assert(s.last() == order@[k - 1] as int);
            }
            assert(insert_entry_index(s, keys, n as int) == s.push(n as int));
            assert(o =~= s + o.skip(k as int));
        }
        order.insert(k, n);
        proof {
            let s = o.take(k as int);
            assert(order@.map_values(|i: usize| i as int) =~= s.push(n as int) + o.skip(k as int));
            assert(entry_order(keys, (n + 1) as nat) == insert_entry_index(entry_order(keys, n as nat), keys, n as int));
        }
        n = n + 1;
    }
    proof {
        lemma_entry_order(keys, entries@.len());
        broadcast use vstd::seq_lib::group_to_multiset_ensures;
        let o = order@.map_values(|i: usize| i as int);
        assert forall|a: int, b: int| 0 <= a < b < order@.len()
            implies !listed_before(entries@[#[trigger] order@[b] as int], entries@[#[trigger] order@[a] as int]) by {
            assert(o[a] == order@[a] as int && o[b] == order@[b] as int);
            assert(!dir_key_less(keys[o[b]], keys[o[a]]));
            assert(o.to_multiset().count(o[a]) > 0 && o.to_multiset().count(o[b]) > 0);
            assert(Seq::new(entries@.len(), |i: int| i).to_multiset().count(o[a]) > 0);
            assert(Seq::new(entries@.len(), |i: int| i).to_multiset().count(o[b]) > 0);
            assert(Seq::new(entries@.len(), |i: int| i).contains(o[a]));
            assert(Seq::new(entries@.len(), |i: int| i).contains(o[b]));
            assert(keys[o[a]] == dir_entry_key(entries@[o[a]]));
            assert(keys[o[b]] == dir_entry_key(entries@[o[b]]));
        }
    }
    order
}

/// The icon shown before a file of extension `e`.
pub open spec fn icon_of_ext(e: Option<Seq<char>>) -> Seq<char> {
    match e {
        Some(x) => if x == "rs"@ {
            "🦀"@
        } else if x == "md"@ {
            "📝"@
        } else if x == "toml"@ || x == "yaml"@ || x == "yml"@ || x == "json"@ {
            "⚙"@
        } else if x == "png"@ || x == "jpg"@ || x == "jpeg"@ || x == "gif"@ || x == "svg"@ {
            "🖼"@
        } else {
            "📄"@
        },
        None => "📄"@,
    }
}

/// The icon shown before the file at `path`, chosen by its extension.
pub fn file_icon(path: &str) -> (r: &'static str)
    ensures
        r@ == icon_of_ext(extension_of(path@)),
{
    let e = path_extension(path);
    if ext_is(&e, "rs") {
        "🦀"
    } else if ext_is(&e, "md") {
        "📝"
    } else if ext_is(&e, "toml") || ext_is(&e, "yaml") || ext_is(&e, "yml") || ext_is(&e, "json") {
        "⚙"
    } else if ext_is(&e, "png") || ext_is(&e, "jpg") || ext_is(&e, "jpeg") || ext_is(&e, "gif") || ext_is(&e, "svg") {
        "🖼"
    } else {
        "📄"
    }
}

} // verus!
