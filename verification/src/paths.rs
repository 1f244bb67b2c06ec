//! File paths, held as text, and the parts of them that the editor reads:
//! the final component, the extension, and path equality.
use vstd::prelude::*;

use crate::text::{chars_of, str_eq, string_from_range};

verus! {

/// The final component of a path, as std's `Path::file_name` computes it.
pub uninterp spec fn file_name_of(path: Seq<char>) -> Option<Seq<char>>;

/// Whether two paths are equal as std's `Path` compares them (component-wise).
pub uninterp spec fn same_path(a: Seq<char>, b: Seq<char>) -> bool;

/// std's `Path::file_name` on the path `p`; its result is named
/// `file_name_of(p@)`.
#[verifier::external_body]
pub(crate) fn path_file_name(p: &str) -> (r: Option<String>)
    ensures
        match r {
            Some(n) => file_name_of(p@) == Some(n@),
            None => file_name_of(p@) is None,
        },
{
    std::path::Path::new(p).file_name().map(|n| n.to_string_lossy().into_owned())
}

/// std's `==` on `Path`s; its result is named `same_path(a@, b@)`. `Path`
/// implements `Eq`, so equal texts always give equal paths.
#[verifier::external_body]
pub(crate) fn paths_equal(a: &str, b: &str) -> (r: bool)
    ensures
        r == same_path(a@, b@),
        a@ == b@ ==> r,
{
    std::path::Path::new(a) == std::path::Path::new(b)
}

/// Index of the last occurrence of `c` in `s`.
pub open spec fn last_index_of(s: Seq<char>, c: char) -> Option<int>
    decreases s.len(),
{
    if s.len() == 0 {
        None
    } else if s.last() == c {
        Some(s.len() - 1)
    } else {
        last_index_of(s.drop_last(), c)
    }
}

/// The extension of a file name: the part after the final `.`, or `None`
/// when there is no `.` or the only `.` is the first character.
pub open spec fn extension_of_name(name: Seq<char>) -> Option<Seq<char>> {
    match last_index_of(name, '.') {
        Some(k) => if k > 0 {
            Some(name.skip(k + 1))
        } else {
            None
        },
        None => None,
    }
}

/// The extension of a path (std's `Path::extension`): that of its file name.
pub open spec fn extension_of(path: Seq<char>) -> Option<Seq<char>> {
    match file_name_of(path) {
        Some(n) => extension_of_name(n),
        None => None,
    }
}

/// What the editor shows as a file's name: its final component, or the
/// whole path when there is none.
pub open spec fn display_name_of(path: Seq<char>) -> Seq<char> {
    match file_name_of(path) {
        Some(n) => n,
        None => path,
    }
}

/// Index of the last `c` in `v`.
fn last_index_exec(v: &Vec<char>, c: char) -> (r: Option<usize>)
    ensures
        match r {
            Some(k) => last_index_of(v@, c) == Some(k as int),
            None => last_index_of(v@, c) is None,
        },
        r matches Some(k) ==> k < v.len(),
{
    let mut i = v.len();
    assert(v@.take(v@.len() as int) =~= v@);
    while i > 0
        invariant
            i <= v.len(),
            last_index_of(v@, c) == last_index_of(v@.take(i as int), c),
        decreases i,
    {
        assert(v@.take(i as int).drop_last() =~= v@.take(i - 1));
        if v[i - 1] == c {
            return Some(i - 1);
        }
        i = i - 1;
    }
    None
}

/// The extension of the path `p`.
pub fn path_extension(p: &str) -> (r: Option<String>)
    ensures
        match r {
            Some(e) => extension_of(p@) == Some(e@),
            None => extension_of(p@) is None,
        },
{
    match path_file_name(p) {
        None => None,
        Some(name) => {
            let v = chars_of(name.as_str());
            match last_index_exec(&v, '.') {
                Some(k) => {
                    if k > 0 {
                        let e = string_from_range(&v, k + 1, v.len());
                        assert(v@.subrange(k + 1, v@.len() as int) =~= v@.skip(k + 1));
                        Some(e)
                    } else {
                        None
                    }
                },
                None => None,
            }
        },
    }
}

/// The name shown for the file at `p`.
pub fn display_name(p: &str) -> (r: String)
    ensures
        r@ == display_name_of(p@),
{
    match path_file_name(p) {
        Some(n) => n,
        None => String::from_str(p),
    }
}

/// Whether the optional extension `e` is exactly `lit`.
pub fn ext_is(e: &Option<String>, lit: &str) -> (r: bool)
    ensures
        r == (e matches Some(x) && x@ == lit@),
{
    match e {
        Some(x) => str_eq(x.as_str(), lit),
        None => false,
    }
}

} // verus!
