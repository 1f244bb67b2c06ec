//! The source-control panel: its state, how the changed files are split into
//! its sections, and how diff lines are colored.
use vstd::prelude::*;

use crate::git::{Change, CommitInfo, StatusEntry};
use crate::text::{chars_of, str_eq, trim, trim_spec};

verus! {

/// State of the source-control panel.
pub struct ScmState {
    pub commit_message: String,
    pub statuses: Vec<StatusEntry>,
    pub branches: Vec<String>,
    pub commits: Vec<CommitInfo>,
    pub current_branch: String,
    pub new_branch_name: String,
    pub last_error: Option<String>,
    pub last_info: Option<String>,
    pub selected: Option<(String, bool)>,
    pub diff: String,
}

/// What the user asked the source-control panel to do.
pub enum ScmAction {
    Refresh,
    Stage(String),
    Unstage(String),
    Discard(String),
    Select(String, bool),
    Commit,
    Push,
    Pull,
    Fetch,
    CheckoutBranch(String),
    CreateBranch(String),
    ResolveOurs(String),
    ResolveTheirs(String),
    MarkResolved(String),
    BlameActive,
}

impl ScmState {
    /// An empty panel.
    pub fn new() -> (s: Self)
        ensures
            s.commit_message@ == Seq::<char>::empty(),
            s.statuses@.len() == 0,
            s.branches@.len() == 0,
            s.commits@.len() == 0,
            s.current_branch@ == Seq::<char>::empty(),
            s.new_branch_name@ == Seq::<char>::empty(),
            s.last_error is None,
            s.last_info is None,
            s.selected is None,
            s.diff@ == Seq::<char>::empty(),
    {
        ScmState {
            commit_message: String::new(),
            statuses: Vec::new(),
            branches: Vec::new(),
            commits: Vec::new(),
            current_branch: String::new(),
            new_branch_name: String::new(),
            last_error: None,
            last_info: None,
            selected: None,
            diff: String::new(),
        }
    }
}

/// Staged changes.
pub open spec fn is_staged_section(e: StatusEntry) -> bool {
    e.staged
}

/// Merge conflicts.
pub open spec fn is_conflict_section(e: StatusEntry) -> bool {
    e.change == Change::Conflicted
}

/// Unstaged changes of tracked files.
pub open spec fn is_changes_section(e: StatusEntry) -> bool {
    !e.staged && e.change != Change::Untracked && e.change != Change::Conflicted
}

/// Untracked files.
pub open spec fn is_untracked_section(e: StatusEntry) -> bool {
    !e.staged && e.change == Change::Untracked
}

/// Which section a predicate selects.
pub enum Section {
    Staged,
    Conflicts,
    Changes,
    Untracked,
}

pub open spec fn in_section(s: Section, e: StatusEntry) -> bool {
    match s {
        Section::Staged => is_staged_section(e),
        Section::Conflicts => is_conflict_section(e),
        Section::Changes => is_changes_section(e),
        Section::Untracked => is_untracked_section(e),
    }
}

fn in_section_exec(s: &Section, e: &StatusEntry) -> (r: bool)
    ensures
        r == in_section(*s, *e),
{
    match s {
        Section::Staged => e.staged,
        Section::Conflicts => e.change == Change::Conflicted,
        Section::Changes => !e.staged && e.change != Change::Untracked && e.change != Change::Conflicted,
        Section::Untracked => !e.staged && e.change == Change::Untracked,
    }
}

/// The entries of `statuses` in section `section`, in order.
pub fn section_entries(statuses: &Vec<StatusEntry>, section: Section) -> (r: Vec<StatusEntry>)
    ensures
        r@ == statuses@.filter(|e: StatusEntry| in_section(section, e)),
{
    let ghost pred = |e: StatusEntry| in_section(section, e);
    let mut r: Vec<StatusEntry> = Vec::new();
    let mut i: usize = 0;
    while i < statuses.len()
        invariant
            i <= statuses@.len(),
            pred == (|e: StatusEntry| in_section(section, e)),
            r@ == statuses@.take(i as int).filter(pred),
        decreases statuses@.len() - i,
    {
        proof {
            reveal_with_fuel(Seq::filter, 1);
            assert(statuses@.take(i + 1).drop_last() =~= statuses@.take(i as int));
        }
        if in_section_exec(&section, &statuses[i]) {
            r.push(statuses[i].clone());
        }
        i = i + 1;
    }
    assert(statuses@.take(statuses@.len() as int) =~= statuses@);
    r
}

/// The changed files split into the panel's sections: staged changes, merge
/// conflicts, unstaged changes, untracked files.
pub fn partition_statuses(statuses: &Vec<StatusEntry>) -> (r: (Vec<StatusEntry>, Vec<StatusEntry>, Vec<StatusEntry>, Vec<StatusEntry>))
    ensures
        r.0@ == statuses@.filter(|e: StatusEntry| is_staged_section(e)),
        r.1@ == statuses@.filter(|e: StatusEntry| is_conflict_section(e)),
        r.2@ == statuses@.filter(|e: StatusEntry| is_changes_section(e)),
        r.3@ == statuses@.filter(|e: StatusEntry| is_untracked_section(e)),
{
    let staged = section_entries(statuses, Section::Staged);
    let conflicted = section_entries(statuses, Section::Conflicts);
    let unstaged = section_entries(statuses, Section::Changes);
    let untracked = section_entries(statuses, Section::Untracked);
    assert((|e: StatusEntry| in_section(Section::Staged, e)) =~= (|e: StatusEntry| is_staged_section(e)));
    assert((|e: StatusEntry| in_section(Section::Conflicts, e)) =~= (|e: StatusEntry| is_conflict_section(e)));
    assert((|e: StatusEntry| in_section(Section::Changes, e)) =~= (|e: StatusEntry| is_changes_section(e)));
    assert((|e: StatusEntry| in_section(Section::Untracked, e)) =~= (|e: StatusEntry| is_untracked_section(e)));
    (staged, conflicted, unstaged, untracked)
}

/// A change that is not a staged conflict (and git's status lists none:
/// see `collect_statuses`) is shown in exactly one section of the panel.
pub proof fn lemma_one_section(e: StatusEntry)
    requires
        !(e.staged && e.change == Change::Conflicted),
    ensures
        (if is_staged_section(e) { 1int } else { 0int }) + (if is_conflict_section(e) { 1int } else { 0int })
            + (if is_changes_section(e) { 1int } else { 0int }) + (if is_untracked_section(e) { 1int } else { 0int }) == 1,
{
}

/// The branch to create from the name typed: the name without surrounding
/// whitespace, or `None` when that is empty.
pub fn branch_to_create(name: &str) -> (r: Option<String>)
    ensures
        match r {
            Some(n) => n@ == trim_spec(name@) && n@.len() > 0,
            None => trim_spec(name@).len() == 0,
        },
{
    let n = trim(name);
    if n.as_str().is_empty() {
        None
    } else {
        Some(n)
    }
}

/// Whether `entry` is the file whose diff is shown.
pub fn is_selected(selected: &Option<(String, bool)>, entry: &StatusEntry) -> (r: bool)
    ensures
        r == (selected matches Some((p, s)) && p@ == entry.path@ && s == entry.staged),
{
    match selected {
        Some((p, s)) => str_eq(p.as_str(), entry.path.as_str()) && *s == entry.staged,
        None => false,
    }
}

/// How a line of a diff is colored.
pub enum DiffLineKind {
    Added,
    Removed,
    Hunk,
    Context,
}

/// `s` starts with `p`.
pub open spec fn has_prefix(s: Seq<char>, p: Seq<char>) -> bool {
    p.len() <= s.len() && s.take(p.len() as int) == p
}

/// The kind of a diff line: an added line starts with `+` (but not `+++`),
/// a removed line with `-` (but not `---`), a hunk header with `@`.
pub open spec fn diff_line_kind_spec(line: Seq<char>) -> DiffLineKind {
    if line.len() > 0 && line[0] == '+' && !has_prefix(line, seq!['+', '+', '+']) {
        DiffLineKind::Added
    } else if line.len() > 0 && line[0] == '-' && !has_prefix(line, seq!['-', '-', '-']) {
        DiffLineKind::Removed
    } else if line.len() > 0 && line[0] == '@' {
        DiffLineKind::Hunk
    } else {
        DiffLineKind::Context
    }
}

/// How the diff view colors `line`.
pub fn diff_line_kind(line: &str) -> (r: DiffLineKind)
    ensures
        r == diff_line_kind_spec(line@),
{
    let v = chars_of(line);
    if v.len() == 0 {
        return DiffLineKind::Context;
    }
    let triple = v.len() >= 3 && v[1] == v[0] && v[2] == v[0];
    proof {
        if v@.len() >= 3 {
            assert(has_prefix(line@, seq![v@[0], v@[0], v@[0]]) == (v@[1] == v@[0] && v@[2] == v@[0])) by {
                if v@[1] == v@[0] && v@[2] == v@[0] {
                    assert(line@.take(3) =~= seq![v@[0], v@[0], v@[0]]);
                }
                if has_prefix(line@, seq![v@[0], v@[0], v@[0]]) {
                    assert(line@.take(3)[1] == v@[1]);
                    assert(line@.take(3)[2] == v@[2]);
                }
            }
        }
    }
    if v[0] == '+' && !triple {
        DiffLineKind::Added
    } else if v[0] == '-' && !triple {
        DiffLineKind::Removed
    } else if v[0] == '@' {
        DiffLineKind::Hunk
    } else {
        DiffLineKind::Context
    }
}

} // verus!
