//! Open buffers and the tab bar that holds them.
use vstd::prelude::*;

use crate::paths::{display_name, display_name_of, ext_is, extension_of, path_extension, paths_equal, same_path};

verus! {

/// One open buffer. `path` is `None` for a buffer never saved.
pub struct OpenFile {
    pub path: Option<String>,
    pub display_name: String,
    pub content: String,
    pub on_disk: String,
    pub language: String,
    pub cursor_line: usize,
    pub cursor_col: usize,
}

/// The language tag of a file extension (`"txt"` when unknown).
pub open spec fn language_of_ext(e: Option<Seq<char>>) -> Seq<char> {
    match e {
        Some(x) => if x == "rs"@ {
            "rs"@
        } else if x == "py"@ {
            "py"@
        } else if x == "js"@ {
            "js"@
        } else if x == "ts"@ {
            "ts"@
        } else if x == "jsx"@ {
            "js"@
        } else if x == "tsx"@ {
            "ts"@
        } else if x == "c"@ || x == "h"@ {
            "c"@
        } else if x == "cpp"@ || x == "cc"@ || x == "hpp"@ || x == "hh"@ {
            "cpp"@
        } else if x == "go"@ {
            "go"@
        } else if x == "java"@ {
            "java"@
        } else if x == "kt"@ {
            "kt"@
        } else if x == "rb"@ {
            "rb"@
        } else if x == "sh"@ || x == "bash"@ {
            "sh"@
        } else if x == "md"@ {
            "md"@
        } else if x == "toml"@ {
            "toml"@
        } else if x == "yaml"@ || x == "yml"@ {
            "yaml"@
        } else if x == "json"@ {
            "json"@
        } else if x == "html"@ {
            "html"@
        } else if x == "css"@ {
            "css"@
        } else if x == "xml"@ {
            "xml"@
        } else if x == "sql"@ {
            "sql"@
        } else {
            "txt"@
        },
        None => "txt"@,
    }
}

/// The language tag of the file at `path`, from its extension.
pub open spec fn language_of_path(path: Seq<char>) -> Seq<char> {
    language_of_ext(extension_of(path))
}

/// The language tag for the file at `path`, chosen by its extension.
pub fn detect_language(path: &str) -> (r: String)
    ensures
        r@ == language_of_path(path@),
{
    let e = path_extension(path);
    let lang: &str = if ext_is(&e, "rs") {
        "rs"
    } else if ext_is(&e, "py") {
        "py"
    } else if ext_is(&e, "js") {
        "js"
    } else if ext_is(&e, "ts") {
        "ts"
    } else if ext_is(&e, "jsx") {
        "js"
    } else if ext_is(&e, "tsx") {
        "ts"
    } else if ext_is(&e, "c") || ext_is(&e, "h") {
        "c"
    } else if ext_is(&e, "cpp") || ext_is(&e, "cc") || ext_is(&e, "hpp") || ext_is(&e, "hh") {
        "cpp"
    } else if ext_is(&e, "go") {
        "go"
    } else if ext_is(&e, "java") {
        "java"
    } else if ext_is(&e, "kt") {
        "kt"
    } else if ext_is(&e, "rb") {
        "rb"
    } else if ext_is(&e, "sh") || ext_is(&e, "bash") {
        "sh"
    } else if ext_is(&e, "md") {
        "md"
    } else if ext_is(&e, "toml") {
        "toml"
    } else if ext_is(&e, "yaml") || ext_is(&e, "yml") {
        "yaml"
    } else if ext_is(&e, "json") {
        "json"
    } else if ext_is(&e, "html") {
        "html"
    } else if ext_is(&e, "css") {
        "css"
    } else if ext_is(&e, "xml") {
        "xml"
    } else if ext_is(&e, "sql") {
        "sql"
    } else {
        "txt"
    };
    String::from_str(lang)
}

/// The buffer state right after its content was written to `path`.
pub open spec fn saved_as(f: OpenFile, g: OpenFile, path: Seq<char>) -> bool {
    &&& g.on_disk@ == f.content@
    &&& g.content@ == f.content@
    &&& g.path matches Some(p) && p@ == path
    &&& g.display_name@ == display_name_of(path)
    &&& g.language@ == language_of_path(path)
    &&& g.cursor_line == f.cursor_line
    &&& g.cursor_col == f.cursor_col
}

impl OpenFile {
    /// A new, empty, never-saved buffer.
    pub fn untitled() -> (f: Self)
        ensures
            f.path is None,
            f.display_name@ == "untitled"@,
            f.content@ == Seq::<char>::empty(),
            f.on_disk@ == Seq::<char>::empty(),
            f.language@ == "plain"@,
            f.cursor_line == 0,
            f.cursor_col == 0,
    {
        OpenFile {
            path: None,
            display_name: String::from_str("untitled"),
            content: String::new(),
            on_disk: String::new(),
            language: String::from_str("plain"),
            cursor_line: 0,
            cursor_col: 0,
        }
    }

    /// The buffer for the file at `path` whose text on disk is `content`.
    pub fn from_path(path: &str, content: String) -> (f: Self)
        ensures
            f.path matches Some(p) && p@ == path@,
            f.display_name@ == display_name_of(path@),
            f.content@ == content@,
            f.on_disk@ == content@,
            f.language@ == language_of_path(path@),
            f.cursor_line == 0,
            f.cursor_col == 0,
    {
        let display_name = display_name(path);
        let language = detect_language(path);
        OpenFile {
            path: Some(String::from_str(path)),
            display_name,
            on_disk: content.clone(),
            content,
            language,
            cursor_line: 0,
            cursor_col: 0,
        }
    }

    /// The buffer has edits that are not on disk.
    pub fn is_dirty(&self) -> (r: bool)
        ensures
            r == (self.content@ != self.on_disk@),
    {
        !(self.content == self.on_disk)
    }

    /// The text of the buffer's tab: its name, after "● " when it has edits
    /// that are not on disk.
    pub fn tab_label(&self) -> (r: String)
        ensures
            r@ == (if self.content@ != self.on_disk@ { "● "@ + self.display_name@ } else { self.display_name@ }),
    {
        if self.is_dirty() {
            let mut s = String::from_str("● ");
            s.append(self.display_name.as_str());
            s
        } else {
            self.display_name.clone()
        }
    }

    /// Records that the buffer's content was written to `path`: the text on
    /// disk is now the content, and the path, name and language follow `path`.
    pub fn save_to(&mut self, path: &str)
        ensures
            saved_as(*old(self), *final(self), path@),
    {
        self.on_disk = self.content.clone();
        self.path = Some(String::from_str(path));
        self.display_name = display_name(path);
        self.language = detect_language(path);
    }
}

/// `new` is `old` with buffer `i` saved to `path`: nothing else changed.
pub open spec fn saved_at(old: TabBar, new: TabBar, i: int, path: Seq<char>) -> bool {
    &&& new.active == old.active
    &&& new.files@.len() == old.files@.len()
    &&& saved_as(old.files@[i], new.files@[i], path)
    &&& forall|j: int| 0 <= j < new.files@.len() && j != i ==> new.files@[j] == old.files@[j]
}

/// The first index, from `start` on, of a buffer whose path is `p`.
pub open spec fn position_of_path(files: Seq<OpenFile>, p: Seq<char>, start: int) -> Option<int>
    decreases files.len() - start,
{
    if start < 0 || start >= files.len() {
        None
    } else if files[start].path matches Some(q) && same_path(q@, p) {
        Some(start)
    } else {
        position_of_path(files, p, start + 1)
    }
}

proof fn lemma_position_of_path(files: Seq<OpenFile>, p: Seq<char>, start: int)
    ensures
        position_of_path(files, p, start) matches Some(i) ==> {
            &&& start <= i < files.len()
            &&& files[i].path matches Some(q) && same_path(q@, p)
        },
    decreases files.len() - start,
{
    if 0 <= start < files.len() {
        lemma_position_of_path(files, p, start + 1);
    }
}

/// Where `add_file` finds an already-open buffer for `file`.
pub open spec fn already_open(files: Seq<OpenFile>, file: OpenFile) -> Option<int> {
    match file.path {
        Some(p) => position_of_path(files, p@, 0),
        None => None,
    }
}

/// The buffers, and which one is shown.
pub struct TabBar {
    pub files: Vec<OpenFile>,
    pub active: Option<usize>,
}

impl TabBar {
    /// A tab bar is well formed when a buffer is shown exactly when there is
    /// one, and the shown one exists.
    pub open spec fn wf(&self) -> bool {
        &&& (self.active is None <==> self.files@.len() == 0)
        &&& (self.active matches Some(i) ==> i < self.files@.len())
    }

    /// No tabs.
    pub fn new() -> (t: Self)
        ensures
            t.files@.len() == 0,
            t.active is None,
            t.wf(),
    {
        TabBar { files: Vec::new(), active: None }
    }

    fn find_path(&self, p: &str) -> (r: Option<usize>)
        ensures
            match r {
                Some(i) => position_of_path(self.files@, p@, 0) == Some(i as int),
                None => position_of_path(self.files@, p@, 0) is None,
            },
    {
        let mut i: usize = 0;
        while i < self.files.len()
            invariant
                i <= self.files.len(),
                position_of_path(self.files@, p@, 0) == position_of_path(self.files@, p@, i as int),
            decreases self.files.len() - i,
        {
            match &self.files[i].path {
                Some(q) => {
                    if paths_equal(q.as_str(), p) {
                        return Some(i);
                    }
                },
                None => {},
            }
            i = i + 1;
        }
        None
    }

    /// Shows `file`: the buffer already open for the same path if there is
    /// one (the first such), else `file` added as a new last tab.
    pub fn add_file(&mut self, file: OpenFile)
        ensures
            match already_open(old(self).files@, file) {
                Some(i) => final(self).files@ == old(self).files@ && final(self).active == Some(i as usize),
                None => final(self).files@ == old(self).files@.push(file)
                    && final(self).active == Some(old(self).files@.len() as usize),
            },
            final(self).wf(),
            final(self).active matches Some(k) && {
                &&& file.path is None ==> final(self).files@[k as int] == file
                &&& file.path matches Some(p) ==> (final(self).files@[k as int].path matches Some(q)
                    && (q@ == p@ || same_path(q@, p@)))
            },
    {
        proof {
            if file.path is Some {
                lemma_position_of_path(self.files@, file.path.unwrap()@, 0);
            }
        }
        match &file.path {
            Some(p) => {
                match self.find_path(p.as_str()) {
                    Some(idx) => {
                        self.active = Some(idx);
                        return;
                    },
                    None => {},
                }
            },
            None => {},
        }
        self.files.push(file);
        self.active = Some(self.files.len() - 1);
    }

    /// The shown buffer, if any.
    pub fn active(&self) -> (r: Option<&OpenFile>)
        ensures
            match self.active {
                Some(i) => if i < self.files@.len() {
                    r == Some(&self.files@[i as int])
                } else {
                    r is None
                },
                None => r is None,
            },
    {
        match self.active {
            Some(i) => {
                if i < self.files.len() {
                    Some(&self.files[i])
                } else {
                    None
                }
            },
            None => None,
        }
    }

    /// The shown buffer, for editing, if any.
    pub fn active_mut(&mut self) -> (r: Option<&mut OpenFile>)
        ensures
            (old(self).active matches Some(i) && i < old(self).files@.len()) ==> {
                &&& r is Some
                &&& *r.unwrap() == old(self).files@[old(self).active.unwrap() as int]
                &&& final(self).files@ == old(self).files@.update(old(self).active.unwrap() as int, *final(r.unwrap()))
                &&& final(self).active == old(self).active
            },
            !(old(self).active matches Some(i) && i < old(self).files@.len()) ==> r is None && *final(self) == *old(self),
    {
        match self.active {
            Some(i) => {
                if i < self.files.len() {
                    Some(&mut self.files[i])
                } else {
                    None
                }
            },
            None => None,
        }
    }

    /// Closes the shown tab; the tab now at its place is shown, or the last
    /// one when it was the last, or none when no tab is left.
    pub fn close_active(&mut self)
        requires
            old(self).active matches Some(i) ==> i < old(self).files@.len(),
        ensures
            old(self).wf() ==> final(self).wf(),
            match old(self).active {
                None => *final(self) == *old(self),
                Some(i) => {
                    &&& final(self).files@ == old(self).files@.remove(i as int)
                    &&& final(self).active == (if final(self).files@.len() == 0 {
                        None
                    } else if i >= final(self).files@.len() {
                        Some((final(self).files@.len() - 1) as usize)
                    } else {
                        Some(i)
                    })
                },
            },
    {
        let idx = match self.active {
            Some(i) => i,
            None => return,
        };
        self.files.remove(idx);
        if self.files.len() == 0 {
            self.active = None;
        } else if idx >= self.files.len() {
            self.active = Some(self.files.len() - 1);
        } else {
            self.active = Some(idx);
        }
    }

    /// Shows tab `i`.
    pub fn activate(&mut self, i: usize)
        ensures
            i < old(self).files@.len() ==> final(self).wf(),
            final(self).files@ == old(self).files@,
            final(self).active == Some(i),
    {
        self.active = Some(i);
    }

    /// Closes tab `i` (its close button was clicked). The shown tab stays
    /// shown; when it was the one closed, the tab now at its place is shown,
    /// or the last one when it was the last.
    pub fn close_tab(&mut self, i: usize)
        requires
            i < old(self).files@.len(),
        ensures
            old(self).wf() ==> final(self).wf(),
            final(self).files@ == old(self).files@.remove(i as int),
            final(self).active == (if final(self).files@.len() == 0 {
                None
            } else {
                match old(self).active {
                    Some(a) => Some(
                        if a == i && a >= final(self).files@.len() {
                            (final(self).files@.len() - 1) as usize
                        } else if a > i {
                            (a - 1) as usize
                        } else {
                            a
                        },
                    ),
                    None => None,
                }
            }),
    {
        self.files.remove(i);
        if self.files.len() == 0 {
            self.active = None;
        } else {
            let n = self.files.len();
            self.active = match self.active {
                Some(a) => Some(
                    if a == i && a >= n {
                        n - 1
                    } else if a > i {
                        a - 1
                    } else {
                        a
                    },
                ),
                None => None,
            };
        }
    }

    /// Path of the shown buffer, when there is one and it has been saved before.
    pub open spec fn active_path_spec(&self) -> Option<Seq<char>> {
        match self.active {
            Some(i) => if i < self.files@.len() {
                match self.files@[i as int].path {
                    Some(p) => Some(p@),
                    None => None,
                }
            } else {
                None
            },
            None => None,
        }
    }

    /// Path that "Save" writes the shown buffer to.
    pub fn active_path(&self) -> (r: Option<String>)
        ensures
            match r {
                Some(p) => self.active_path_spec() == Some(p@),
                None => self.active_path_spec() is None,
            },
    {
        match self.active() {
            Some(f) => match &f.path {
                Some(p) => Some(p.clone()),
                None => None,
            },
            None => None,
        }
    }

    /// "Save", given `written`, the outcome of writing the shown buffer's
    /// content to its path. Without a shown buffer, or when it was never
    /// saved, nothing is written: `Ok(None)`, and `written` is not looked at.
    /// Otherwise a failed write is returned as is, and a successful one marks
    /// the buffer saved and returns its path.
    pub fn save_active(&mut self, written: Result<(), String>) -> (r: Result<Option<String>, String>)
        ensures
            old(self).wf() ==> final(self).wf(),
            match old(self).active_path_spec() {
                None => r == Ok::<Option<String>, String>(None) && *final(self) == *old(self),
                Some(p) => match written {
                    Err(e) => r == Err::<Option<String>, String>(e) && *final(self) == *old(self),
                    Ok(_) => {
                        &&& r matches Ok(Some(q)) && q@ == p
                        &&& saved_at(*old(self), *final(self), old(self).active.unwrap() as int, p)
                    },
                },
            },
    {
        let path = match self.active_path() {
            Some(p) => p,
            None => return Ok(None),
        };
        match written {
            Err(e) => Err(e),
            Ok(()) => {
                let i = self.active.unwrap();
                let mut file = self.files.remove(i);
                file.save_to(path.as_str());
                self.files.insert(i, file);
                Ok(Some(path))
            },
        }
    }

    /// "Save As" to `path`, given `written`, the outcome of writing the shown
    /// buffer's content there. Without a shown buffer nothing is written:
    /// `Ok(())`, and `written` is not looked at. Otherwise a failed write is
    /// returned as is, and a successful one marks the buffer saved to `path`.
    pub fn save_active_as(&mut self, path: &str, written: Result<(), String>) -> (r: Result<(), String>)
        ensures
            old(self).wf() ==> final(self).wf(),
            match old(self).active {
                Some(i) => if i < old(self).files@.len() {
                    match written {
                        Err(e) => r == Err::<(), String>(e) && *final(self) == *old(self),
                        Ok(_) => r is Ok && saved_at(*old(self), *final(self), i as int, path@),
                    }
                } else {
                    r is Ok && *final(self) == *old(self)
                },
                None => r is Ok && *final(self) == *old(self),
            },
    {
        let i = match self.active {
            Some(i) => i,
            None => return Ok(()),
        };
        if i >= self.files.len() {
            return Ok(());
        }
        match written {
            Err(e) => Err(e),
            Ok(()) => {
                let mut file = self.files.remove(i);
                file.save_to(path);
                self.files.insert(i, file);
                Ok(())
            },
        }
    }
}

} // verus!
