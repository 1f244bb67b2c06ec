//! The editor's top-level state and what its menu and shortcut actions do to it.
use vstd::prelude::*;

use crate::explorer::FileExplorer;
use crate::paths::{display_name_of, same_path};
use crate::tabs::{already_open, language_of_path, saved_at, OpenFile, TabBar};
use crate::text::concat;

verus! {

/// The whole editor: the explorer, the tabs, the status line and whether the
/// explorer panel is shown.
pub struct CodeEditorApp {
    pub explorer: FileExplorer,
    pub tabs: TabBar,
    pub status_message: String,
    pub show_explorer: bool,
}

/// The editor state right after `file` was added to `old` tabs.
pub open spec fn tabs_after_add(old: TabBar, new: TabBar, file: OpenFile) -> bool {
    match already_open(old.files@, file) {
        Some(i) => new.files@ == old.files@ && new.active == Some(i as usize),
        None => new.files@ == old.files@.push(file) && new.active == Some(old.files@.len() as usize),
    }
}

/// `f` is the buffer of the file at `path` whose text on disk is `content`.
pub open spec fn opened_file(f: OpenFile, path: Seq<char>, content: Seq<char>) -> bool {
    &&& f.path matches Some(p) && p@ == path
    &&& f.content@ == content
    &&& f.on_disk@ == content
    &&& f.display_name@ == display_name_of(path)
    &&& f.language@ == language_of_path(path)
    &&& f.cursor_line == 0
    &&& f.cursor_col == 0
}

impl CodeEditorApp {
    /// A fresh editor: no folder, no tabs, status "Ready", explorer shown.
    pub fn new() -> (a: Self)
        ensures
            a.explorer.root_spec() is None,
            a.explorer.expanded_spec() == Seq::<Seq<char>>::empty(),
            a.tabs.files@.len() == 0,
            a.tabs.active is None,
            a.status_message@ == "Ready"@,
            a.show_explorer,
    {
        CodeEditorApp {
            explorer: FileExplorer::new(),
            tabs: TabBar::new(),
            status_message: String::from_str("Ready"),
            show_explorer: true,
        }
    }

    /// File > New: a new untitled buffer is added and shown.
    pub fn action_new_file(&mut self)
        ensures
            final(self).tabs.files@.len() == old(self).tabs.files@.len() + 1,
            final(self).tabs.files@.drop_last() == old(self).tabs.files@,
            final(self).tabs.active == Some(old(self).tabs.files@.len() as usize),
            ({
                let f = final(self).tabs.files@.last();
                &&& f.path is None
                &&& f.display_name@ == "untitled"@
                &&& f.content@ == Seq::<char>::empty()
                &&& f.on_disk@ == Seq::<char>::empty()
                &&& f.language@ == "plain"@
                &&& f.cursor_line == 0
                &&& f.cursor_col == 0
            }),
            final(self).status_message@ == "New file"@,
            final(self).tabs.wf(),
            final(self).explorer == old(self).explorer,
            final(self).show_explorer == old(self).show_explorer,
    {
        let f = OpenFile::untitled();
        self.tabs.add_file(f);
        self.status_message = String::from_str("New file");
        assert(final(self).tabs.files@.drop_last() =~= old(self).tabs.files@);
    }

    /// File > Open Folder, once the folder `path` was chosen.
    pub fn action_open_folder(&mut self, path: String)
        ensures
            final(self).explorer.root_spec() == Some(path@),
            final(self).explorer.expanded_spec() == seq![path@],
            final(self).status_message@ == "Opened folder "@ + path@,
            final(self).tabs == old(self).tabs,
            final(self).show_explorer == old(self).show_explorer,
    {
        let msg = concat("Opened folder ", path.as_str());
        self.explorer.set_root(path);
        self.status_message = msg;
    }

    /// File > Save, given `written`, the outcome of writing the shown buffer
    /// to its path. Returns whether "Save As" must run instead, which is when
    /// there is no shown buffer or it was never saved.
    pub fn action_save(&mut self, written: Result<(), String>) -> (save_as: bool)
        ensures
            final(self).explorer == old(self).explorer,
            final(self).show_explorer == old(self).show_explorer,
            old(self).tabs.wf() ==> final(self).tabs.wf(),
            match old(self).tabs.active_path_spec() {
                None => save_as && *final(self) == *old(self),
                Some(p) => {
                    &&& !save_as
                    &&& match written {
                        Ok(_) => final(self).status_message@ == "Saved "@ + p
                            && saved_at(old(self).tabs, final(self).tabs, old(self).tabs.active.unwrap() as int, p),
                        Err(e) => final(self).status_message@ == "Save failed: "@ + e@
                            && final(self).tabs == old(self).tabs,
                    }
                },
            },
    {
        match self.tabs.save_active(written) {
            Ok(Some(path)) => {
                self.status_message = concat("Saved ", path.as_str());
                false
            },
            Ok(None) => true,
            Err(e) => {
                self.status_message = concat("Save failed: ", e.as_str());
                false
            },
        }
    }

    /// File > Save As, once `path` was chosen, given `written`, the outcome of
    /// writing the shown buffer there.
    pub fn action_save_as(&mut self, path: &str, written: Result<(), String>)
        ensures
            final(self).explorer == old(self).explorer,
            final(self).show_explorer == old(self).show_explorer,
            old(self).tabs.wf() ==> final(self).tabs.wf(),
            match written {
                Err(e) => if old(self).tabs.active matches Some(i) && i < old(self).tabs.files@.len() {
                    final(self).status_message@ == "Save failed: "@ + e@ && final(self).tabs == old(self).tabs
                } else {
                    final(self).status_message@ == "Saved "@ + path@ && final(self).tabs == old(self).tabs
                },
                Ok(_) => {
                    &&& final(self).status_message@ == "Saved "@ + path@
                    &&& if old(self).tabs.active matches Some(i) && i < old(self).tabs.files@.len() {
                        saved_at(old(self).tabs, final(self).tabs, old(self).tabs.active.unwrap() as int, path@)
                    } else {
                        final(self).tabs == old(self).tabs
                    }
                },
            },
    {
        match self.tabs.save_active_as(path, written) {
            Ok(()) => {
                self.status_message = concat("Saved ", path);
            },
            Err(e) => {
                self.status_message = concat("Save failed: ", e.as_str());
            },
        }
    }

    /// File > Close Tab.
    pub fn action_close_active(&mut self)
        requires
            old(self).tabs.active matches Some(i) ==> i < old(self).tabs.files@.len(),
        ensures
            match old(self).tabs.active {
                None => final(self).tabs == old(self).tabs,
                Some(i) => {
                    &&& final(self).tabs.files@ == old(self).tabs.files@.remove(i as int)
                    &&& final(self).tabs.active == (if final(self).tabs.files@.len() == 0 {
                        None
                    } else if i >= final(self).tabs.files@.len() {
                        Some((final(self).tabs.files@.len() - 1) as usize)
                    } else {
                        Some(i)
                    })
                },
            },
            old(self).tabs.wf() ==> final(self).tabs.wf(),
            final(self).status_message == old(self).status_message,
            final(self).explorer == old(self).explorer,
            final(self).show_explorer == old(self).show_explorer,
    {
        self.tabs.close_active();
    }

    /// Opens the file at `path`, given `read`, the outcome of reading it: its
    /// buffer is shown (added if not open yet), or the failure is reported.
    pub fn open_path(&mut self, path: &str, read: Result<String, String>)
        ensures
            match read {
                Ok(content) => {
                    &&& final(self).status_message@ == "Opened "@ + path@
                    &&& exists|f: OpenFile| #![auto] tabs_after_add(old(self).tabs, final(self).tabs, f)
                        && opened_file(f, path@, content@)
                    &&& final(self).tabs.wf()
                    &&& final(self).tabs.active_path_spec() matches Some(q) && (q == path@ || same_path(q, path@))
                },
                Err(e) => final(self).status_message@ == "Open failed: "@ + e@
                    && final(self).tabs == old(self).tabs,
            },
            final(self).explorer == old(self).explorer,
            final(self).show_explorer == old(self).show_explorer,
    {
        match read {
            Ok(content) => {
                let ghost c = content@;
                let file = OpenFile::from_path(path, content);
                let ghost g = file;
                assert(opened_file(g, path@, c));
                self.tabs.add_file(file);
                self.status_message = concat("Opened ", path);
                assert(tabs_after_add(old(self).tabs, self.tabs, g));
            },
            Err(e) => {
                self.status_message = concat("Open failed: ", e.as_str());
            },
        }
    }

    /// View > Explorer (Ctrl+B): shows or hides the explorer panel.
    pub fn toggle_explorer(&mut self)
        ensures
            final(self).show_explorer == !old(self).show_explorer,
            final(self).explorer == old(self).explorer,
            final(self).tabs == old(self).tabs,
            final(self).status_message == old(self).status_message,
    {
        self.show_explorer = !self.show_explorer;
    }
}

} // verus!
