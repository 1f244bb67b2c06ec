//! A code editor's logic, verified: buffers and tabs, find and replace,
//! find in files, the file explorer's order, the terminal's text, the
//! language-server protocol's bookkeeping, code completion, git status and
//! the source-control and problems panels.

pub mod app;
pub mod completion;
pub mod editor;
pub mod explorer;
pub mod find;
pub mod git;
pub mod lsp;
pub mod paths;
pub mod problems;
pub mod scm;
pub mod search;
pub mod tabs;
pub mod terminal;
pub mod text;
