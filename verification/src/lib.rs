//! Drafting support for official documents: a verified diff engine for
//! manuscript versions, change hunks with per-hunk revert, and the plain
//! text helpers that the editor and importer rely on.

pub mod text;
pub mod models;
pub mod lcs;
pub mod diff;
pub mod hunks;
pub mod hunk_order;
pub mod diff_view;
pub mod diff_editor;
pub mod markdown;
pub mod align;
pub mod find;
pub mod editor;
pub mod doc_import;
pub mod widgets;
pub mod draft_page;
pub mod form;
pub mod table;
pub mod crash_log;
