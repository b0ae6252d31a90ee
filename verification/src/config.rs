//! Configuration as the library consumes it: an already-validated plain
//! structure. Reading and deserializing a configuration file is the
//! configuration collaborator's job, outside this crate; malformed files
//! are its failure domain, not the index's.

use vstd::prelude::*;

verus! {

/// Per-notebook settings: where its files live, and how new note names
/// are rendered.
pub struct Notebook {
    pub location: String,
    pub date_format: Option<String>,
    pub note_template: Option<String>,
}

/// One configured notebook, by name.
pub struct NotebookEntry {
    pub name: String,
    pub settings: Notebook,
}

/// One configured docket, by name.
pub struct DocketEntry {
    pub name: String,
    pub location: String,
}

/// The whole configuration: a root path and the configured notebooks and
/// dockets.
pub struct Config {
    pub root_path: String,
    pub notebooks: Vec<NotebookEntry>,
    pub dockets: Vec<DocketEntry>,
}

/// Failure of the configuration collaborator.
#[derive(Clone, Copy, PartialEq, Eq, Structural, Debug)]
pub enum ConfigError {
    /// The configuration file could not be read.
    BadFile,
    /// The configuration file is not well-formed.
    BadToml,
}

/// Mathematical image of a [`Notebook`] settings record.
pub ghost struct NotebookSettingsView {
    pub location: Seq<char>,
    pub date_format: Option<Seq<char>>,
    pub note_template: Option<Seq<char>>,
}

/// Mathematical image of a [`NotebookEntry`].
pub ghost struct NotebookEntryView {
    pub name: Seq<char>,
    pub settings: NotebookSettingsView,
}

impl DeepView for Notebook {
    type V = NotebookSettingsView;

    open spec fn deep_view(&self) -> NotebookSettingsView {
        NotebookSettingsView {
            location: self.location@,
            date_format: match self.date_format {
                Some(ref s) => Some(s@),
                None => None,
            },
            note_template: match self.note_template {
                Some(ref s) => Some(s@),
                None => None,
            },
        }
    }
}

impl DeepView for NotebookEntry {
    type V = NotebookEntryView;

    open spec fn deep_view(&self) -> NotebookEntryView {
        NotebookEntryView { name: self.name@, settings: self.settings.deep_view() }
    }
}

} // verus!
