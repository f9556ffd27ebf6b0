//! Core data types shared by the engine: sort direction, column
//! descriptors, and the error value of the ingestion boundary.

use vstd::prelude::*;

verus! {

/// Direction in which a column sort orders its keys.
#[derive(Debug, PartialEq, Eq, Clone, Copy, Structural)]
pub enum SortOrder {
    Asc,
    Dsc,
}

/// One column of a loaded dataset: its name, whether the renderer shows it,
/// and the sort annotation a view has placed on it.
#[derive(Debug, Clone)]
pub struct FileHeader {
    pub name: String,
    pub visible: bool,
    pub sort: Option<SortOrder>,
}

impl FileHeader {
    /// A fresh column descriptor as ingestion creates it: visible, unsorted.
    pub fn new(name: String) -> (r: FileHeader)
        ensures
            r.name@ == name@,
            r.visible,
            r.sort is None,
    {
        FileHeader { name, visible: true, sort: None }
    }

    /// A field-for-field copy whose contents are known to match the original.
    pub fn duplicate(&self) -> (r: FileHeader)
        ensures
            r.name@ == self.name@,
            r.visible == self.visible,
            r.sort == self.sort,
    {
        FileHeader { name: self.name.clone(), visible: self.visible, sort: self.sort }
    }
}

impl Default for FileHeader {
    /// The default column descriptor: empty name, hidden, unsorted.
    fn default() -> (r: FileHeader)
        ensures
            r.name@ == Seq::<char>::empty(),
            !r.visible,
            r.sort is None,
    {
        FileHeader { name: String::new(), visible: false, sort: None }
    }
}

/// The single error value of the ingestion boundary: every failure to load a
/// dataset (unreadable bytes, malformed delimited syntax) carries one
/// human-readable message, and the caller decides how to surface it.
#[derive(Debug, Clone)]
pub struct IoError {
    pub message: String,
}

impl IoError {
    pub fn new(message: String) -> (r: IoError)
        ensures
            r.message@ == message@,
    {
        IoError { message }
    }

    /// The human-readable description, for display at the UI boundary.
    pub fn message_text(&self) -> (r: &String)
        ensures
            r@ == self.message@,
    {
        &self.message
    }
}

} // verus!
