//! The kinds of failure that end a run.

use vstd::prelude::*;

verus! {

/// Why a run failed. Each kind carries the text that describes the failure
/// to the operator.
#[derive(Debug)]
pub enum Error {
    /// A file could not be opened or read.
    IoError(String),
    /// A directory entry could not be read during the walk.
    WalkDirError(String),
    /// The index refused a record, or its store failed.
    StorageError(String),
    /// The other end of a queue is gone.
    MessagingError(String),
}

impl Error {
    /// The text that the error carries.
    pub open spec fn text(self) -> Seq<char> {
        match self {
            Error::IoError(text) => text@,
            Error::WalkDirError(text) => text@,
            Error::StorageError(text) => text@,
            Error::MessagingError(text) => text@,
        }
    }

    /// The description of the failure, as it is shown to the operator.
    pub fn message(&self) -> (text: String)
        ensures
            text@ == self.text(),
    {
        match self {
            Error::IoError(text) => text.clone(),
            Error::WalkDirError(text) => text.clone(),
            Error::StorageError(text) => text.clone(),
            Error::MessagingError(text) => text.clone(),
        }
    }
}

} // verus!
