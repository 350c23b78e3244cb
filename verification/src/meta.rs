//! The metadata record type and the storage manager's error kinds.

use vstd::prelude::*;

verus! {

/// One stored file's metadata record: the stored name (unique within the
/// storage namespace) and the byte length recorded when the file was written.
#[derive(Debug, Clone)]
pub struct FileMeta {
    pub filename: String,
    pub size: u64,
}

/// Mathematical value of a metadata record.
pub ghost struct RecV {
    pub name: Seq<char>,
    pub size: u64,
}

impl View for FileMeta {
    type V = RecV;

    open spec fn view(&self) -> RecV {
        RecV { name: self.filename@, size: self.size }
    }
}

/// The record values of a sequence of records.
pub open spec fn recs_of(s: Seq<FileMeta>) -> Seq<RecV> {
    s.map_values(|m: FileMeta| m@)
}

/// The error kinds the storage manager reports. I/O failures proper
/// (permissions, disk full) belong to the unverified shell around the
/// library; the manager itself decides only these two.
#[derive(Clone, Copy, Debug, PartialEq, Eq, Structural)]
pub enum StorageError {
    /// The source path is not an existing regular file, or the download
    /// destination is not an existing directory.
    InvalidInput,
    /// The storage root does not exist, or no stored file has the given name.
    NotFound,
}

impl StorageError {
    /// A short description, in the words the manager reports to callers.
    pub fn message(&self) -> (r: &'static str)
        ensures
            r@ == self.spec_message(),
    {
        match self {
            StorageError::InvalidInput => "Invalid path",
            StorageError::NotFound => "Not found in storage",
        }
    }

    /// The description `message` returns.
    pub open spec fn spec_message(self) -> Seq<char> {
        match self {
            StorageError::InvalidInput => "Invalid path"@,
            StorageError::NotFound => "Not found in storage"@,
        }
    }
}

} // verus!
