//! The location of a file-backed key store.
//!
//! The library owns the persisted format (`parse_keys` / `format_keys`) and
//! the path; the reading and writing of the file itself is the embedding
//! application's I/O edge, typically through a `MemKeyStore` buffer loaded
//! from and flushed back to this path.

use vstd::prelude::*;

use crate::commons::KeyStoreError;

verus! {

pub struct FileKeyStore {
    path: String,
}

impl FileKeyStore {
    pub closed spec fn spec_path(&self) -> Seq<char> {
        self.path@
    }

    /// A store at this path. Construction only records the location; the
    /// file need not exist yet.
    pub fn new(path: String) -> (r: Result<FileKeyStore, KeyStoreError>)
        ensures
            r matches Ok(s) && s.spec_path() == path@,
    {
        Ok(FileKeyStore { path })
    }

    /// Where the keys are persisted.
    pub fn path(&self) -> (p: &String)
        ensures
            p@ == self.spec_path(),
    {
        &self.path
    }
}

} // verus!
