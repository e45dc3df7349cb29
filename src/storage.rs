use vstd::prelude::*;

verus! {

/// A revision of the repository: a display name and an opaque identifier.
#[derive(Debug)]
pub struct VersionItem {
    pub name: String,
    pub id: Vec<u8>,
}

/// Sent by a backend when it observes a new head revision.
pub struct StorageChangeEvent {
    pub new_version: VersionItem,
}

/// One entry of a directory listing.
#[derive(Debug)]
pub struct DirItem {
    pub abs_path: String,
    pub is_dir: bool,
    /// Opaque handle accepted by the backend's object reader; may be empty for a directory.
    pub hash: Vec<u8>,
}

impl DirItem {
    pub fn new(abs_path: String, is_dir: bool, hash: Vec<u8>) -> (r: DirItem)
        ensures
            r.abs_path == abs_path,
            r.is_dir == is_dir,
            r.hash == hash,
    {
        DirItem { abs_path, is_dir, hash }
    }

    pub fn is_dir(&self) -> (r: bool)
        ensures
            r == self.is_dir,
    {
        self.is_dir
    }
}

/// What a directory-walk visitor asks for next.
#[derive(Debug, PartialEq, Eq, Structural, Clone, Copy)]
pub enum WalkRetCtl {
    Next,
    SkipCurrentNode,
    StopWalking,
}

} // verus!
