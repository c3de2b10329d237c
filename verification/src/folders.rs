//! Folders of notes. The list is small and kept encrypted as a whole in one
//! data file; reading and writing it is the caller's.

use vstd::prelude::*;

verus! {

/// A folder.
pub struct FolderData {
    pub id: String,
    pub name: String,
    pub created_at: String,
    pub order: i32,
}

} // verus!
