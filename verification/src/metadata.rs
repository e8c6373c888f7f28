use vstd::prelude::*;

verus! {

/// Last-observed attributes of an external object: the snapshot that a
/// scan cycle diffs fresh lookups against.
#[derive(Debug, Clone, Copy, PartialEq, Eq)]
pub struct FileLikeMetadata {
    pub size: u64,
    pub modified_at: Option<u64>,
    pub is_directory: bool,
}

impl FileLikeMetadata {
    /// The attributes that indicate a content change: size and
    /// modification time. The path kind (file or directory) does not
    /// by itself signal new content.
    pub open spec fn is_changed_spec(self, other: FileLikeMetadata) -> bool {
        self.size != other.size || self.modified_at != other.modified_at
    }

    /// Authoritative predicate for emitting an `Update` action.
    pub fn is_changed(&self, other: &FileLikeMetadata) -> (r: bool)
        ensures
            r == self.is_changed_spec(*other),
    {
        if self.size != other.size {
            return true;
        }
        match (self.modified_at, other.modified_at) {
            (Some(a), Some(b)) => a != b,
            (None, None) => false,
            _ => true,
        }
    }
}

} // verus!
