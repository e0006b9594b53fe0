//! The way an editing session loads the trees that exist already.
use crate::object_id::ObjectId;
use crate::tree::Tree;
use vstd::prelude::*;

verus! {

/// Why a tree could not be loaded.
#[derive(Clone, Copy, Debug, PartialEq, Eq)]
pub enum FindError {
    /// No object with this identifier exists.
    NotFound { oid: ObjectId },
    /// The object exists and could not be decoded as a tree.
    Decode { oid: ObjectId },
}

/// A source of trees, such as an object database.
pub trait Find {
    /// Loads the tree with the identifier `id`. `buffer` is scratch space
    /// for the encoded tree.
    fn find_tree(&self, id: &ObjectId, buffer: &mut Vec<u8>) -> Result<Tree, FindError>;
}

} // verus!
