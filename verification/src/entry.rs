//! The rows of a tree: a name, a mode and the identifier of a child object.
use crate::object_id::{null_bytes, ObjectId};
use vstd::prelude::*;
use vstd::std_specs::convert::FromSpecImpl;

verus! {

/// The bits of a mode that tell which kind of object an entry points to.
pub const KIND_MASK: u16 = 0xf000;

/// The mode bits of a tree.
pub const TREE_BITS: u16 = 0x4000;

/// The mode bits of a blob that is not executable.
pub const BLOB_BITS: u16 = 0x81a4;

/// The mode bits of an executable blob.
pub const BLOB_EXECUTABLE_BITS: u16 = 0x81ed;

/// The mode bits of a symbolic link.
pub const LINK_BITS: u16 = 0xa000;

/// The mode bits of a commit, as a submodule has it.
pub const COMMIT_BITS: u16 = 0xe000;

/// What an entry points to.
#[derive(Clone, Copy, Debug, PartialEq, Eq, Structural)]
pub enum EntryKind {
    /// A tree, which holds further entries.
    Tree,
    /// A blob that is not executable.
    Blob,
    /// An executable blob.
    BlobExecutable,
    /// A symbolic link.
    Link,
    /// A commit of another repository.
    Commit,
}

/// The mode of an entry, of which the editor reads only whether it marks a
/// tree.
#[derive(Clone, Copy, Debug, PartialEq, Eq, Structural)]
pub struct EntryMode(pub u16);

/// The mode bits that stand for `kind`.
pub open spec fn kind_bits(kind: EntryKind) -> u16 {
    match kind {
        EntryKind::Tree => TREE_BITS,
        EntryKind::Blob => BLOB_BITS,
        EntryKind::BlobExecutable => BLOB_EXECUTABLE_BITS,
        EntryKind::Link => LINK_BITS,
        EntryKind::Commit => COMMIT_BITS,
    }
}

impl EntryMode {
    /// Whether the mode marks a tree.
    pub open spec fn spec_is_tree(&self) -> bool {
        self.0 & KIND_MASK == TREE_BITS
    }

    /// Whether the mode marks a tree.
    #[verifier::when_used_as_spec(spec_is_tree)]
    pub fn is_tree(&self) -> (b: bool)
        ensures
            b == self.spec_is_tree(),
    {
        self.0 & KIND_MASK == TREE_BITS
    }
}

impl FromSpecImpl<EntryKind> for EntryMode {
    open spec fn obeys_from_spec() -> bool {
        true
    }

    open spec fn from_spec(kind: EntryKind) -> EntryMode {
        EntryMode(kind_bits(kind))
    }
}

impl From<EntryKind> for EntryMode {
    fn from(kind: EntryKind) -> (mode: EntryMode) {
        match kind {
            EntryKind::Tree => EntryMode(TREE_BITS),
            EntryKind::Blob => EntryMode(BLOB_BITS),
            EntryKind::BlobExecutable => EntryMode(BLOB_EXECUTABLE_BITS),
            EntryKind::Link => EntryMode(LINK_BITS),
            EntryKind::Commit => EntryMode(COMMIT_BITS),
        }
    }
}

/// The mode of a kind marks a tree exactly when the kind is `Tree`.
pub proof fn lemma_only_tree_kind_is_tree(kind: EntryKind)
    ensures
        EntryMode(kind_bits(kind)).spec_is_tree() <==> kind == EntryKind::Tree,
{
    assert(0x4000u16 & 0xf000u16 == 0x4000u16) by (bit_vector);
    assert(0x81a4u16 & 0xf000u16 != 0x4000u16) by (bit_vector);
    assert(0x81edu16 & 0xf000u16 != 0x4000u16) by (bit_vector);
    assert(0xa000u16 & 0xf000u16 != 0x4000u16) by (bit_vector);
    assert(0xe000u16 & 0xf000u16 != 0x4000u16) by (bit_vector);
}

/// An entry as a mathematical value.
pub struct EntryView {
    /// The mode of the entry.
    pub mode: EntryMode,
    /// The name of the entry.
    pub name: Seq<u8>,
    /// The bytes of the identifier of the child.
    pub id: Seq<u8>,
}

impl EntryView {
    /// Whether the entry points to a tree.
    pub open spec fn is_tree(&self) -> bool {
        self.mode.spec_is_tree()
    }

    /// Whether the entry is a placeholder, whose child is not known.
    pub open spec fn is_placeholder(&self) -> bool {
        self.id == null_bytes()
    }
}

/// One row of a tree.
#[derive(Debug, PartialEq, Eq)]
pub struct Entry {
    /// The mode, which tells the kind of the child.
    pub mode: EntryMode,
    /// The name, a byte string without `/`.
    pub filename: Vec<u8>,
    /// The identifier of the child; null for a placeholder.
    pub oid: ObjectId,
}

impl View for Entry {
    type V = EntryView;

    open spec fn view(&self) -> EntryView {
        EntryView { mode: self.mode, name: self.filename@, id: self.oid@ }
    }
}

impl Clone for Entry {
    fn clone(&self) -> (copy: Entry)
        ensures
            copy@ == self@,
    {
        Entry {
            mode: self.mode,
            filename: vstd::slice::slice_to_vec(self.filename.as_slice()),
            oid: self.oid,
        }
    }
}

/// The views of a sequence of entries.
pub open spec fn views(entries: Seq<Entry>) -> Seq<EntryView> {
    entries.map_values(|e: Entry| e@)
}

} // verus!
