//! Identifiers of objects: fixed-width hash values with two sentinels.
use vstd::prelude::*;

verus! {

/// The content address of an object: the twenty bytes of a SHA-1 digest.
#[derive(Clone, Copy, Debug, PartialEq, Eq, PartialOrd, Ord, Hash)]
pub struct ObjectId {
    pub bytes: [u8; 20],
}

impl View for ObjectId {
    type V = Seq<u8>;

    open spec fn view(&self) -> Seq<u8> {
        self.bytes@
    }
}

/// The bytes of the null identifier, which marks a slot whose value is not
/// known yet.
pub open spec fn null_bytes() -> Seq<u8> {
    Seq::new(20, |i: int| 0u8)
}

/// The bytes of the identifier of the tree without entries.
pub open spec fn empty_tree_bytes() -> Seq<u8> {
    seq![
        0x4bu8, 0x82u8, 0x5du8, 0xc6u8, 0x42u8, 0xcbu8, 0x6eu8, 0xb9u8, 0xa0u8, 0x60u8,
        0xe5u8, 0x4bu8, 0xf8u8, 0xd6u8, 0x92u8, 0x88u8, 0xfbu8, 0xeeu8, 0x49u8, 0x04u8,
    ]
}

/// Whether `id` names an object that can be looked up: it is neither the
/// null placeholder nor the well-known empty tree.
pub open spec fn is_fetchable(id: Seq<u8>) -> bool {
    id != null_bytes() && id != empty_tree_bytes()
}

/// Calls `gix_hash::ObjectId::kind` on the identifier made of `bytes` and
/// `gix_hash::Kind::null` on that kind, which returns the identifier of the
/// kind whose bytes are all zero.
#[verifier::external_body]
fn null_of_same_kind(bytes: &[u8; 20]) -> (id: ObjectId)
    ensures
        id@ == null_bytes(),
{
    match gix_hash::ObjectId::from(*bytes).kind().null() {
        gix_hash::ObjectId::Sha1(bytes) => ObjectId { bytes },
    }
}

/// Calls `gix_hash::ObjectId::is_null`, which tells whether all bytes of the
/// identifier are zero.
#[verifier::external_body]
fn all_bytes_zero(bytes: &[u8; 20]) -> (b: bool)
    ensures
        b == (bytes@ == null_bytes()),
{
    gix_hash::ObjectId::from(*bytes).is_null()
}

/// Calls `gix_hash::ObjectId::is_empty_tree`, which compares the identifier
/// with the constant identifier of the empty tree of its kind.
#[verifier::external_body]
fn names_empty_tree(bytes: &[u8; 20]) -> (b: bool)
    ensures
        b == (bytes@ == empty_tree_bytes()),
{
    gix_hash::ObjectId::from(*bytes).is_empty_tree()
}

impl ObjectId {
    /// The identifier made of `bytes`.
    pub fn from_bytes(bytes: [u8; 20]) -> (id: ObjectId)
        ensures
            id@ == bytes@,
    {
        ObjectId { bytes }
    }

    /// The null identifier of the same kind as `self`.
    pub fn null(&self) -> (id: ObjectId)
        ensures
            id@ == null_bytes(),
    {
        null_of_same_kind(&self.bytes)
    }

    /// Whether this is the null identifier.
    pub fn is_null(&self) -> (b: bool)
        ensures
            b == (self@ == null_bytes()),
    {
        all_bytes_zero(&self.bytes)
    }

    /// Whether this is the identifier of the empty tree.
    pub fn is_empty_tree(&self) -> (b: bool)
        ensures
            b == (self@ == empty_tree_bytes()),
    {
        names_empty_tree(&self.bytes)
    }
}

/// Identifiers are determined by their bytes.
pub proof fn lemma_id_determined_by_bytes(a: ObjectId, b: ObjectId)
    requires
        a@ == b@,
    ensures
        a == b,
{
    vstd::array::axiom_array_ext_equal(a.bytes, b.bytes);
}

} // verus!
