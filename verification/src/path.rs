//! Paths of trees below the root, and the fixed-width keys derived from them.
//!
//! A path is the byte string of its components joined by `/`, without a
//! trailing `/`; the root has the empty path. A tree is filed under the
//! SHA-1 digest of its path.
use crate::object_id::ObjectId;
use vstd::prelude::*;

verus! {

/// The byte that separates the components of a path.
pub const SEPARATOR: u8 = 0x2f;

/// The SHA-1 digest of `bytes`, as computed by the hasher of
/// `gix_features::hash`.
pub uninterp spec fn sha1(bytes: Seq<u8>) -> Seq<u8>;

/// The key under which the tree at `path` is filed.
pub open spec fn path_key(path: Seq<u8>) -> Seq<u8> {
    sha1(path)
}

/// The key of the root tree.
pub open spec fn root_key() -> Seq<u8> {
    sha1(Seq::<u8>::empty())
}

/// `base` extended by `component`, with a separator in between unless `base`
/// is empty.
pub open spec fn joined(base: Seq<u8>, component: Seq<u8>) -> Seq<u8> {
    if base.len() == 0 {
        component
    } else {
        base.push(SEPARATOR) + component
    }
}

/// Whether `name` is free of separators.
pub open spec fn no_separator(name: Seq<u8>) -> bool {
    forall|i: int| 0 <= i < name.len() ==> name[i] != SEPARATOR
}

/// Whether `name` can be the name of an entry: it is not empty and free of
/// separators.
pub open spec fn valid_name(name: Seq<u8>) -> bool {
    name.len() > 0 && no_separator(name)
}

/// Whether `path` does not end in a separator.
pub open spec fn ends_well(path: Seq<u8>) -> bool {
    path.len() == 0 || path.last() != SEPARATOR
}

/// What follows the last separator of `path`: all of it where there is none.
pub open spec fn last_component(path: Seq<u8>) -> Seq<u8>
    decreases path.len(),
{
    if path.len() == 0 {
        path
    } else if path.last() == SEPARATOR {
        Seq::<u8>::empty()
    } else {
        last_component(path.drop_last()).push(path.last())
    }
}

/// Calls `gix_features::hash::hasher` for a fresh SHA-1 hasher, feeds it
/// `path` with `Sha1::update` and returns what `Sha1::digest` gives: the
/// SHA-1 digest of `path`.
#[verifier::external_body]
pub(crate) fn path_hash(path: &[u8]) -> (id: ObjectId)
    ensures
        id@ == sha1(path@),
{
    let mut hasher = gix_features::hash::hasher(gix_hash::Kind::Sha1);
    hasher.update(path);
    ObjectId { bytes: hasher.digest() }
}

/// Calls `bstr::ByteVec::push_byte`, which appends one byte.
#[verifier::external_body]
fn push_byte(buf: &mut Vec<u8>, byte: u8)
    ensures
        final(buf)@ == old(buf)@.push(byte),
{
    bstr::ByteVec::push_byte(buf, byte)
}

/// Calls `bstr::ByteVec::push_str`, which appends all bytes of a slice.
#[verifier::external_body]
fn push_bytes(buf: &mut Vec<u8>, bytes: &[u8])
    ensures
        final(buf)@ == old(buf)@ + bytes@,
{
    bstr::ByteVec::push_str(buf, bytes)
}

/// Calls `bstr::ByteSlice::rfind_byte`, which returns the index of the last
/// occurrence of `byte`, or `None` if it does not occur.
#[verifier::external_body]
fn rfind_byte(haystack: &[u8], byte: u8) -> (found: Option<usize>)
    ensures
        match found {
            Some(i) => i < haystack@.len() && haystack@[i as int] == byte && forall|j: int|
                i < j < haystack@.len() ==> haystack@[j] != byte,
            None => forall|j: int| 0 <= j < haystack@.len() ==> haystack@[j] != byte,
        },
{
    bstr::ByteSlice::rfind_byte(haystack, byte)
}

/// The key of the root tree: the digest of no bytes.
pub fn empty_path_hash() -> (id: ObjectId)
    ensures
        id@ == root_key(),
{
    let none: Vec<u8> = Vec::new();
    path_hash(none.as_slice())
}

/// Appends `component` to the path in `base`, after a separator if `base` is
/// not empty, and returns the length `base` had before. The path in `base`
/// does not end in a separator.
pub fn push_path_component(base: &mut Vec<u8>, component: &[u8]) -> (prev_len: usize)
    requires
        ends_well(old(base)@),
    ensures
        prev_len == old(base)@.len(),
        final(base)@ == joined(old(base)@, component@),
{
    let prev_len = base.len();
    if prev_len != 0 {
        push_byte(base, SEPARATOR);
    }
    push_bytes(base, component);
    prev_len
}

/// A suffix without separator that follows a separator, or is the whole
/// path, is the path's last component.
pub proof fn lemma_last_component_of_suffix(path: Seq<u8>, start: int)
    requires
        0 <= start <= path.len(),
        start > 0 ==> path[start - 1] == SEPARATOR,
        forall|j: int| start <= j < path.len() ==> path[j] != SEPARATOR,
    ensures
        last_component(path) == path.subrange(start, path.len() as int),
    decreases path.len(),
{
    if start < path.len() {
        lemma_last_component_of_suffix(path.drop_last(), start);
    }
}

/// Joining a path and a name without separator gives a path whose last
/// component is that name.
pub proof fn lemma_last_component_of_joined(base: Seq<u8>, name: Seq<u8>)
    requires
        no_separator(name),
    ensures
        last_component(joined(base, name)) == name,
{
    let path = joined(base, name);
    let start = path.len() - name.len();
    lemma_last_component_of_suffix(path, start);
}

/// A path that is extended by a valid name does not end in a separator.
pub proof fn lemma_joined_ends_well(base: Seq<u8>, name: Seq<u8>)
    requires
        valid_name(name),
    ensures
        ends_well(joined(base, name)),
{
}

/// Whether `path` leads to something inside the tree at `of`: it goes on
/// behind `of`, after a separator unless `of` is the root.
pub open spec fn inside(path: Seq<u8>, of: Seq<u8>) -> bool {
    &&& path.len() > of.len()
    &&& path.subrange(0, of.len() as int) == of
    &&& of.len() == 0 || path[of.len() as int] == SEPARATOR
}

/// What lies at `base` extended by a name, and inside the tree at `of`,
/// lies in the tree at `base`, which is the tree at `of` or lies inside
/// it.
pub proof fn lemma_inside_joined(base: Seq<u8>, name: Seq<u8>, of: Seq<u8>)
    requires
        no_separator(name),
        inside(joined(base, name), of),
    ensures
        of == base || inside(base, of),
{
    if of.len() < base.len() {
        let path = joined(base, name);
        assert(base.subrange(0, of.len() as int) =~= path.subrange(0, of.len() as int));
    }
}

/// The last component of `path`.
pub fn filename(path: &[u8]) -> (name: &[u8])
    ensures
        name@ == last_component(path@),
{
    let len = path.len();
    match rfind_byte(path, SEPARATOR) {
        Some(pos) => {
            proof {
                lemma_last_component_of_suffix(path@, pos + 1);
            }
            vstd::slice::slice_subrange(path, pos + 1, len)
        },
        None => {
            proof {
                lemma_last_component_of_suffix(path@, 0);
            }
            path
        },
    }
}

} // verus!
