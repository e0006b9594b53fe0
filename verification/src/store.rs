//! The pending trees of an editing session, filed under the keys of their
//! paths.
use crate::entry::EntryView;
use crate::object_id::ObjectId;
use crate::tree::{canonical, Tree};
use vstd::prelude::*;

verus! {

/// The trees that a session holds in memory, as a map from the key of a
/// path to the entries of the tree at that path.
pub type Forest = Map<Seq<u8>, Seq<EntryView>>;

/// A map from keys to trees, kept in a `gix_hashtable::HashMap` whose keys
/// are `gix_hash::ObjectId`s. That map is a `hashbrown::HashMap` with a
/// hasher that takes the first eight bytes of a key for its hash.
#[verifier::external_body]
pub struct TreeStore {
    map: gix_hashtable::HashMap<gix_hash::ObjectId, Tree>,
}

/// The trees that `store` holds, each under the bytes of its key.
pub uninterp spec fn held(store: TreeStore) -> Map<Seq<u8>, Tree>;

/// The map that holds no tree.
pub open spec fn nothing_held() -> Map<Seq<u8>, Tree> {
    Map::empty()
}

impl View for TreeStore {
    type V = Forest;

    open spec fn view(&self) -> Forest {
        held(*self).map_values(|tree: Tree| tree@)
    }
}

/// Whether every tree of `forest` is canonical and their number is finite.
pub open spec fn well_formed(forest: Forest) -> bool {
    &&& forest.dom().finite()
    &&& forall|key: Seq<u8>| forest.dom().contains(key) ==> canonical(#[trigger] forest[key])
}

impl TreeStore {
    /// Calls `Default::default` of `gix_hashtable::HashMap`, which makes a
    /// map without entries.
    #[verifier::external_body]
    fn empty_map() -> (store: TreeStore)
        ensures
            held(store) == nothing_held(),
    {
        TreeStore { map: gix_hashtable::HashMap::default() }
    }

    /// Calls `hashbrown::HashMap::insert`, which files `tree` under `key`
    /// in place of what was filed there.
    #[verifier::external_body]
    fn insert_tree(&mut self, key: &ObjectId, tree: Tree)
        ensures
            held(*final(self)) == held(*old(self)).insert(key@, tree),
    {
        self.map.insert(gix_hash::ObjectId::from(key.bytes), tree);
    }

    /// Calls `hashbrown::HashMap::remove`, which takes out and returns what
    /// is filed under `key`, or returns `None` if nothing is.
    #[verifier::external_body]
    fn remove_tree(&mut self, key: &ObjectId) -> (tree: Option<Tree>)
        ensures
            match tree {
                Some(t) => held(*old(self)).contains_key(key@) && t == held(*old(self))[key@]
                    && held(*final(self)) == held(*old(self)).remove(key@),
                None => !held(*old(self)).contains_key(key@) && held(*final(self)) == held(
                    *old(self),
                ),
            },
    {
        self.map.remove(&gix_hash::ObjectId::from(key.bytes))
    }

    /// Calls `hashbrown::HashMap::contains_key`, which tells whether
    /// something is filed under `key`.
    #[verifier::external_body]
    fn holds_key(&self, key: &ObjectId) -> (b: bool)
        ensures
            b == held(*self).contains_key(key@),
    {
        self.map.contains_key(&gix_hash::ObjectId::from(key.bytes))
    }

    /// Calls `hashbrown::HashMap::clear`, which removes all that is filed.
    #[verifier::external_body]
    fn remove_all(&mut self)
        ensures
            held(*final(self)) == nothing_held(),
    {
        self.map.clear();
    }

    /// The store that holds nothing.
    pub fn new() -> (store: TreeStore)
        ensures
            store@ == Forest::empty(),
    {
        let store = TreeStore::empty_map();
        store
    }

    /// Files `tree` under `key`, in place of what was filed there.
    pub fn insert(&mut self, key: &ObjectId, tree: Tree)
        ensures
            final(self)@ == old(self)@.insert(key@, tree@),
            well_formed(old(self)@) ==> well_formed(final(self)@),
    {
        proof {
            use_type_invariant(&tree);
        }
        self.insert_tree(key, tree);
        assert(self@ =~= old(self)@.insert(key@, tree@));
    }

    /// Takes out what is filed under `key`.
    pub fn remove(&mut self, key: &ObjectId) -> (tree: Option<Tree>)
        ensures
            match tree {
                Some(t) => old(self)@.contains_key(key@) && t@ == old(self)@[key@],
                None => !old(self)@.contains_key(key@),
            },
            final(self)@ == old(self)@.remove(key@),
            well_formed(old(self)@) ==> well_formed(final(self)@),
    {
        let tree = self.remove_tree(key);
        tree
    }

    /// Whether something is filed under `key`.
    pub fn contains_key(&self, key: &ObjectId) -> (b: bool)
        ensures
            b == self@.contains_key(key@),
    {
        self.holds_key(key)
    }

    /// Takes out all that is filed.
    pub fn clear(&mut self)
        ensures
            final(self)@ == Forest::empty(),
    {
        self.remove_all();
    }
}

} // verus!
