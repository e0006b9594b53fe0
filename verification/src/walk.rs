//! What an edit does to the pending trees, level by level.
//!
//! An edit starts at the root tree and takes the components of its path in
//! turn. Each component changes the tree that the edit has reached and may
//! lead on into a subtree, which is filed under the key of its path: the
//! tree that is filed there already, else the tree that the finder loads
//! for the identifier of the entry, else the empty tree.
use crate::entry::{EntryMode, EntryView};
use crate::level::{
    lemma_level_canonical, lemma_level_settles, level_descent, level_entries, settled_level,
    Change, Descent,
};
use crate::object_id::is_fetchable;
use crate::path::{joined, path_key, root_key, valid_name};
use crate::store::{well_formed, Forest};
use crate::tree::{canonical, has_name};
use vstd::prelude::*;

verus! {

/// Where an edit stands.
pub enum Cursor {
    /// At the tree filed under `key`, which is the tree at `path`.
    At { key: Seq<u8>, path: Seq<u8> },
    /// The edit is complete.
    Done,
    /// The edit was given up because a tree could not be loaded.
    Failed,
}

/// The state of an edit: the pending trees and where the edit stands.
pub struct Walk {
    /// The pending trees.
    pub forest: Forest,
    /// Where the edit stands.
    pub cursor: Cursor,
}

/// The state in which every edit of `forest` starts: at the root tree.
pub open spec fn start(forest: Forest) -> Walk {
    Walk { forest, cursor: Cursor::At { key: root_key(), path: Seq::<u8>::empty() } }
}

/// Whether an edit that goes on into the subtree filed under `key` has to
/// load that subtree: nothing is filed under `key` yet, and the entry lists
/// the subtree under an identifier that names an object to look up.
pub open spec fn needs_fetch(forest: Forest, key: Seq<u8>, lookup: Option<Seq<u8>>) -> bool {
    &&& !forest.contains_key(key)
    &&& lookup matches Some(id)
    &&& is_fetchable(id)
}

/// The state after the edit has taken the component `name`, which is the
/// last of its path if `is_last` is set. `fetched` is what the finder
/// returned if it was asked for the subtree: its entries, or `None` if it
/// failed.
pub open spec fn step(
    w: Walk,
    name: Seq<u8>,
    is_last: bool,
    change: Change,
    fetched: Option<Seq<EntryView>>,
) -> Walk {
    match w.cursor {
        Cursor::At { key, path } => {
            let entries = w.forest[key];
            let forest = w.forest.insert(key, level_entries(entries, name, is_last, change));
            match level_descent(entries, name, is_last, change) {
                Descent::Stop => Walk { forest, cursor: Cursor::Done },
                Descent::Into { lookup } => {
                    let below = joined(path, name);
                    let cursor = Cursor::At { key: path_key(below), path: below };
                    if forest.contains_key(path_key(below)) {
                        Walk { forest, cursor }
                    } else if needs_fetch(forest, path_key(below), lookup) {
                        match fetched {
                            Some(loaded) => Walk {
                                forest: forest.insert(path_key(below), loaded),
                                cursor,
                            },
                            None => Walk { forest, cursor: Cursor::Failed },
                        }
                    } else {
                        Walk {
                            forest: forest.insert(path_key(below), Seq::<EntryView>::empty()),
                            cursor,
                        }
                    }
                },
            }
        },
        _ => w,
    }
}

/// The state after the edit of `forest` along `path` has taken the first
/// `n` components. `fetched[i]` is what the finder returned at component
/// `i`, if it was asked there.
pub open spec fn walk(
    forest: Forest,
    path: Seq<Seq<u8>>,
    change: Change,
    fetched: Seq<Option<Seq<EntryView>>>,
    n: nat,
) -> Walk
    decreases n,
{
    if n == 0 {
        start(forest)
    } else {
        step(
            walk(forest, path, change, fetched, (n - 1) as nat),
            path[n - 1],
            n == path.len(),
            change,
            fetched[n - 1],
        )
    }
}

/// Whether an edit along `path` turns the pending trees `before` into
/// `after`, and ends well if `ok` is set, for some answers of the finder.
pub open spec fn edited(
    before: Forest,
    path: Seq<Seq<u8>>,
    change: Change,
    after: Forest,
    ok: bool,
) -> bool {
    exists|fetched: Seq<Option<Seq<EntryView>>>|
        #![trigger walk(before, path, change, fetched, path.len())]
        {
            &&& fetched.len() == path.len()
            &&& walk(before, path, change, fetched, path.len()).forest == after
            &&& (walk(before, path, change, fetched, path.len()).cursor is Failed) == !ok
        }
}

/// The first `n` components of an edit depend on what the finder returned
/// at these components only.
pub proof fn lemma_walk_reads_prefix(
    forest: Forest,
    path: Seq<Seq<u8>>,
    change: Change,
    f1: Seq<Option<Seq<EntryView>>>,
    f2: Seq<Option<Seq<EntryView>>>,
    n: nat,
)
    requires
        forall|i: int| 0 <= i < n ==> f1[i] == f2[i],
    ensures
        walk(forest, path, change, f1, n) == walk(forest, path, change, f2, n),
    decreases n,
{
    if n > 0 {
        lemma_walk_reads_prefix(forest, path, change, f1, f2, (n - 1) as nat);
    }
}

/// An edit that is complete or was given up stays as it is.
pub proof fn lemma_walk_rests(
    forest: Forest,
    path: Seq<Seq<u8>>,
    change: Change,
    fetched: Seq<Option<Seq<EntryView>>>,
    k: nat,
    n: nat,
)
    requires
        k <= n,
        !(walk(forest, path, change, fetched, k).cursor is At),
    ensures
        walk(forest, path, change, fetched, n) == walk(forest, path, change, fetched, k),
    decreases n,
{
    if n > k {
        lemma_walk_rests(forest, path, change, fetched, k, (n - 1) as nat);
    }
}

/// An edit that stops at component `i`, where the finder returned nothing,
/// is the whole edit.
pub proof fn lemma_edit_ends(
    forest: Forest,
    path: Seq<Seq<u8>>,
    change: Change,
    fetched: Seq<Option<Seq<EntryView>>>,
    i: nat,
)
    requires
        i < path.len(),
        fetched.len() == i,
        !(step(
            walk(forest, path, change, fetched, i),
            path[i as int],
            i + 1 == path.len(),
            change,
            None,
        ).cursor is At),
    ensures
        ({
            let end = step(
                walk(forest, path, change, fetched, i),
                path[i as int],
                i + 1 == path.len(),
                change,
                None,
            );
            edited(forest, path, change, end.forest, !(end.cursor is Failed))
        }),
{
    let full = fetched + Seq::new((path.len() - i) as nat, |k: int| None);
    lemma_walk_reads_prefix(forest, path, change, fetched, full, i);
    lemma_walk_rests(forest, path, change, full, i + 1, path.len());
}

/// An edit that has taken `i` components goes on with the next one.
pub proof fn lemma_edit_goes_on(
    forest: Forest,
    path: Seq<Seq<u8>>,
    change: Change,
    fetched: Seq<Option<Seq<EntryView>>>,
    i: nat,
    answer: Option<Seq<EntryView>>,
)
    requires
        fetched.len() == i,
    ensures
        walk(forest, path, change, fetched.push(answer), i + 1) == step(
            walk(forest, path, change, fetched, i),
            path[i as int],
            i + 1 == path.len(),
            change,
            answer,
        ),
{
    lemma_walk_reads_prefix(forest, path, change, fetched, fetched.push(answer), i);
}

/// A subtree is loaded only where nothing is filed under the key of its
/// path: where something is, the step is the same whatever the finder
/// would return.
pub proof fn lemma_filed_tree_is_not_loaded(
    w: Walk,
    name: Seq<u8>,
    is_last: bool,
    change: Change,
    f1: Option<Seq<EntryView>>,
    f2: Option<Seq<EntryView>>,
)
    requires
        w.cursor matches Cursor::At { key, path } && (w.forest.contains_key(
            path_key(joined(path, name)),
        ) || key == path_key(joined(path, name))),
    ensures
        step(w, name, is_last, change, f1) == step(w, name, is_last, change, f2),
        !(step(w, name, is_last, change, f1).cursor is Failed),
{
}

/// An edit that comes through without any tree being loaded does not
/// depend on the finder: it ends well and gives the same trees whatever
/// the finder would return.
pub proof fn lemma_walk_without_loading(
    forest: Forest,
    path: Seq<Seq<u8>>,
    change: Change,
    nothing: Seq<Option<Seq<EntryView>>>,
    fetched: Seq<Option<Seq<EntryView>>>,
    n: nat,
)
    requires
        forall|i: int| 0 <= i < n ==> #[trigger] nothing[i] is None,
        !(walk(forest, path, change, nothing, n).cursor is Failed),
    ensures
        walk(forest, path, change, fetched, n) == walk(forest, path, change, nothing, n),
    decreases n,
{
    if n > 0 {
        lemma_walk_without_loading(forest, path, change, nothing, fetched, (n - 1) as nat);
    }
}

/// An edit unfiles nothing: every tree that was loaded stays in memory.
pub proof fn lemma_walk_keeps_keys(
    forest: Forest,
    path: Seq<Seq<u8>>,
    change: Change,
    fetched: Seq<Option<Seq<EntryView>>>,
    n: nat,
)
    requires
        forest.contains_key(root_key()),
    ensures
        forest.dom().subset_of(walk(forest, path, change, fetched, n).forest.dom()),
        walk(forest, path, change, fetched, n).cursor matches Cursor::At { key, .. } ==> walk(
            forest,
            path,
            change,
            fetched,
            n,
        ).forest.contains_key(key),
    decreases n,
{
    if n > 0 {
        lemma_walk_keeps_keys(forest, path, change, fetched, (n - 1) as nat);
    }
}

/// A step keeps the pending trees canonical, if the loaded tree is.
pub proof fn lemma_step_well_formed(
    w: Walk,
    name: Seq<u8>,
    is_last: bool,
    change: Change,
    fetched: Option<Seq<EntryView>>,
)
    requires
        well_formed(w.forest),
        w.cursor matches Cursor::At { key, .. } ==> w.forest.contains_key(key),
        change is Put ==> valid_name(name),
        fetched matches Some(loaded) ==> canonical(loaded),
    ensures
        well_formed(step(w, name, is_last, change, fetched).forest),
{
    if let Cursor::At { key, path } = w.cursor {
        lemma_level_canonical(w.forest[key], name, is_last, change);
    }
}

/// An edit keeps the pending trees canonical, if the loaded trees are.
pub proof fn lemma_walk_well_formed(
    forest: Forest,
    path: Seq<Seq<u8>>,
    change: Change,
    fetched: Seq<Option<Seq<EntryView>>>,
    n: nat,
)
    requires
        well_formed(forest),
        forest.contains_key(root_key()),
        n <= path.len(),
        change is Put ==> forall|i: int| 0 <= i < path.len() ==> valid_name(#[trigger] path[i]),
        forall|i: int|
            0 <= i < n ==> ((#[trigger] fetched[i]) matches Some(loaded) ==> canonical(loaded)),
    ensures
        well_formed(walk(forest, path, change, fetched, n).forest),
    decreases n,
{
    if n > 0 {
        lemma_walk_well_formed(forest, path, change, fetched, (n - 1) as nat);
        lemma_step_well_formed(
            walk(forest, path, change, fetched, (n - 1) as nat),
            path[n - 1],
            n == path.len(),
            change,
            fetched[n - 1],
        );
    }
}

/// Whether the removal along `path` finds the entry it is to remove: the
/// walk reaches the tree of the last component, and that tree has an entry
/// of that name.
pub open spec fn resolves(
    forest: Forest,
    path: Seq<Seq<u8>>,
    fetched: Seq<Option<Seq<EntryView>>>,
) -> bool {
    &&& path.len() > 0
    &&& walk(forest, path, Change::Remove, fetched, (path.len() - 1) as nat).cursor matches Cursor::At {
        key,
        ..
    }
    &&& has_name(
        walk(forest, path, Change::Remove, fetched, (path.len() - 1) as nat).forest[key],
        path.last(),
    )
}

/// All components of a removal but the last leave every pending tree as it
/// was.
pub proof fn lemma_removal_on_the_way(
    forest: Forest,
    path: Seq<Seq<u8>>,
    fetched: Seq<Option<Seq<EntryView>>>,
    n: nat,
)
    requires
        forest.contains_key(root_key()),
        n < path.len(),
    ensures
        forall|key: Seq<u8>|
            forest.contains_key(key) ==> #[trigger] walk(
                forest,
                path,
                Change::Remove,
                fetched,
                n,
            ).forest[key] == forest[key],
    decreases n,
{
    if n > 0 {
        lemma_removal_on_the_way(forest, path, fetched, (n - 1) as nat);
        lemma_walk_keeps_keys(forest, path, Change::Remove, fetched, (n - 1) as nat);
    }
}

/// A removal whose path does not lead to an entry changes no pending tree:
/// all it may do is load trees on its way.
pub proof fn lemma_removing_what_is_absent(
    forest: Forest,
    path: Seq<Seq<u8>>,
    fetched: Seq<Option<Seq<EntryView>>>,
)
    requires
        forest.contains_key(root_key()),
        !resolves(forest, path, fetched),
    ensures
        forall|key: Seq<u8>|
            forest.contains_key(key) ==> #[trigger] walk(
                forest,
                path,
                Change::Remove,
                fetched,
                path.len(),
            ).forest[key] == forest[key],
{
    if path.len() > 0 {
        let n = (path.len() - 1) as nat;
        lemma_removal_on_the_way(forest, path, fetched, n);
    }
}

/// The path of the first `n` components of `path`.
pub open spec fn prefix(path: Seq<Seq<u8>>, n: nat) -> Seq<u8>
    decreases n,
{
    if n == 0 {
        Seq::<u8>::empty()
    } else {
        joined(prefix(path, (n - 1) as nat), path[n - 1])
    }
}

/// Whether the trees on `path`, the root among them, are filed under keys
/// that differ from each other.
pub open spec fn keys_differ(path: Seq<Seq<u8>>) -> bool {
    forall|i: nat, j: nat|
        i < j <= path.len() ==> path_key(#[trigger] prefix(path, i)) != path_key(
            #[trigger] prefix(path, j),
        )
}

/// The state of an upsert that has not failed after `n` components: it
/// stands at the tree of these components, the trees of all components
/// taken are filed, and each holds what its component made of it.
proof fn lemma_upsert_trail(
    forest: Forest,
    path: Seq<Seq<u8>>,
    mode: EntryMode,
    id: Seq<u8>,
    fetched: Seq<Option<Seq<EntryView>>>,
    n: nat,
)
    requires
        well_formed(forest),
        forest.contains_key(root_key()),
        n <= path.len(),
        keys_differ(path),
        forall|i: int| 0 <= i < path.len() ==> valid_name(#[trigger] path[i]),
        forall|i: int|
            0 <= i < path.len() ==> ((#[trigger] fetched[i]) matches Some(loaded) ==> canonical(
                loaded,
            )),
        !(walk(forest, path, Change::Put { mode, id }, fetched, n).cursor is Failed),
    ensures
        ({
            let change = Change::Put { mode, id };
            let w = walk(forest, path, change, fetched, n);
            &&& well_formed(w.forest)
            &&& n < path.len() ==> w.cursor == (Cursor::At {
                key: path_key(prefix(path, n)),
                path: prefix(path, n),
            })
            &&& n == path.len() && n > 0 ==> w.cursor is Done
            &&& forall|i: nat|
                i <= n && i < path.len() ==> w.forest.contains_key(
                    path_key(#[trigger] prefix(path, i)),
                )
            &&& forall|i: nat|
                i < n ==> settled_level(
                    w.forest[path_key(#[trigger] prefix(path, i))],
                    path[i as int],
                    i + 1 == path.len(),
                    change,
                )
        }),
    decreases n,
{
    let change = Change::Put { mode, id };
    if n > 0 {
        let m = (n - 1) as nat;
        let before = walk(forest, path, change, fetched, m);
        lemma_upsert_trail(forest, path, mode, id, fetched, m);
        lemma_walk_well_formed(forest, path, change, fetched, n);
        let key = path_key(prefix(path, m));
        let is_last = n == path.len();
        let entries = before.forest[key];
        lemma_level_settles(entries, path[n - 1], is_last, change);
    }
}

/// An upsert that is repeated right away changes nothing: it finds each
/// tree on its path filed and each entry as it would make it. This is
/// stated for paths whose trees are filed under keys that differ.
pub proof fn lemma_upsert_twice(
    forest: Forest,
    path: Seq<Seq<u8>>,
    mode: EntryMode,
    id: Seq<u8>,
    first: Seq<Option<Seq<EntryView>>>,
    second: Seq<Option<Seq<EntryView>>>,
)
    requires
        well_formed(forest),
        forest.contains_key(root_key()),
        keys_differ(path),
        forall|i: int| 0 <= i < path.len() ==> valid_name(#[trigger] path[i]),
        forall|i: int|
            0 <= i < path.len() ==> ((#[trigger] first[i]) matches Some(loaded) ==> canonical(
                loaded,
            )),
        !(walk(forest, path, Change::Put { mode, id }, first, path.len()).cursor is Failed),
    ensures
        ({
            let change = Change::Put { mode, id };
            let once = walk(forest, path, change, first, path.len());
            let twice = walk(once.forest, path, change, second, path.len());
            &&& twice.forest == once.forest
            &&& !(twice.cursor is Failed)
        }),
{
    let change = Change::Put { mode, id };
    let once = walk(forest, path, change, first, path.len());
    lemma_upsert_trail(forest, path, mode, id, first, path.len());
    lemma_upsert_again(once.forest, path, change, second, path.len());
}

/// An upsert into trees that hold what it would make of them leaves them
/// as they are.
proof fn lemma_upsert_again(
    forest: Forest,
    path: Seq<Seq<u8>>,
    change: Change,
    fetched: Seq<Option<Seq<EntryView>>>,
    n: nat,
)
    requires
        n <= path.len(),
        change is Put,
        forall|i: nat|
            i < path.len() ==> forest.contains_key(path_key(#[trigger] prefix(path, i))),
        forall|i: nat|
            i < path.len() ==> settled_level(
                forest[path_key(#[trigger] prefix(path, i))],
                path[i as int],
                i + 1 == path.len(),
                change,
            ),
    ensures
        walk(forest, path, change, fetched, n).forest == forest,
        n < path.len() ==> walk(forest, path, change, fetched, n).cursor == (Cursor::At {
            key: path_key(prefix(path, n)),
            path: prefix(path, n),
        }),
        n == path.len() && n > 0 ==> walk(forest, path, change, fetched, n).cursor is Done,
        n == 0 ==> walk(forest, path, change, fetched, n).cursor is At,
    decreases n,
{
    if n > 0 {
        let m = (n - 1) as nat;
        lemma_upsert_again(forest, path, change, fetched, m);
        if n < path.len() {
            assert(forest.contains_key(path_key(prefix(path, n))));
        }
    }
}

} // verus!
