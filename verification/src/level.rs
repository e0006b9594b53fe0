//! What one component of a path does to the tree it is looked up in.
//!
//! An edit walks its path from the root. At each tree on the way it looks
//! for the component's name and changes the entry, adds one, removes it or
//! leaves the tree alone, and it learns whether and where to go on.
use crate::entry::{
    kind_bits, lemma_only_tree_kind_is_tree, views, Entry, EntryKind, EntryMode, EntryView,
    TREE_BITS,
};
use crate::object_id::{null_bytes, ObjectId};
use crate::order::{lemma_unordered_are_same, search};
use crate::path::{no_separator, valid_name};
use crate::tree::{
    canonical, has_name, lemma_insert_canonical, lemma_name_index, lemma_rank_is_split,
    lemma_replace_in_place, lemma_update_id_canonical, lemma_with_entry_canonical,
    lemma_with_entry_twice, name_index, rank, with_entry, with_id, without_name,
};
use vstd::prelude::*;

verus! {

/// What an edit does to the entry at the end of its path.
pub enum Change {
    /// The entry gets this mode and identifier, and is created if missing.
    Put { mode: EntryMode, id: Seq<u8> },
    /// The entry is removed.
    Remove,
}

/// The change that `op` asks for: to set the entry to a kind and an
/// identifier, or with `None` to remove it.
pub open spec fn change_of(op: Option<(EntryKind, ObjectId)>) -> Change {
    match op {
        Some((kind, id)) => Change::Put { mode: EntryMode(kind_bits(kind)), id: id@ },
        None => Change::Remove,
    }
}

/// How an edit goes on below a tree it has passed.
pub enum Descent {
    /// The edit ends here.
    Stop,
    /// The edit goes on in the subtree of the component. `lookup` is the
    /// identifier under which the entry listed that subtree before, and
    /// `None` if the entry was new or was no tree.
    Into { lookup: Option<Seq<u8>> },
}

/// The entry that stands for a subtree whose identifier is not known yet.
pub open spec fn placeholder_tree(name: Seq<u8>) -> EntryView {
    EntryView { mode: EntryMode(TREE_BITS), name, id: null_bytes() }
}

/// Whether `s` lists a tree under `name`.
pub open spec fn has_tree(s: Seq<EntryView>, name: Seq<u8>) -> bool {
    has_name(s, name) && s[name_index(s, name)].is_tree()
}

/// The entries of a tree after an edit has passed it with the component
/// `name`, which is the last of its path if `is_last` is set.
pub open spec fn level_entries(
    s: Seq<EntryView>,
    name: Seq<u8>,
    is_last: bool,
    change: Change,
) -> Seq<EntryView> {
    match change {
        Change::Remove => if is_last {
            without_name(s, name)
        } else {
            s
        },
        Change::Put { mode, id } => if is_last {
            with_entry(s, EntryView { mode, name, id })
        } else if has_tree(s, name) {
            s
        } else {
            with_entry(s, placeholder_tree(name))
        },
    }
}

/// How an edit goes on after it has passed a tree with the component
/// `name`.
pub open spec fn level_descent(
    s: Seq<EntryView>,
    name: Seq<u8>,
    is_last: bool,
    change: Change,
) -> Descent {
    if is_last {
        Descent::Stop
    } else if has_tree(s, name) {
        Descent::Into { lookup: Some(s[name_index(s, name)].id) }
    } else {
        match change {
            Change::Remove => Descent::Stop,
            Change::Put { .. } => Descent::Into { lookup: None },
        }
    }
}

/// Whether an edit passes the entries `s` with the component `name` and
/// leaves them as they are, and goes on into a subtree that `s` lists
/// unless the component is the last.
pub open spec fn settled_level(
    s: Seq<EntryView>,
    name: Seq<u8>,
    is_last: bool,
    change: Change,
) -> bool {
    &&& level_entries(s, name, is_last, change) == s
    &&& !is_last ==> level_descent(s, name, is_last, change) is Into
}

/// What a component makes of canonical entries is canonical.
pub proof fn lemma_level_canonical(s: Seq<EntryView>, name: Seq<u8>, is_last: bool, change: Change)
    requires
        canonical(s),
        change is Put ==> valid_name(name),
    ensures
        canonical(level_entries(s, name, is_last, change)),
{
    match change {
        Change::Remove => {},
        Change::Put { mode, id } => {
            lemma_with_entry_canonical(s, EntryView { mode, name, id });
            lemma_with_entry_canonical(s, placeholder_tree(name));
        },
    }
}

/// What a component of an upsert has made of canonical entries, the same
/// component leaves as it is.
pub proof fn lemma_level_settles(s: Seq<EntryView>, name: Seq<u8>, is_last: bool, change: Change)
    requires
        canonical(s),
        valid_name(name),
        change is Put,
    ensures
        settled_level(level_entries(s, name, is_last, change), name, is_last, change),
{
    if let Change::Put { mode, id } = change {
        if is_last {
            lemma_with_entry_twice(s, EntryView { mode, name, id });
        } else if !has_tree(s, name) {
            lemma_with_entry_twice(s, placeholder_tree(name));
        }
    }
}

/// Without the entry of one name, a canonical sequence is canonical and
/// lists the trees of all other names as before.
pub proof fn lemma_without_name(s: Seq<EntryView>, gone: Seq<u8>, other: Seq<u8>)
    requires
        canonical(s),
    ensures
        canonical(without_name(s, gone)),
        !has_name(without_name(s, gone), gone),
        other != gone && has_tree(s, other) ==> has_tree(without_name(s, gone), other),
{
    if has_name(s, gone) {
        let i = name_index(s, gone);
        let t = s.remove(i);
        if other != gone && has_tree(s, other) {
            let j = name_index(s, other);
            let at = if j < i {
                j
            } else {
                j - 1
            };
            lemma_name_index(t, at);
        }
    }
}

/// With another identifier in the entry of one name, a canonical sequence
/// is canonical and lists the same trees.
pub proof fn lemma_with_id(s: Seq<EntryView>, name: Seq<u8>, id: Seq<u8>, other: Seq<u8>)
    requires
        canonical(s),
    ensures
        canonical(with_id(s, name, id)),
        has_tree(s, other) ==> has_tree(with_id(s, name, id), other),
{
    if has_name(s, name) {
        let i = name_index(s, name);
        lemma_update_id_canonical(s, i, id);
        let t = with_id(s, name, id);
        if has_tree(s, other) {
            let j = name_index(s, other);
            assert(t[j].name == other);
            lemma_name_index(t, j);
        }
    }
}

/// How an edit goes on below a tree it has passed.
pub enum Next {
    /// The edit ends here.
    Stop,
    /// The edit goes on in the subtree, which the entry listed under the
    /// given identifier if there is one.
    Descend(Option<ObjectId>),
}

impl View for Next {
    type V = Descent;

    open spec fn view(&self) -> Descent {
        match *self {
            Next::Stop => Descent::Stop,
            Next::Descend(Some(id)) => Descent::Into { lookup: Some(id@) },
            Next::Descend(None) => Descent::Into { lookup: None },
        }
    }
}

/// Looks up `name` in `entries`: first among what is no tree, then among
/// the trees. Returns the index of the entry of that name in `Ok`, or in
/// `Err` the index at which an entry of that name is inserted, as a tree if
/// `must_be_tree` is set.
pub fn locate(entries: &Vec<Entry>, name: &[u8], must_be_tree: bool) -> (r: Result<usize, usize>)
    requires
        canonical(views(entries@)),
        no_separator(name@),
    ensures
        match r {
            Ok(i) => i < entries@.len() && entries@[i as int]@.name == name@ && has_name(
                views(entries@),
                name@,
            ) && name_index(views(entries@), name@) == i,
            Err(i) => !has_name(views(entries@), name@) && i == rank(
                views(entries@),
                name@,
                must_be_tree,
            ),
        },
{
    let ghost s = views(entries@);
    match search(entries, name, false) {
        Ok(i) => {
            proof {
                lemma_unordered_are_same(s[i as int].name, s[i as int].is_tree(), name@, false);
            }
            Ok(i)
        },
        Err(file_idx) => match search(entries, name, true) {
            Ok(i) => {
                proof {
                    lemma_unordered_are_same(s[i as int].name, s[i as int].is_tree(), name@, true);
                }
                Ok(i)
            },
            Err(dir_idx) => {
                let at = if must_be_tree {
                    dir_idx
                } else {
                    file_idx
                };
                proof {
                    lemma_rank_is_split(s, name@, must_be_tree, at as int);
                }
                Err(at)
            },
        },
    }
}

/// Gives the entry at `idx` the mode `mode` and the identifier `oid`, and
/// moves it to the index that the order gives it then.
pub fn overwrite(entries: &mut Vec<Entry>, idx: usize, mode: EntryMode, oid: ObjectId)
    requires
        canonical(views(old(entries)@)),
        idx < old(entries)@.len(),
    ensures
        canonical(views(final(entries)@)),
        views(final(entries)@) == with_entry(
            views(old(entries)@),
            EntryView { mode, name: old(entries)@[idx as int]@.name, id: oid@ },
        ),
{
    let ghost s = views(entries@);
    let ghost e = EntryView { mode, name: s[idx as int].name, id: oid@ };
    proof {
        lemma_insert_canonical(s.remove(idx as int), e);
    }
    let mut entry = entries.remove(idx);
    assert(views(entries@) =~= s.remove(idx as int));
    let was_tree = entry.mode.is_tree();
    entry.mode = mode;
    entry.oid = oid;
    let at = if was_tree == mode.is_tree() {
        proof {
            lemma_replace_in_place(s, idx as int, e);
            assert(s.remove(idx as int).insert(idx as int, e) =~= s.update(idx as int, e));
        }
        idx
    } else {
        match locate(entries, entry.filename.as_slice(), mode.is_tree()) {
            Ok(i) => i,
            Err(i) => i,
        }
    };
    entries.insert(at, entry);
    assert(views(entries@) =~= s.remove(idx as int).insert(at as int, e));
}

/// Inserts at `at` a new entry named `name` with the mode `mode` and the
/// identifier `oid`.
pub fn insert_new(entries: &mut Vec<Entry>, at: usize, name: &[u8], mode: EntryMode, oid: ObjectId)
    requires
        canonical(views(old(entries)@)),
        valid_name(name@),
        !has_name(views(old(entries)@), name@),
        at == rank(views(old(entries)@), name@, mode.is_tree()),
    ensures
        canonical(views(final(entries)@)),
        views(final(entries)@) == with_entry(
            views(old(entries)@),
            EntryView { mode, name: name@, id: oid@ },
        ),
{
    let ghost s = views(entries@);
    let ghost e = EntryView { mode, name: name@, id: oid@ };
    proof {
        lemma_insert_canonical(s, e);
    }
    let entry = Entry { mode, filename: vstd::slice::slice_to_vec(name), oid };
    entries.insert(at, entry);
    assert(views(entries@) =~= s.insert(at as int, e));
}

/// Applies one component of an edit to the entries of the tree it has
/// reached, and tells how the edit goes on. `name` is the component, which
/// is the last of the path if `is_last` is set; `op` is what the edit does
/// at the end of its path: it sets a kind and an identifier, or with `None`
/// it removes. A component holds no `/`, and where entries are set it is
/// not empty.
pub fn edit_level(
    entries: &mut Vec<Entry>,
    name: &[u8],
    is_last: bool,
    op: Option<(EntryKind, ObjectId)>,
) -> (next: Next)
    requires
        canonical(views(old(entries)@)),
        no_separator(name@),
        op is Some ==> name@.len() > 0,
    ensures
        canonical(views(final(entries)@)),
        views(final(entries)@) == level_entries(
            views(old(entries)@),
            name@,
            is_last,
            change_of(op),
        ),
        next@ == level_descent(views(old(entries)@), name@, is_last, change_of(op)),
{
    let ghost s = views(entries@);
    let new_kind_is_tree = match op {
        Some((kind, _)) => {
            EntryMode::from(kind).is_tree()
        },
        None => false,
    };
    let current_level_must_be_tree = !is_last || new_kind_is_tree;
    match locate(entries, name, current_level_must_be_tree) {
        Ok(idx) => {
            match op {
                None => {
                    if is_last {
                        entries.remove(idx);
                        proof {
                            assert(views(entries@) =~= s.remove(idx as int));
                        }
                        Next::Stop
                    } else if entries[idx].mode.is_tree() {
                        Next::Descend(Some(entries[idx].oid))
                    } else {
                        Next::Stop
                    }
                },
                Some((kind, id)) => {
                    if is_last {
                        overwrite(entries, idx, EntryMode::from(kind), id);
                        Next::Stop
                    } else if entries[idx].mode.is_tree() {
                        Next::Descend(Some(entries[idx].oid))
                    } else {
                        overwrite(entries, idx, EntryMode::from(EntryKind::Tree), id.null());
                        Next::Descend(None)
                    }
                },
            }
        },
        Err(at) => match op {
            None => Next::Stop,
            Some((kind, id)) => {
                if is_last {
                    insert_new(entries, at, name, EntryMode::from(kind), id);
                    Next::Stop
                } else {
                    proof {
                        lemma_only_tree_kind_is_tree(EntryKind::Tree);
                    }
                    insert_new(entries, at, name, EntryMode::from(EntryKind::Tree), id.null());
                    Next::Descend(None)
                }
            },
        },
    }
}

} // verus!
