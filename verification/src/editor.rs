//! The editing session.
use crate::entry::{views, EntryKind, EntryView};
use crate::find::{Find, FindError};
use crate::flush::{
    begin, drop_placeholders, flush, frame_views, next_frame, relist, scan_frame, settled, unlist,
    visit, Flush, Frame,
};
use crate::flush_order::{
    lemma_flush_goes_on, lemma_scan, lemma_visit, lemma_waiting_path_ends_well, listed, orderly,
};
use crate::level::{change_of, edit_level, Change, Next};
use crate::object_id::ObjectId;
use crate::path::{
    empty_path_hash, ends_well, filename, last_component, lemma_joined_ends_well, no_separator,
    path_hash, push_path_component, root_key, valid_name,
};
use crate::store::{well_formed, Forest, TreeStore};
use crate::tree::{canonical, name_index, no_placeholders, Tree};
use crate::walk::{edited, lemma_edit_ends, lemma_edit_goes_on, walk, Cursor, Walk};
use vstd::prelude::*;

verus! {

/// The components of a path as byte strings.
pub open spec fn names(path: Seq<&[u8]>) -> Seq<Seq<u8>> {
    path.map_values(|component: &[u8]| component@)
}

/// Whether `out` may return `id` when it is handed a tree with the entries
/// `tree`.
pub open spec fn sink_returns<E, F: FnMut(&Tree) -> Result<ObjectId, E>>(
    out: F,
    tree: Seq<EntryView>,
    id: Seq<u8>,
) -> bool {
    exists|handed: Tree, returned: ObjectId|
        #![trigger call_ensures(out, (&handed,), Ok::<ObjectId, E>(returned))]
        handed@ == tree && returned@ == id && call_ensures(
            out,
            (&handed,),
            Ok::<ObjectId, E>(returned),
        )
}

/// Whether `out` may fail with `error` when it is handed a tree without
/// placeholders.
pub open spec fn sink_fails<E, F: FnMut(&Tree) -> Result<ObjectId, E>>(out: F, error: E) -> bool {
    exists|handed: Tree|
        #![trigger call_ensures(out, (&handed,), Err::<ObjectId, E>(error))]
        no_placeholders(handed@) && call_ensures(out, (&handed,), Err::<ObjectId, E>(error))
}

/// Whether a write by the sink `out` turns the pending trees `before` into
/// `after` and returns `id`: the write takes this course for the answers
/// that `out` gave, and each tree it handed out was answered by `out` with
/// the identifier that the write went on with.
pub open spec fn written_by<E, F: FnMut(&Tree) -> Result<ObjectId, E>>(
    out: F,
    before: Forest,
    after: Forest,
    id: Seq<u8>,
) -> bool {
    exists|answers: Seq<Seq<u8>>|
        #![trigger flush(before, answers, answers.len())]
        {
            let end = flush(before, answers, answers.len());
            &&& end.root == Some(id)
            &&& end.forest == after
            &&& forall|k: int|
                0 <= k < end.emitted.len() ==> sink_returns::<E, F>(
                    out,
                    (#[trigger] end.emitted[k]).tree,
                    end.emitted[k].id,
                )
        }
}

/// The entries of the tree that the finder returned, or `None` if it
/// failed.
pub open spec fn loaded_entries(loaded: Result<Tree, FindError>) -> Option<Seq<EntryView>> {
    match loaded {
        Ok(tree) => Some(tree@),
        Err(_) => None,
    }
}

/// Files under `key` the tree that the finder returned, or hands on the
/// error with which the finder failed.
pub fn file_loaded(trees: &mut TreeStore, key: &ObjectId, loaded: Result<Tree, FindError>) -> (r:
    Result<(), FindError>)
    ensures
        match loaded {
            Ok(tree) => r is Ok && final(trees)@ == old(trees)@.insert(key@, tree@),
            Err(error) => r == Err::<(), FindError>(error) && final(trees)@ == old(trees)@,
        },
        well_formed(old(trees)@) ==> well_formed(final(trees)@),
{
    match loaded {
        Ok(tree) => {
            trees.insert(key, tree);
            Ok(())
        },
        Err(error) => Err(error),
    }
}

/// The state needed to apply edits instantly to in-memory trees.
///
/// Each tree is looked up in the object database at most once and held in
/// memory for all edits, until everything is flushed to write all changed
/// trees.
///
/// Trees are filed under the SHA-1 digests of their paths, so that no full
/// path is stored. Two paths with one digest would name one tree.
pub struct Editor<'a> {
    /// A way to look up trees.
    find: &'a dyn Find,
    /// All trees that are held in memory. Entries with the null identifier
    /// are placeholders, which are dropped when the trees are written.
    trees: TreeStore,
    /// A buffer to build up the path of the tree that an edit has reached.
    path_buf: Vec<u8>,
    /// The buffer that a tree is loaded into before it is decoded.
    tree_buf: Vec<u8>,
}

impl<'a> View for Editor<'a> {
    type V = Forest;

    closed spec fn view(&self) -> Forest {
        self.trees@
    }
}

impl<'a> Editor<'a> {
    /// Whether the session can be edited and written: its trees are
    /// canonical and the root is among them.
    pub open spec fn wf(&self) -> bool {
        &&& well_formed(self@)
        &&& self@.contains_key(root_key())
    }

    /// Creates a session that uses `root` as base for all edits, and `find`
    /// to look up the trees below it when edits reach them.
    pub fn new(root: Tree, find: &'a dyn Find) -> (editor: Self)
        ensures
            editor.wf(),
            editor@ == Forest::empty().insert(root_key(), root@),
    {
        let mut trees = TreeStore::new();
        trees.insert(&empty_path_hash(), root);
        Editor { find, trees, path_buf: Vec::with_capacity(256), tree_buf: Vec::with_capacity(512) }
    }

    /// Sets the root tree to `root` and forgets all edits.
    pub fn set_root(&mut self, root: Tree) -> (editor: &mut Self)
        ensures
            editor.wf(),
            editor@ == Forest::empty().insert(root_key(), root@),
            *final(self) == *final(editor),
    {
        self.trees.clear();
        self.trees.insert(&empty_path_hash(), root);
        self
    }

    /// Inserts an entry of `kind` with `id` at `rela_path`, the components
    /// of a path such as `a/b/c`, or overwrites the entry that is there.
    ///
    /// Trees on the way are loaded if they exist and created if they do
    /// not; an entry on the way that is no tree is turned into one. With the
    /// null identifier the entry is a placeholder, which is not written.
    /// An empty path changes nothing.
    ///
    /// No component is empty or holds a `/`.
    pub fn upsert(&mut self, rela_path: &[&[u8]], kind: EntryKind, id: ObjectId) -> (r: Result<
        &mut Self,
        FindError,
    >)
        requires
            old(self).wf(),
            forall|i: int| 0 <= i < rela_path@.len() ==> valid_name(#[trigger] rela_path@[i]@),
        ensures
            match r {
                Ok(editor) => {
                    &&& *final(self) == *final(editor)
                    &&& editor.wf()
                    &&& old(self)@.dom().subset_of(editor@.dom())
                    &&& edited(
                        old(self)@,
                        names(rela_path@),
                        change_of(Some((kind, id))),
                        editor@,
                        true,
                    )
                },
                Err(_) => {
                    &&& final(self).wf()
                    &&& old(self)@.dom().subset_of(final(self)@.dom())
                    &&& edited(
                        old(self)@,
                        names(rela_path@),
                        change_of(Some((kind, id))),
                        final(self)@,
                        false,
                    )
                },
            },
    {
        self.upsert_or_remove(rela_path, Some((kind, id)))
    }

    /// Removes the entry at `rela_path`, loading the trees on the way. It
    /// is no error if the entry does not exist or the path leads nowhere.
    ///
    /// No component holds a `/`.
    pub fn remove(&mut self, rela_path: &[&[u8]]) -> (r: Result<&mut Self, FindError>)
        requires
            old(self).wf(),
            forall|i: int| 0 <= i < rela_path@.len() ==> no_separator(#[trigger] rela_path@[i]@),
        ensures
            match r {
                Ok(editor) => {
                    &&& *final(self) == *final(editor)
                    &&& editor.wf()
                    &&& old(self)@.dom().subset_of(editor@.dom())
                    &&& edited(old(self)@, names(rela_path@), Change::Remove, editor@, true)
                },
                Err(_) => {
                    &&& final(self).wf()
                    &&& old(self)@.dom().subset_of(final(self)@.dom())
                    &&& edited(old(self)@, names(rela_path@), Change::Remove, final(self)@, false)
                },
            },
    {
        self.upsert_or_remove(rela_path, None)
    }

    /// Walks `rela_path` from the root and applies `op` at its end: sets
    /// the entry to a kind and an identifier, or with `None` removes it.
    pub fn upsert_or_remove(
        &mut self,
        rela_path: &[&[u8]],
        op: Option<(EntryKind, ObjectId)>,
    ) -> (r: Result<&mut Self, FindError>)
        requires
            old(self).wf(),
            forall|i: int| 0 <= i < rela_path@.len() ==> no_separator(#[trigger] rela_path@[i]@),
            op is Some ==> forall|i: int|
                0 <= i < rela_path@.len() ==> (#[trigger] rela_path@[i])@.len() > 0,
        ensures
            match r {
                Ok(editor) => {
                    &&& *final(self) == *final(editor)
                    &&& editor.wf()
                    &&& old(self)@.dom().subset_of(editor@.dom())
                    &&& edited(old(self)@, names(rela_path@), change_of(op), editor@, true)
                },
                Err(_) => {
                    &&& final(self).wf()
                    &&& old(self)@.dom().subset_of(final(self)@.dom())
                    &&& edited(old(self)@, names(rela_path@), change_of(op), final(self)@, false)
                },
            },
    {
        let ghost before = self@;
        let ghost path = names(rela_path@);
        let ghost change = change_of(op);
        let ghost mut fetched: Seq<Option<Seq<EntryView>>> = Seq::empty();
        let n = rela_path.len();
        let mut cursor_key = empty_path_hash();
        self.path_buf.clear();
        let mut i: usize = 0;
        while i < n
            invariant
                i <= n,
                n == rela_path@.len(),
                before == old(self)@,
                path == names(rela_path@),
                change == change_of(op),
                forall|k: int| 0 <= k < n ==> no_separator(#[trigger] rela_path@[k]@),
                op is Some ==> forall|k: int| 0 <= k < n ==> (#[trigger] rela_path@[k])@.len() > 0,
                ends_well(self.path_buf@),
                fetched.len() == i,
                self.wf(),
                before.dom().subset_of(self@.dom()),
                self@.contains_key(cursor_key@),
                walk(before, path, change, fetched, i as nat) == (Walk {
                    forest: self@,
                    cursor: Cursor::At { key: cursor_key@, path: self.path_buf@ },
                }),
            decreases n - i,
        {
            let name: &[u8] = rela_path[i];
            let is_last = i + 1 == n;
            let ghost here = walk(before, path, change, fetched, i as nat);
            assert(path[i as int] == name@);
            let tree = match self.trees.remove(&cursor_key) {
                Some(tree) => tree,
                None => vstd::pervasive::unreached(),
            };
            let mut entries = tree.into_entries();
            let ghost listing = views(entries@);
            let next = edit_level(&mut entries, name, is_last, op);
            self.trees.insert(&cursor_key, Tree::from_canonical(entries));
            assert(self@ =~= here.forest.insert(cursor_key@, views(entries@)));
            match next {
                Next::Stop => {
                    proof {
                        lemma_edit_ends(before, path, change, fetched, i as nat);
                    }
                    return Ok(self);
                },
                Next::Descend(lookup) => {
                    proof {
                        if op is None {
                            let at = name_index(listing, name@);
                            assert(valid_name(listing[at].name));
                        }
                        lemma_joined_ends_well(self.path_buf@, name@);
                    }
                    push_path_component(&mut self.path_buf, name);
                    let key = path_hash(self.path_buf.as_slice());
                    let ghost mut answer: Option<Seq<EntryView>> = None;
                    if !self.trees.contains_key(&key) {
                        match lookup {
                            Some(id) if !id.is_null() && !id.is_empty_tree() => {
                                let loaded = self.find.find_tree(&id, &mut self.tree_buf);
                                proof {
                                    answer = loaded_entries(loaded);
                                }
                                match file_loaded(&mut self.trees, &key, loaded) {
                                    Ok(()) => {},
                                    Err(e) => {
                                        proof {
                                            lemma_edit_ends(before, path, change, fetched, i as nat);
                                        }
                                        return Err(e);
                                    },
                                }
                            },
                            _ => {
                                self.trees.insert(&key, Tree::empty());
                            },
                        }
                    }
                    proof {
                        lemma_edit_goes_on(before, path, change, fetched, i as nat, answer);
                        fetched = fetched.push(answer);
                    }
                    cursor_key = key;
                },
            }
            i += 1;
        }
        Ok(self)
    }

    /// Writes all changed trees, and only these, to `out`: children before
    /// their parents and the root last. Returns what `out` returned for the
    /// root.
    ///
    /// Placeholders are dropped from every tree before it is written. A
    /// tree below the root that has no entries left is not written, and its
    /// entry is removed from its parent.
    ///
    /// Further edits work on the root as it was written.
    #[verifier::rlimit(30)]
    pub fn write<E>(&mut self, out: impl FnMut(&Tree) -> Result<ObjectId, E>) -> (r: Result<
        ObjectId,
        E,
    >)
        requires
            old(self).wf(),
            forall|tree: Tree| no_placeholders(tree@) ==> call_requires(out, (&tree,)),
        ensures
            well_formed(final(self)@),
            r matches Ok(id) ==> final(self).wf() && settled(final(self)@) && written_by::<E, _>(
                out,
                old(self)@,
                final(self)@,
                id@,
            ),
            r matches Err(error) ==> sink_fails::<E, _>(out, error),
    {
        let ghost before = self@;
        let mut sink = out;
        let root_hash = empty_path_hash();
        let root = match self.trees.remove(&root_hash) {
            Some(tree) => tree,
            None => vstd::pervasive::unreached(),
        };
        let mut parents: Vec<Frame> = Vec::new();
        let mut children: Vec<Frame> = Vec::new();
        parents.push(Frame { parent_idx: None, rela_path: Vec::new(), entries: root.into_entries() });
        let ghost mut answers: Seq<Seq<u8>> = Seq::empty();
        let ghost mut st: Flush = begin(before);
        proof {
            assert(frame_views(parents@) =~= st.parents);
            assert(frame_views(children@) =~= st.children);
            assert(st.parents[0].entries == before[root_key()]);
            assert(orderly(st));
        }
        loop
            invariant
                before == old(self)@,
                sink == out,
                root_hash@ == root_key(),
                st == flush(before, answers, answers.len()),
                st.forest == self@,
                st.parents == frame_views(parents@),
                st.children == frame_views(children@),
                st.root is None,
                orderly(st),
                forall|tree: Tree| no_placeholders(tree@) ==> call_requires(out, (&tree,)),
                forall|k: int|
                    0 <= k < st.emitted.len() ==> sink_returns::<E, _>(
                        out,
                        (#[trigger] st.emitted[k]).tree,
                        st.emitted[k].id,
                    ),
            decreases self@.dom().len(), parents@.len() + children@.len(),
        {
            let ghost from_children = children@.len() > 0;
            let frame = match children.pop() {
                Some(frame) => frame,
                None => match parents.pop() {
                    Some(frame) => frame,
                    None => vstd::pervasive::unreached(),
                },
            };
            let Frame { parent_idx, mut rela_path, mut entries } = frame;
            proof {
                assert(frame@ == next_frame(st));
                assert(frame_views(parents@) =~= if from_children {
                    st.parents
                } else {
                    st.parents.drop_last()
                });
                assert(frame_views(children@) =~= if from_children {
                    st.children.drop_last()
                } else {
                    st.children
                });
                if from_children {
                    assert(st.children[st.children.len() - 1] == frame@);
                } else {
                    assert(st.parents[st.parents.len() - 1] == frame@);
                }
                assert(canonical(frame@.entries));
            }
            let ghost rest_parents = frame_views(parents@);
            proof {
                lemma_waiting_path_ends_well(st, frame@, rest_parents.len() as int);
            }
            let found = scan_frame(
                &mut self.trees,
                &mut rela_path,
                &entries,
                parents.len(),
                &mut children,
            );
            proof {
                lemma_scan(
                    st.forest,
                    frame@.path,
                    frame@.entries,
                    rest_parents.len() as int,
                    frame@.entries.len() as int,
                );
            }
            if found {
                parents.push(Frame { parent_idx, rela_path, entries });
                proof {
                    let answer = Seq::<u8>::empty();
                    lemma_flush_goes_on(before, answers, answer);
                                lemma_visit(st, answer);
                    assert(frame_views(parents@) =~= rest_parents.push(frame@));
                    st = visit(st, answer);
                    answers = answers.push(answer);
                }
            } else {
                drop_placeholders(&mut entries);
                match parent_idx {
                    Some(idx) => {
                        proof {
                            assert(listed(frame@, st.parents, rest_parents.len() as int));
                            assert(rest_parents[idx as int] == st.parents[idx as int]);
                            assert(parents@[idx as int]@ == rest_parents[idx as int]);
                            let listing = st.parents[idx as int].entries;
                            let at = name_index(listing, last_component(frame@.path));
                            assert(no_separator(listing[at].name));
                        }
                        let name = filename(rela_path.as_slice());
                        if entries.len() == 0 {
                            unlist(&mut parents[idx].entries, name);
                            proof {
                                let answer = Seq::<u8>::empty();
                                lemma_flush_goes_on(before, answers, answer);
                                lemma_visit(st, answer);
                                assert(frame_views(parents@) =~= visit(st, answer).parents);
                                st = visit(st, answer);
                                answers = answers.push(answer);
                            }
                        } else {
                            let tree = Tree::from_canonical(entries);
                            let id = match sink(&tree) {
                                Ok(id) => id,
                                Err(e) => {
                                    return Err(e);
                                },
                            };
                            relist(&mut parents[idx].entries, name, id);
                            proof {
                                let answer = id@;
                                lemma_flush_goes_on(before, answers, answer);
                                lemma_visit(st, answer);
                                assert(frame_views(parents@) =~= visit(st, answer).parents);
                                st = visit(st, answer);
                                answers = answers.push(answer);
                            }
                        }
                    },
                    None => {
                        if parents.len() == 0 {
                            let tree = Tree::from_canonical(entries);
                            let root_tree_id = match sink(&tree) {
                                Ok(id) => id,
                                Err(e) => {
                                    return Err(e);
                                },
                            };
                            let ghost handed = tree;
                            assert(call_ensures(out, (&handed,), Ok::<ObjectId, E>(root_tree_id)));
                            self.trees.clear();
                            self.trees.insert(&root_hash, tree);
                            proof {
                                let answer = root_tree_id@;
                                lemma_flush_goes_on(before, answers, answer);
                                lemma_visit(st, answer);
                                let all = answers.push(answer);
                                let end = flush(before, all, all.len());
                                assert(end == visit(st, answer));
                                assert(self@.dom() =~= set![root_key()]);
                                assert(self@ =~= end.forest);
                                assert forall|k: int| 0 <= k < end.emitted.len() implies sink_returns::<
                                    E,
                                    _,
                                >(out, (#[trigger] end.emitted[k]).tree, end.emitted[k].id) by {
                                    if k < st.emitted.len() {
                                        assert(end.emitted[k] == st.emitted[k]);
                                    }
                                }
                            }
                            return Ok(root_tree_id);
                        } else if entries.len() != 0 {
                            let tree = Tree::from_canonical(entries);
                            let id = match sink(&tree) {
                                Ok(id) => id,
                                Err(e) => {
                                    return Err(e);
                                },
                            };
                            proof {
                                let answer = id@;
                                lemma_flush_goes_on(before, answers, answer);
                                lemma_visit(st, answer);
                                st = visit(st, answer);
                                answers = answers.push(answer);
                            }
                        } else {
                            proof {
                                let answer = Seq::<u8>::empty();
                                lemma_flush_goes_on(before, answers, answer);
                                lemma_visit(st, answer);
                                st = visit(st, answer);
                                answers = answers.push(answer);
                            }
                        }
                    },
                }
            }
        }
    }
}

} // verus!
