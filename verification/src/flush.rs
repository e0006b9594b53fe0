//! Writing the pending trees: children before parents.
//!
//! The trees that wait to be written are kept on two stacks of frames. A
//! frame that is taken from a stack is scanned for subtrees that are still
//! pending. If there are any, they are unfiled and put on the stack of
//! children, and the frame is put back on the stack of parents. If there
//! are none, the tree of the frame is ready: it loses its placeholders and
//! is handed to the sink, and the identifier that the sink returns is
//! written into the entry of the parent; a tree without entries is not
//! handed out, and the entry of its parent is removed instead.
use crate::entry::{views, Entry, EntryView};
use crate::level::has_tree;
use crate::object_id::ObjectId;
use crate::order::{lemma_unordered_are_same, search};
use crate::path::{
    ends_well, joined, last_component, no_separator, path_hash, path_key, push_path_component,
    root_key,
};
use crate::store::{Forest, TreeStore};
use crate::tree::{
    canonical, lemma_without_placeholders, no_placeholders, with_id, without_name,
    without_placeholders,
};
use vstd::prelude::*;

verus! {

/// A tree that waits to be written, as a mathematical value.
pub struct FrameView {
    /// The index, on the stack of parents, of the frame whose tree lists
    /// this one; `None` for the root.
    pub parent: Option<int>,
    /// The path of the tree.
    pub path: Seq<u8>,
    /// The entries of the tree.
    pub entries: Seq<EntryView>,
}

/// A tree that was handed to the sink, with the identifier that the sink
/// returned for it.
pub struct Emission {
    /// The path of the tree.
    pub path: Seq<u8>,
    /// The entries of the tree.
    pub tree: Seq<EntryView>,
    /// The identifier that the sink returned.
    pub id: Seq<u8>,
}

/// The state of a write.
pub struct Flush {
    /// The trees that are still filed.
    pub forest: Forest,
    /// The frames that wait for their subtrees.
    pub parents: Seq<FrameView>,
    /// The frames that were found pending and not looked at yet.
    pub children: Seq<FrameView>,
    /// What was handed to the sink so far, in order.
    pub emitted: Seq<Emission>,
    /// The identifier of the root, once it is written.
    pub root: Option<Seq<u8>>,
}

/// The state in which a write of `forest` starts: the root is unfiled and
/// waits alone.
pub open spec fn begin(forest: Forest) -> Flush {
    Flush {
        forest: forest.remove(root_key()),
        parents: seq![
            FrameView { parent: None, path: Seq::<u8>::empty(), entries: forest[root_key()] },
        ],
        children: Seq::<FrameView>::empty(),
        emitted: Seq::<Emission>::empty(),
        root: None,
    }
}

/// What a scan of the first `n` entries of the tree at `path` finds: the
/// trees that stay filed, and a frame for each entry that is a tree whose
/// path is filed, in the order of the entries. `parent` is the index that
/// the scanned frame will have on the stack of parents.
pub open spec fn scan(
    forest: Forest,
    path: Seq<u8>,
    entries: Seq<EntryView>,
    parent: int,
    n: int,
) -> (Forest, Seq<FrameView>)
    decreases n,
{
    if n <= 0 {
        (forest, Seq::<FrameView>::empty())
    } else {
        let (rest, found) = scan(forest, path, entries, parent, n - 1);
        let below = joined(path, entries[n - 1].name);
        if entries[n - 1].is_tree() && rest.contains_key(path_key(below)) {
            (
                rest.remove(path_key(below)),
                found.push(
                    FrameView {
                        parent: Some(parent),
                        path: below,
                        entries: rest[path_key(below)],
                    },
                ),
            )
        } else {
            (rest, found)
        }
    }
}

/// The frame that is looked at next: the top of the stack of children, or
/// of the stack of parents if there are no children.
pub open spec fn next_frame(s: Flush) -> FrameView {
    if s.children.len() > 0 {
        s.children.last()
    } else {
        s.parents.last()
    }
}

/// The stack of parents without the frame that is looked at next.
pub open spec fn other_parents(s: Flush) -> Seq<FrameView> {
    if s.children.len() > 0 {
        s.parents
    } else {
        s.parents.drop_last()
    }
}

/// The stack of children without the frame that is looked at next.
pub open spec fn other_children(s: Flush) -> Seq<FrameView> {
    if s.children.len() > 0 {
        s.children.drop_last()
    } else {
        s.children
    }
}

/// What the scan of the frame that is looked at next finds: the trees that
/// stay filed, and the frames of its pending subtrees.
pub open spec fn scanned(s: Flush) -> (Forest, Seq<FrameView>) {
    scan(
        s.forest,
        next_frame(s).path,
        next_frame(s).entries,
        other_parents(s).len() as int,
        next_frame(s).entries.len() as int,
    )
}

/// `frame` with `entries` in place of its own.
pub open spec fn with_entries(frame: FrameView, entries: Seq<EntryView>) -> FrameView {
    FrameView { parent: frame.parent, path: frame.path, entries }
}

/// The state after the next frame has been looked at. `answer` is the
/// identifier that the sink returns if the tree of the frame is handed to
/// it.
pub open spec fn visit(s: Flush, answer: Seq<u8>) -> Flush {
    if s.root is Some || s.parents.len() + s.children.len() == 0 {
        s
    } else {
        let frame = next_frame(s);
        let parents = other_parents(s);
        let children = other_children(s);
        let (forest, found) = scanned(s);
        let tree = without_placeholders(frame.entries);
        let name = last_component(frame.path);
        let handed_out = s.emitted.push(Emission { path: frame.path, tree, id: answer });
        if found.len() > 0 {
            Flush {
                forest,
                parents: parents.push(frame),
                children: children + found,
                emitted: s.emitted,
                root: None,
            }
        } else {
            match frame.parent {
                Some(i) => if tree.len() == 0 {
                    Flush {
                        forest,
                        parents: parents.update(
                            i,
                            with_entries(parents[i], without_name(parents[i].entries, name)),
                        ),
                        children,
                        emitted: s.emitted,
                        root: None,
                    }
                } else {
                    Flush {
                        forest,
                        parents: parents.update(
                            i,
                            with_entries(parents[i], with_id(parents[i].entries, name, answer)),
                        ),
                        children,
                        emitted: handed_out,
                        root: None,
                    }
                },
                None => if parents.len() == 0 {
                    Flush {
                        forest: Forest::empty().insert(root_key(), tree),
                        parents,
                        children,
                        emitted: handed_out,
                        root: Some(answer),
                    }
                } else if tree.len() > 0 {
                    Flush { forest, parents, children, emitted: handed_out, root: None }
                } else {
                    Flush { forest, parents, children, emitted: s.emitted, root: None }
                },
            }
        }
    }
}

/// The state of the write of `forest` after `n` frames have been looked
/// at. `answers[i]` is what the sink returned for frame `i`, if its tree
/// was handed out.
pub open spec fn flush(forest: Forest, answers: Seq<Seq<u8>>, n: nat) -> Flush
    decreases n,
{
    if n == 0 {
        begin(forest)
    } else {
        visit(flush(forest, answers, (n - 1) as nat), answers[n - 1])
    }
}

/// Whether `forest` is as a write leaves it: the root alone is filed, and
/// it holds no placeholder.
pub open spec fn settled(forest: Forest) -> bool {
    &&& forest.dom() == set![root_key()]
    &&& no_placeholders(forest[root_key()])
}

/// A tree that waits to be written.
pub struct Frame {
    /// The index, on the stack of parents, of the frame whose tree lists
    /// this one; `None` for the root.
    pub parent_idx: Option<usize>,
    /// The path of the tree.
    pub rela_path: Vec<u8>,
    /// The entries of the tree.
    pub entries: Vec<Entry>,
}

impl View for Frame {
    type V = FrameView;

    open spec fn view(&self) -> FrameView {
        FrameView {
            parent: match self.parent_idx {
                Some(i) => Some(i as int),
                None => None,
            },
            path: self.rela_path@,
            entries: views(self.entries@),
        }
    }
}

/// The views of a stack of frames.
pub open spec fn frame_views(frames: Seq<Frame>) -> Seq<FrameView> {
    frames.map_values(|frame: Frame| frame@)
}

/// Scans the tree at `rela_path` for subtrees that are pending in `trees`,
/// unfiles each and pushes a frame for it on `children`. Returns whether
/// there was any.
pub fn scan_frame(
    trees: &mut TreeStore,
    rela_path: &mut Vec<u8>,
    entries: &Vec<Entry>,
    parent_idx: usize,
    children: &mut Vec<Frame>,
) -> (found: bool)
    requires
        ends_well(old(rela_path)@),
    ensures
        final(rela_path)@ == old(rela_path)@,
        ({
            let r = scan(
                old(trees)@,
                old(rela_path)@,
                views(entries@),
                parent_idx as int,
                entries@.len() as int,
            );
            &&& final(trees)@ == r.0
            &&& frame_views(final(children)@) == frame_views(old(children)@) + r.1
            &&& found == (r.1.len() > 0)
        }),
{
    let ghost forest = trees@;
    let ghost path = rela_path@;
    let ghost all = views(entries@);
    let ghost waiting = frame_views(children@);
    let mut found = false;
    let mut i: usize = 0;
    while i < entries.len()
        invariant
            i <= entries@.len(),
            all == views(entries@),
            rela_path@ == path,
            ends_well(path),
            trees@ == scan(forest, path, all, parent_idx as int, i as int).0,
            frame_views(children@) == waiting + scan(forest, path, all, parent_idx as int, i as int).1,
            found == (scan(forest, path, all, parent_idx as int, i as int).1.len() > 0),
        decreases entries@.len() - i,
    {
        let entry = &entries[i];
        if entry.mode.is_tree() {
            let prev_len = push_path_component(rela_path, entry.filename.as_slice());
            let key = path_hash(rela_path.as_slice());
            if let Some(sub_tree) = trees.remove(&key) {
                found = true;
                let frame = Frame {
                    parent_idx: Some(parent_idx),
                    rela_path: vstd::slice::slice_to_vec(rela_path.as_slice()),
                    entries: sub_tree.into_entries(),
                };
                let ghost before = children@;
                children.push(frame);
                assert(frame_views(children@) =~= frame_views(before).push(frame@));
            }
            rela_path.truncate(prev_len);
        }
        i += 1;
    }
    found
}

/// Removes the placeholders from `entries`.
pub fn drop_placeholders(entries: &mut Vec<Entry>)
    requires
        canonical(views(old(entries)@)),
    ensures
        views(final(entries)@) == without_placeholders(views(old(entries)@)),
        canonical(views(final(entries)@)),
        no_placeholders(views(final(entries)@)),
{
    let ghost all = views(entries@);
    let ghost keep = |e: EntryView| !e.is_placeholder();
    let ghost mut seen: int = 0;
    let mut i: usize = 0;
    proof {
        assert(all.skip(0) =~= all);
    }
    while i < entries.len()
        invariant
            0 <= seen <= all.len(),
            keep == |e: EntryView| !e.is_placeholder(),
            i == all.take(seen).filter(keep).len(),
            views(entries@) == all.take(seen).filter(keep) + all.skip(seen),
        decreases all.len() - seen,
    {
        proof {
            assert(views(entries@)[i as int] == all.skip(seen)[0]);
            assert(all.take(seen + 1).drop_last() =~= all.take(seen));
            reveal(Seq::filter);
        }
        let ghost now = views(entries@);
        if entries[i].oid.is_null() {
            entries.remove(i);
            proof {
                assert(views(entries@) =~= now.remove(i as int));
            }
        } else {
            i += 1;
        }
        proof {
            seen = seen + 1;
        }
    }
    proof {
        lemma_without_placeholders(all);
    }
}

/// Removes from `entries` the entry that lists a tree under `name`.
pub fn unlist(entries: &mut Vec<Entry>, name: &[u8])
    requires
        canonical(views(old(entries)@)),
        no_separator(name@),
        has_tree(views(old(entries)@), name@),
    ensures
        views(final(entries)@) == without_name(views(old(entries)@), name@),
{
    let ghost s = views(entries@);
    match search(entries, name, true) {
        Ok(idx) => {
            proof {
                lemma_unordered_are_same(s[idx as int].name, s[idx as int].is_tree(), name@, true);
            }
            entries.remove(idx);
        },
        Err(_) => {
            vstd::pervasive::unreached()
        },
    }
}

/// Writes `id` into the entry of `entries` that lists a tree under `name`.
pub fn relist(entries: &mut Vec<Entry>, name: &[u8], id: ObjectId)
    requires
        canonical(views(old(entries)@)),
        no_separator(name@),
        has_tree(views(old(entries)@), name@),
    ensures
        views(final(entries)@) == with_id(views(old(entries)@), name@, id@),
{
    let ghost s = views(entries@);
    match search(entries, name, true) {
        Ok(idx) => {
            proof {
                lemma_unordered_are_same(s[idx as int].name, s[idx as int].is_tree(), name@, true);
            }
            entries[idx].oid = id;
        },
        Err(_) => {
            vstd::pervasive::unreached()
        },
    }
}

} // verus!
