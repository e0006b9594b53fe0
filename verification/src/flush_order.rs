//! The order that a write keeps.
//!
//! At every point of a write the waiting frames are in order: each is
//! listed by a frame that waits lower on the stack of parents, and no two
//! stand for one entry or one path. From this follows what the sink can
//! rely on: every tree it receives is canonical and without placeholders,
//! no tree below the root comes without entries, and no tree comes before a
//! tree inside it.
use crate::entry::EntryView;
use crate::flush::{
    begin, flush, next_frame, other_children, other_parents, scan, scanned, settled, visit,
    Emission, Flush, FrameView,
};
use crate::level::{has_tree, lemma_with_id, lemma_without_name};
use crate::path::{
    ends_well, inside, joined, last_component, lemma_inside_joined, lemma_last_component_of_joined,
    path_key, root_key,
};
use crate::store::{well_formed, Forest};
use crate::tree::{
    canonical, has_name, lemma_without_placeholders, no_placeholders, with_id, without_name,
    without_placeholders,
};
use vstd::prelude::*;

verus! {

/// The first `n` frames of a write depend on what the sink returned for
/// these frames only.
pub proof fn lemma_flush_reads_prefix(forest: Forest, a1: Seq<Seq<u8>>, a2: Seq<Seq<u8>>, n: nat)
    requires
        forall|i: int| 0 <= i < n ==> a1[i] == a2[i],
    ensures
        flush(forest, a1, n) == flush(forest, a2, n),
    decreases n,
{
    if n > 0 {
        lemma_flush_reads_prefix(forest, a1, a2, (n - 1) as nat);
    }
}

/// A write that has looked at the frames answered by `answers` goes on
/// with the next frame.
pub proof fn lemma_flush_goes_on(forest: Forest, answers: Seq<Seq<u8>>, answer: Seq<u8>)
    ensures
        flush(forest, answers.push(answer), answers.len() + 1) == visit(
            flush(forest, answers, answers.len()),
            answer,
        ),
{
    lemma_flush_reads_prefix(forest, answers, answers.push(answer), answers.len());
}

/// What a scan finds: it unfiles one tree for each frame and changes no
/// tree that stays filed; each frame stands for an entry of the scanned
/// tree that is a tree, holds what was filed under the path of that entry,
/// and no two frames stand for one entry.
pub proof fn lemma_scan(forest: Forest, path: Seq<u8>, entries: Seq<EntryView>, parent: int, n: int)
    requires
        well_formed(forest),
        canonical(entries),
        0 <= n <= entries.len(),
    ensures
        ({
            let (rest, found) = scan(forest, path, entries, parent, n);
            &&& well_formed(rest)
            &&& rest.dom().subset_of(forest.dom())
            &&& forall|key: Seq<u8>| rest.contains_key(key) ==> rest[key] == forest[key]
            &&& rest.dom().len() + found.len() == forest.dom().len()
            &&& found.len() == 0 ==> rest == forest
            &&& forall|x: int|
                0 <= x < found.len() ==> {
                    &&& (#[trigger] found[x]).parent == Some(parent)
                    &&& canonical(found[x].entries)
                    &&& has_tree(entries, last_component(found[x].path))
                    &&& found[x].path == joined(path, last_component(found[x].path))
                    &&& forest.contains_key(path_key(found[x].path))
                    &&& !rest.contains_key(path_key(found[x].path))
                    &&& exists|t: int|
                        0 <= t < n && #[trigger] entries[t].name == last_component(found[x].path)
                }
            &&& forall|x: int, y: int|
                0 <= x < y < found.len() ==> last_component((#[trigger] found[x]).path)
                    != last_component((#[trigger] found[y]).path)
        }),
    decreases n,
{
    if n > 0 {
        lemma_scan(forest, path, entries, parent, n - 1);
        let (rest, found) = scan(forest, path, entries, parent, n - 1);
        let e = entries[n - 1];
        let below = joined(path, e.name);
        let (rest2, found2) = scan(forest, path, entries, parent, n);
        if e.is_tree() && rest.contains_key(path_key(below)) {
            lemma_last_component_of_joined(path, e.name);
        }
        assert forall|x: int| 0 <= x < found2.len() implies {
            &&& (#[trigger] found2[x]).parent == Some(parent)
            &&& canonical(found2[x].entries)
            &&& has_tree(entries, last_component(found2[x].path))
            &&& found2[x].path == joined(path, last_component(found2[x].path))
            &&& forest.contains_key(path_key(found2[x].path))
            &&& !rest2.contains_key(path_key(found2[x].path))
            &&& exists|t: int|
                0 <= t < n && #[trigger] entries[t].name == last_component(found2[x].path)
        } by {}
    }
}

/// Whether two waiting frames stand for one entry of one parent.
pub open spec fn clash(f: FrameView, g: FrameView) -> bool {
    &&& f.parent is Some
    &&& f.parent == g.parent
    &&& last_component(f.path) == last_component(g.path)
}

/// Whether the parent of `frame` waits on `parents` below the index
/// `limit` and lists the tree of `frame` as a tree under the last component
/// of its path, which extends the path of the parent by that component; or
/// `frame` has no parent and is the root.
pub open spec fn listed(frame: FrameView, parents: Seq<FrameView>, limit: int) -> bool {
    match frame.parent {
        Some(i) => {
            &&& 0 <= i < limit
            &&& has_tree(parents[i].entries, last_component(frame.path))
            &&& frame.path == joined(parents[i].path, last_component(frame.path))
        },
        None => frame.path == Seq::<u8>::empty(),
    }
}

/// What holds of the state of a write as long as the root is not written:
/// all trees are canonical, some frame waits, the parent of every waiting
/// frame waits below it and lists it, and no two frames stand for one
/// entry.
pub open spec fn orderly(s: Flush) -> bool {
    &&& well_formed(s.forest)
    &&& s.parents.len() + s.children.len() > 0
    &&& forall|j: int|
        0 <= j < s.parents.len() ==> canonical((#[trigger] s.parents[j]).entries) && listed(
            s.parents[j],
            s.parents,
            j,
        )
    &&& forall|j: int|
        0 <= j < s.children.len() ==> canonical((#[trigger] s.children[j]).entries)
            && s.children[j].parent is Some && listed(
            s.children[j],
            s.parents,
            s.parents.len() as int,
        )
    &&& forall|a: int, b: int|
        0 <= a < b < s.parents.len() ==> !clash(#[trigger] s.parents[a], #[trigger] s.parents[b])
    &&& forall|a: int, b: int|
        0 <= a < b < s.children.len() ==> !clash(
            #[trigger] s.children[a],
            #[trigger] s.children[b],
        )
    &&& forall|a: int, b: int|
        0 <= a < s.parents.len() && 0 <= b < s.children.len() ==> !clash(
            #[trigger] s.parents[a],
            #[trigger] s.children[b],
        )
}

/// The path of a frame that is listed by its parent, or is the root, does
/// not end in a separator.
pub proof fn lemma_waiting_path_ends_well(s: Flush, frame: FrameView, limit: int)
    requires
        orderly(s),
        listed(frame, s.parents, limit),
        limit <= s.parents.len(),
    ensures
        ends_well(frame.path),
{
}

/// Whether the state `t` is nearer to the end of the write than `s`: it
/// holds fewer filed trees, or as many and fewer waiting frames.
pub open spec fn nearer(t: Flush, s: Flush) -> bool {
    ||| t.forest.dom().len() < s.forest.dom().len()
    ||| (t.forest.dom().len() == s.forest.dom().len() && t.parents.len() + t.children.len()
        < s.parents.len() + s.children.len())
}

/// Looking at a frame keeps the state of the write in order and brings it
/// nearer to its end. What is handed to the sink has no placeholders, is
/// canonical, and has entries unless it is the root; and when the root is
/// written, it alone remains filed.
#[verifier::rlimit(30)]
pub proof fn lemma_visit(s: Flush, answer: Seq<u8>)
    requires
        orderly(s),
        s.root is None,
    ensures
        ({
            let t = visit(s, answer);
            let tree = without_placeholders(next_frame(s).entries);
            &&& t.root is None ==> orderly(t) && nearer(t, s)
            &&& t.root is Some ==> t.forest == Forest::empty().insert(root_key(), tree)
                && t.emitted == s.emitted.push(Emission { path: next_frame(s).path, tree, id: answer })
                && t.root == Some(answer)
            &&& t.emitted == s.emitted || t.emitted == s.emitted.push(
                Emission { path: next_frame(s).path, tree, id: answer },
            )
            &&& t.emitted != s.emitted && t.root is None ==> tree.len() > 0
            &&& canonical(tree)
            &&& no_placeholders(tree)
        }),
{
    let frame = next_frame(s);
    let parents = other_parents(s);
    let children = other_children(s);
    let top = parents.len() as int;
    assert forall|j: int| 0 <= j < parents.len() implies !clash(frame, #[trigger] parents[j]) by {}
    assert forall|j: int| 0 <= j < children.len() implies !clash(frame, #[trigger] children[j]) by {}
    lemma_scan(s.forest, frame.path, frame.entries, top, frame.entries.len() as int);
    lemma_without_placeholders(frame.entries);
    let (forest, found) = scanned(s);
    let tree = without_placeholders(frame.entries);
    let name = last_component(frame.path);
    if found.len() == 0 {
        if let Some(i) = frame.parent {
            let patched = if tree.len() == 0 {
                without_name(parents[i].entries, name)
            } else {
                with_id(parents[i].entries, name, answer)
            };
            lemma_with_id(parents[i].entries, name, answer, name);
            assert forall|g: FrameView|
                g.parent == Some(i) && !clash(frame, g) && has_tree(
                    parents[i].entries,
                    last_component(g.path),
                ) implies has_tree(patched, last_component(g.path)) by {
                lemma_without_name(parents[i].entries, name, last_component(g.path));
                lemma_with_id(parents[i].entries, name, answer, last_component(g.path));
            }
        }
    }
}

/// Whether the write of `s` is complete with the trees of `s.emitted`
/// handed out: what was handed out last is the root, which alone is filed.
pub open spec fn complete(s: Flush) -> bool {
    &&& s.root is Some
    &&& settled(s.forest)
    &&& well_formed(s.forest)
    &&& s.emitted.len() > 0
    &&& s.emitted.last() == (Emission {
        path: Seq::<u8>::empty(),
        tree: s.forest[root_key()],
        id: s.root->0,
    })
}

/// Whether the tree of the emission `k` of `s` is fit to be written: it is
/// canonical and without placeholders, and it has entries unless it is the
/// root, which is handed out last.
pub open spec fn fit(s: Flush, k: int) -> bool {
    &&& canonical(s.emitted[k].tree)
    &&& no_placeholders(s.emitted[k].tree)
    &&& s.emitted[k].tree.len() > 0 || (s.root is Some && k == s.emitted.len() - 1)
}

/// At every point of a write the state is in order or the write is
/// complete, and no tree was handed to the sink that holds a placeholder
/// or, unless it is the root, has no entries.
pub proof fn lemma_flush_in_order(forest: Forest, answers: Seq<Seq<u8>>, n: nat)
    requires
        well_formed(forest),
        forest.contains_key(root_key()),
    ensures
        ({
            let s = flush(forest, answers, n);
            &&& s.root is None ==> orderly(s)
            &&& s.root is Some ==> complete(s)
            &&& forall|k: int| 0 <= k < s.emitted.len() ==> fit(s, k)
        }),
    decreases n,
{
    if n > 0 {
        let before = flush(forest, answers, (n - 1) as nat);
        let s = flush(forest, answers, n);
        lemma_flush_in_order(forest, answers, (n - 1) as nat);
        if before.root is None {
            lemma_visit(before, answers[n - 1]);
            assert forall|k: int| 0 <= k < s.emitted.len() implies fit(s, k) by {
                if k < before.emitted.len() {
                    assert(fit(before, k));
                }
            }
        }
    }
}

/// A write that is complete stays as it is.
pub proof fn lemma_flush_rests(forest: Forest, answers: Seq<Seq<u8>>, k: nat, n: nat)
    requires
        k <= n,
        flush(forest, answers, k).root is Some,
    ensures
        flush(forest, answers, n) == flush(forest, answers, k),
    decreases n,
{
    if n > k {
        lemma_flush_rests(forest, answers, k, (n - 1) as nat);
    }
}

/// As long as a tree waits to be written, the tree that lists it waits as
/// well, lower on the stack of parents: no parent leaves the stacks before
/// its children.
pub proof fn lemma_parents_wait_for_children(forest: Forest, answers: Seq<Seq<u8>>, n: nat)
    requires
        well_formed(forest),
        forest.contains_key(root_key()),
        flush(forest, answers, n).root is None,
    ensures
        ({
            let s = flush(forest, answers, n);
            &&& forall|j: int|
                0 <= j < s.children.len() ==> (#[trigger] s.children[j]).parent is Some && listed(
                    s.children[j],
                    s.parents,
                    s.parents.len() as int,
                )
            &&& forall|j: int|
                0 <= j < s.parents.len() ==> listed(#[trigger] s.parents[j], s.parents, j)
        }),
{
    lemma_flush_in_order(forest, answers, n);
}

/// A tree below the root that has no pending subtree, and no entries left
/// when its placeholders are dropped, is not handed to the sink: the entry
/// that lists it is removed from its parent.
pub proof fn lemma_empty_subtree_is_pruned(s: Flush, answer: Seq<u8>)
    requires
        orderly(s),
        s.root is None,
        next_frame(s).parent is Some,
        scanned(s).1.len() == 0,
        without_placeholders(next_frame(s).entries).len() == 0,
    ensures
        visit(s, answer).emitted == s.emitted,
        !has_name(
            visit(s, answer).parents[next_frame(s).parent->0].entries,
            last_component(next_frame(s).path),
        ),
{
}

/// Writing what was just written hands the same root to the sink and
/// nothing else, and leaves it filed as it is.
pub proof fn lemma_settled_is_written_as_it_is(forest: Forest, answers: Seq<Seq<u8>>)
    requires
        settled(forest),
        canonical(forest[root_key()]),
    ensures
        flush(forest, answers, 1).forest == forest,
        flush(forest, answers, 1).root == Some(answers[0]),
        flush(forest, answers, 1).emitted == seq![
            Emission { path: Seq::<u8>::empty(), tree: forest[root_key()], id: answers[0] },
        ],
{
    let s = begin(forest);
    let root = forest[root_key()];
    let frame = next_frame(s);
    assert(s.forest.dom() =~= Set::<Seq<u8>>::empty());
    lemma_no_pending(s.forest, frame.path, frame.entries, 0, frame.entries.len() as int);
    lemma_without_placeholders(root);
    assert(flush(forest, answers, 0) == s);
}

/// Where nothing is filed, a scan finds nothing.
pub proof fn lemma_no_pending(
    forest: Forest,
    path: Seq<u8>,
    entries: Seq<EntryView>,
    parent: int,
    n: int,
)
    requires
        forest.dom() == Set::<Seq<u8>>::empty(),
    ensures
        scan(forest, path, entries, parent, n) == (forest, Seq::<FrameView>::empty()),
    decreases n,
{
    if n > 0 {
        lemma_no_pending(forest, path, entries, parent, n - 1);
    }
}

/// A second write right after a write changes nothing: however many
/// frames it is followed through, it has handed out the root alone and
/// left it filed as the first write left it.
pub proof fn lemma_write_again(forest: Forest, answers: Seq<Seq<u8>>, n: nat)
    requires
        settled(forest),
        canonical(forest[root_key()]),
        n >= 1,
    ensures
        flush(forest, answers, n).forest == forest,
        flush(forest, answers, n).root == Some(answers[0]),
        flush(forest, answers, n).emitted == seq![
            Emission { path: Seq::<u8>::empty(), tree: forest[root_key()], id: answers[0] },
        ],
{
    lemma_settled_is_written_as_it_is(forest, answers);
    lemma_flush_rests(forest, answers, 1, n);
}

/// Whether the path `q` is neither `p` nor leads into the tree at `p`.
pub open spec fn apart(q: Seq<u8>, p: Seq<u8>) -> bool {
    q != p && !inside(q, p)
}

/// Whether no tree was handed out before a tree inside it.
pub open spec fn children_first(emitted: Seq<Emission>) -> bool {
    forall|x: int, y: int|
        0 <= x < y < emitted.len() ==> !inside(
            (#[trigger] emitted[y]).path,
            (#[trigger] emitted[x]).path,
        )
}

/// What holds of the paths in the state of a write as long as the root is
/// not written: no tree is filed under the key of a path that waits or was
/// handed out, no two waiting frames have one path, and no waiting frame
/// has the path of a tree that was handed out or a path inside it.
pub open spec fn traced(s: Flush) -> bool {
    &&& forall|j: int|
        0 <= j < s.parents.len() ==> !s.forest.contains_key(
            path_key((#[trigger] s.parents[j]).path),
        )
    &&& forall|j: int|
        0 <= j < s.children.len() ==> !s.forest.contains_key(
            path_key((#[trigger] s.children[j]).path),
        )
    &&& forall|k: int|
        0 <= k < s.emitted.len() ==> !s.forest.contains_key(
            path_key((#[trigger] s.emitted[k]).path),
        )
    &&& forall|a: int, b: int|
        0 <= a < b < s.parents.len() ==> (#[trigger] s.parents[a]).path != (
        #[trigger] s.parents[b]).path
    &&& forall|a: int, b: int|
        0 <= a < b < s.children.len() ==> (#[trigger] s.children[a]).path != (
        #[trigger] s.children[b]).path
    &&& forall|a: int, b: int|
        0 <= a < s.parents.len() && 0 <= b < s.children.len() ==> (#[trigger] s.parents[a]).path
            != (#[trigger] s.children[b]).path
    &&& forall|k: int, j: int|
        0 <= k < s.emitted.len() && 0 <= j < s.parents.len() ==> apart(
            (#[trigger] s.parents[j]).path,
            (#[trigger] s.emitted[k]).path,
        )
    &&& forall|k: int, j: int|
        0 <= k < s.emitted.len() && 0 <= j < s.children.len() ==> apart(
            (#[trigger] s.children[j]).path,
            (#[trigger] s.emitted[k]).path,
        )
    &&& children_first(s.emitted)
}

/// A waiting frame whose path leads into the tree at `p` has an ancestor
/// with the path `p` that waits on the stack of parents below `bound`.
pub proof fn lemma_ancestor_waits(s: Flush, frame: FrameView, bound: int, p: Seq<u8>) -> (i: int)
    requires
        orderly(s),
        listed(frame, s.parents, bound),
        bound <= s.parents.len(),
        inside(frame.path, p),
    ensures
        0 <= i < bound,
        s.parents[i].path == p,
    decreases bound,
{
    let j = frame.parent->0;
    let name = last_component(frame.path);
    lemma_inside_joined(s.parents[j].path, name, p);
    if p == s.parents[j].path {
        j
    } else {
        lemma_ancestor_waits(s, s.parents[j], j, p)
    }
}

/// Looking at a frame keeps the paths of the write in order: what is
/// handed out lies in no tree that was handed out before.
#[verifier::rlimit(30)]
pub proof fn lemma_visit_traced(s: Flush, answer: Seq<u8>)
    requires
        orderly(s),
        traced(s),
        s.root is None,
    ensures
        visit(s, answer).root is None ==> traced(visit(s, answer)),
        children_first(visit(s, answer).emitted),
{
    let frame = next_frame(s);
    let parents = other_parents(s);
    let children = other_children(s);
    let top = parents.len() as int;
    lemma_scan(s.forest, frame.path, frame.entries, top, frame.entries.len() as int);
    let (forest, found) = scanned(s);
    if found.len() > 0 {
        assert forall|x: int| 0 <= x < found.len() implies {
            &&& !forest.contains_key(path_key((#[trigger] found[x]).path))
            &&& s.forest.contains_key(path_key(found[x].path))
            &&& found[x].path != frame.path
            &&& forall|k: int|
                0 <= k < s.emitted.len() ==> apart(found[x].path, (#[trigger] s.emitted[k]).path)
        } by {
            let name = last_component(found[x].path);
            assert forall|k: int| 0 <= k < s.emitted.len() implies apart(
                found[x].path,
                (#[trigger] s.emitted[k]).path,
            ) by {
                if inside(found[x].path, s.emitted[k].path) {
                    lemma_inside_joined(frame.path, name, s.emitted[k].path);
                }
            }
        }
    } else {
        // No other waiting frame lies inside the tree of the frame that leaves.
        assert forall|j: int| 0 <= j < parents.len() implies apart(
            (#[trigger] parents[j]).path,
            frame.path,
        ) by {
            if inside(parents[j].path, frame.path) {
                lemma_ancestor_waits(s, s.parents[j], j, frame.path);
            }
        }
        assert forall|j: int| 0 <= j < children.len() implies apart(
            (#[trigger] children[j]).path,
            frame.path,
        ) by {
            if inside(children[j].path, frame.path) {
                lemma_ancestor_waits(s, s.children[j], s.parents.len() as int, frame.path);
            }
        }
    }
}

/// In every write, a tree that contains another tree that is written, too,
/// is handed to the sink after it: no tree is handed out before a tree
/// inside it.
pub proof fn lemma_subtrees_are_written_first(forest: Forest, answers: Seq<Seq<u8>>, n: nat)
    requires
        well_formed(forest),
        forest.contains_key(root_key()),
    ensures
        children_first(flush(forest, answers, n).emitted),
        flush(forest, answers, n).root is None ==> traced(flush(forest, answers, n)),
    decreases n,
{
    if n > 0 {
        let before = flush(forest, answers, (n - 1) as nat);
        lemma_subtrees_are_written_first(forest, answers, (n - 1) as nat);
        lemma_flush_in_order(forest, answers, (n - 1) as nat);
        if before.root is None {
            lemma_visit_traced(before, answers[n - 1]);
        }
    }
}

} // verus!
