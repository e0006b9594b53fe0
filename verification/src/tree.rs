//! Trees: sequences of entries in canonical form.
//!
//! A sequence of entries is canonical if no name is empty or holds a `/`,
//! no name occurs twice, and every entry comes before all that follow it.
//! The type [`Tree`] holds canonical sequences only.
use crate::entry::{views, Entry, EntryView};
use crate::order::{
    ascending, cmp_entry_with_name, entry_before, lemma_before_transitive,
    lemma_unordered_are_same, position, search, sorts_before,
};
use crate::path::{no_separator, valid_name, SEPARATOR};
use core::cmp::Ordering;
use vstd::prelude::*;

verus! {

/// Whether `s` is in canonical form.
pub open spec fn canonical(s: Seq<EntryView>) -> bool {
    &&& forall|i: int| 0 <= i < s.len() ==> valid_name(#[trigger] s[i].name)
    &&& ascending(s)
    &&& forall|i: int, j: int| 0 <= i < j < s.len() ==> s[i].name != s[j].name
}

/// Whether `s` has an entry named `name`.
pub open spec fn has_name(s: Seq<EntryView>, name: Seq<u8>) -> bool {
    exists|i: int| 0 <= i < s.len() && #[trigger] s[i].name == name
}

/// The index of an entry of `s` named `name`, where there is one.
pub open spec fn name_index(s: Seq<EntryView>, name: Seq<u8>) -> int {
    choose|i: int| 0 <= i < s.len() && #[trigger] s[i].name == name
}

/// The number of entries of `s` that come before the entry
/// `(name, is_tree)`: the index at which it is inserted.
pub open spec fn rank(s: Seq<EntryView>, name: Seq<u8>, is_tree: bool) -> int
    decreases s.len(),
{
    if s.len() == 0 {
        0
    } else {
        rank(s.drop_last(), name, is_tree) + if sorts_before(
            s.last().name,
            s.last().is_tree(),
            name,
            is_tree,
        ) {
            1int
        } else {
            0int
        }
    }
}

/// `s` without its entry named `name`.
pub open spec fn without_name(s: Seq<EntryView>, name: Seq<u8>) -> Seq<EntryView> {
    if has_name(s, name) {
        s.remove(name_index(s, name))
    } else {
        s
    }
}

/// `s` with the entry `e` in place of any entry of the same name, at the
/// index that the order gives it.
pub open spec fn with_entry(s: Seq<EntryView>, e: EntryView) -> Seq<EntryView> {
    let rest = without_name(s, e.name);
    rest.insert(rank(rest, e.name, e.is_tree()), e)
}

/// `s` with the identifier `id` in its entry named `name`.
pub open spec fn with_id(s: Seq<EntryView>, name: Seq<u8>, id: Seq<u8>) -> Seq<EntryView> {
    if has_name(s, name) {
        let i = name_index(s, name);
        s.update(i, EntryView { mode: s[i].mode, name: s[i].name, id })
    } else {
        s
    }
}

/// `s` without its placeholders.
pub open spec fn without_placeholders(s: Seq<EntryView>) -> Seq<EntryView> {
    s.filter(|e: EntryView| !e.is_placeholder())
}

/// Whether no entry of `s` is a placeholder.
pub open spec fn no_placeholders(s: Seq<EntryView>) -> bool {
    forall|i: int| 0 <= i < s.len() ==> !(#[trigger] s[i]).is_placeholder()
}

/// In a canonical sequence a name stands at one index only.
pub proof fn lemma_name_index(s: Seq<EntryView>, i: int)
    requires
        canonical(s),
        0 <= i < s.len(),
    ensures
        has_name(s, s[i].name),
        name_index(s, s[i].name) == i,
{
}

/// An index before which all entries come before `(name, is_tree)`, and
/// from which on none does, is the rank.
pub proof fn lemma_rank_is_split(s: Seq<EntryView>, name: Seq<u8>, is_tree: bool, i: int)
    requires
        0 <= i <= s.len(),
        forall|k: int|
            0 <= k < i ==> sorts_before((#[trigger] s[k]).name, s[k].is_tree(), name, is_tree),
        forall|k: int|
            i <= k < s.len() ==> !sorts_before(
                (#[trigger] s[k]).name,
                s[k].is_tree(),
                name,
                is_tree,
            ),
    ensures
        rank(s, name, is_tree) == i,
    decreases s.len(),
{
    if s.len() > 0 {
        let t = s.drop_last();
        if i == s.len() {
            lemma_rank_is_split(t, name, is_tree, i - 1);
        } else {
            lemma_rank_is_split(t, name, is_tree, i);
        }
    }
}

/// In an ascending sequence the entries before the rank of `(name, is_tree)`
/// come before it, and those from the rank on do not.
pub proof fn lemma_rank_splits(s: Seq<EntryView>, name: Seq<u8>, is_tree: bool)
    requires
        ascending(s),
    ensures
        0 <= rank(s, name, is_tree) <= s.len(),
        forall|k: int|
            0 <= k < rank(s, name, is_tree) ==> sorts_before(
                (#[trigger] s[k]).name,
                s[k].is_tree(),
                name,
                is_tree,
            ),
        forall|k: int|
            rank(s, name, is_tree) <= k < s.len() ==> !sorts_before(
                (#[trigger] s[k]).name,
                s[k].is_tree(),
                name,
                is_tree,
            ),
    decreases s.len(),
{
    if s.len() > 0 {
        let t = s.drop_last();
        let last = s.last();
        lemma_rank_splits(t, name, is_tree);
        let r = rank(t, name, is_tree);
        if sorts_before(last.name, last.is_tree(), name, is_tree) {
            assert forall|k: int| 0 <= k < s.len() implies sorts_before(
                (#[trigger] s[k]).name,
                s[k].is_tree(),
                name,
                is_tree,
            ) by {
                if k < s.len() - 1 {
                    assert(entry_before(s[k], s[s.len() - 1]));
                    lemma_before_transitive(
                        s[k].name,
                        s[k].is_tree(),
                        last.name,
                        last.is_tree(),
                        name,
                        is_tree,
                    );
                }
            }
        } else {
            assert forall|k: int| 0 <= k < r implies sorts_before(
                (#[trigger] s[k]).name,
                s[k].is_tree(),
                name,
                is_tree,
            ) by {
                assert(t[k] == s[k]);
            }
            assert forall|k: int| r <= k < s.len() implies !sorts_before(
                (#[trigger] s[k]).name,
                s[k].is_tree(),
                name,
                is_tree,
            ) by {
                if k < t.len() {
                    assert(t[k] == s[k]);
                }
            }
        }
    }
}

/// Inserting an entry with a new, valid name at its rank into a canonical
/// sequence gives a canonical sequence.
pub proof fn lemma_insert_canonical(s: Seq<EntryView>, e: EntryView)
    requires
        canonical(s),
        valid_name(e.name),
        !has_name(s, e.name),
    ensures
        0 <= rank(s, e.name, e.is_tree()) <= s.len(),
        canonical(s.insert(rank(s, e.name, e.is_tree()), e)),
{
    lemma_rank_splits(s, e.name, e.is_tree());
    let r = rank(s, e.name, e.is_tree());
    let t = s.insert(r, e);
    assert forall|a: int, b: int| 0 <= a < b < t.len() implies entry_before(t[a], t[b])
        && t[a].name != t[b].name by {
        if a == r {
            let x = s[b - 1];
            if !sorts_before(e.name, e.is_tree(), x.name, x.is_tree()) {
                lemma_unordered_are_same(x.name, x.is_tree(), e.name, e.is_tree());
            }
        }
    }
}

/// Changing the identifier of an entry leaves a canonical sequence
/// canonical.
pub proof fn lemma_update_id_canonical(s: Seq<EntryView>, i: int, id: Seq<u8>)
    requires
        canonical(s),
        0 <= i < s.len(),
    ensures
        canonical(s.update(i, EntryView { mode: s[i].mode, name: s[i].name, id })),
{
    let t = s.update(i, EntryView { mode: s[i].mode, name: s[i].name, id });
    assert forall|a: int, b: int| 0 <= a < b < t.len() implies entry_before(t[a], t[b])
        && t[a].name != t[b].name by {
        assert(entry_before(s[a], s[b]));
    }
}

/// The canonical form of a set of entries is unique: putting an entry at
/// the place of one of the same name and kind is the same as taking that
/// one out and inserting the new one at its rank.
pub proof fn lemma_replace_in_place(s: Seq<EntryView>, i: int, e: EntryView)
    requires
        canonical(s),
        0 <= i < s.len(),
        e.name == s[i].name,
        e.is_tree() == s[i].is_tree(),
    ensures
        with_entry(s, e) == s.update(i, e),
{
    let t = s.remove(i);
    assert forall|k: int| 0 <= k < i implies sorts_before(
        (#[trigger] t[k]).name,
        t[k].is_tree(),
        e.name,
        e.is_tree(),
    ) by {
        assert(entry_before(s[k], s[i]));
    }
    assert forall|k: int| i <= k < t.len() implies !sorts_before(
        (#[trigger] t[k]).name,
        t[k].is_tree(),
        e.name,
        e.is_tree(),
    ) by {
        assert(entry_before(s[i], s[k + 1]));
    }
    lemma_rank_is_split(t, e.name, e.is_tree(), i);
}

/// With an entry of a valid name, a canonical sequence is canonical and
/// holds that entry at its rank.
pub proof fn lemma_with_entry_canonical(s: Seq<EntryView>, e: EntryView)
    requires
        canonical(s),
        valid_name(e.name),
    ensures
        canonical(with_entry(s, e)),
        0 <= rank(without_name(s, e.name), e.name, e.is_tree()) < with_entry(s, e).len(),
        with_entry(s, e)[rank(without_name(s, e.name), e.name, e.is_tree())] == e,
{
    lemma_insert_canonical(without_name(s, e.name), e);
}

/// Putting an entry where it stands already changes nothing.
pub proof fn lemma_with_entry_twice(s: Seq<EntryView>, e: EntryView)
    requires
        canonical(s),
        valid_name(e.name),
    ensures
        with_entry(with_entry(s, e), e) == with_entry(s, e),
{
    lemma_with_entry_canonical(s, e);
    let once = with_entry(s, e);
    let at = rank(without_name(s, e.name), e.name, e.is_tree());
    lemma_replace_in_place(once, at, e);
}

/// A canonical sequence stays canonical when it loses its placeholders,
/// and holds none then.
pub proof fn lemma_without_placeholders(s: Seq<EntryView>)
    requires
        canonical(s),
    ensures
        canonical(without_placeholders(s)),
        no_placeholders(without_placeholders(s)),
        no_placeholders(s) ==> without_placeholders(s) == s,
    decreases s.len(),
{
    let keep = |e: EntryView| !e.is_placeholder();
    reveal(Seq::filter);
    if s.len() > 0 {
        let t = s.drop_last();
        lemma_without_placeholders(t);
        let r = without_placeholders(t);
        if keep(s.last()) {
            assert forall|k: int| 0 <= k < r.len() implies entry_before(
                #[trigger] r[k],
                s.last(),
            ) && r[k].name != s.last().name by {
                t.lemma_filter_contains_rev(keep, r[k]);
            }
        }
    }
}

/// A tree: a sequence of entries in canonical form.
#[derive(Debug, PartialEq, Eq)]
pub struct Tree {
    entries: Vec<Entry>,
}

impl View for Tree {
    type V = Seq<EntryView>;

    closed spec fn view(&self) -> Seq<EntryView> {
        views(self.entries@)
    }
}

impl Tree {
    /// Every tree is canonical.
    #[verifier::type_invariant]
    pub open spec fn is_canonical(&self) -> bool {
        canonical(self@)
    }

    /// The tree without entries.
    pub fn empty() -> (tree: Tree)
        ensures
            tree@ == Seq::<EntryView>::empty(),
    {
        let entries: Vec<Entry> = Vec::new();
        Tree { entries }
    }

    /// The tree made of `entries`, if they are in canonical form.
    pub fn from_entries(entries: Vec<Entry>) -> (tree: Option<Tree>)
        ensures
            tree is Some <==> canonical(views(entries@)),
            tree matches Some(t) ==> t@ == views(entries@),
    {
        if is_canonical_form(&entries) {
            Some(Tree { entries })
        } else {
            None
        }
    }

    /// The tree made of `entries`, which are in canonical form.
    pub(crate) fn from_canonical(entries: Vec<Entry>) -> (tree: Tree)
        requires
            canonical(views(entries@)),
        ensures
            tree@ == views(entries@),
    {
        Tree { entries }
    }

    /// The entries of the tree, in order.
    pub fn entries(&self) -> (entries: &Vec<Entry>)
        ensures
            views(entries@) == self@,
            canonical(self@),
    {
        proof {
            use_type_invariant(self);
        }
        &self.entries
    }

    /// Gives up the tree for its entries.
    pub fn into_entries(self) -> (entries: Vec<Entry>)
        ensures
            views(entries@) == self@,
            canonical(self@),
    {
        proof {
            use_type_invariant(&self);
        }
        self.entries
    }

    /// The number of entries.
    pub fn len(&self) -> (n: usize)
        ensures
            n == self@.len(),
    {
        self.entries.len()
    }

    /// Whether the tree has no entries.
    pub fn is_empty(&self) -> (b: bool)
        ensures
            b == (self@.len() == 0),
    {
        self.entries.len() == 0
    }
}

impl Clone for Tree {
    fn clone(&self) -> (copy: Tree)
        ensures
            copy@ == self@,
    {
        proof {
            use_type_invariant(self);
        }
        let mut entries: Vec<Entry> = Vec::new();
        let mut i: usize = 0;
        while i < self.entries.len()
            invariant
                i <= self.entries@.len(),
                entries@.len() == i,
                forall|k: int| 0 <= k < i ==> entries@[k]@ == self.entries@[k]@,
            decreases self.entries@.len() - i,
        {
            entries.push(self.entries[i].clone());
            i += 1;
        }
        assert(views(entries@) =~= views(self.entries@));
        Tree { entries }
    }
}

impl Default for Tree {
    fn default() -> (tree: Tree)
        ensures
            tree@ == Seq::<EntryView>::empty(),
    {
        Tree::empty()
    }
}

/// Whether `entries` are in canonical form.
pub fn is_canonical_form(entries: &Vec<Entry>) -> (b: bool)
    ensures
        b == canonical(views(entries@)),
{
    let ghost s = views(entries@);
    let n = entries.len();
    let mut i: usize = 0;
    while i < n
        invariant
            i <= n,
            n == entries@.len(),
            s == views(entries@),
            forall|k: int| 0 <= k < i ==> valid_name(#[trigger] s[k].name),
            forall|a: int, b: int| 0 <= a < b < i ==> entry_before(s[a], s[b]),
        decreases n - i,
    {
        let ghost at = position(i);
        if !is_valid_name(entries[i].filename.as_slice()) {
            assert(!valid_name(s[at].name));
            return false;
        }
        if i > 0 {
            let r = cmp_entry_with_name(
                &entries[i - 1],
                entries[i].filename.as_slice(),
                entries[i].mode.is_tree(),
            );
            match r {
                Ordering::Less => {
                    assert forall|a: int| 0 <= a < at implies entry_before(s[a], s[at]) by {
                        if a < at - 1 {
                            assert(entry_before(s[a], s[at - 1]));
                            lemma_before_transitive(
                                s[a].name,
                                s[a].is_tree(),
                                s[at - 1].name,
                                s[at - 1].is_tree(),
                                s[at].name,
                                s[at].is_tree(),
                            );
                        }
                    }
                },
                _ => {
                    assert(!entry_before(s[at - 1], s[at]));
                    return false;
                },
            }
        }
        i += 1;
    }
    let mut j: usize = 0;
    while j < n
        invariant
            j <= n,
            n == entries@.len(),
            s == views(entries@),
            forall|k: int| 0 <= k < n ==> valid_name(#[trigger] s[k].name),
            ascending(s),
            forall|a: int, b: int| 0 <= a < b < j ==> s[a].name != s[b].name,
        decreases n - j,
    {
        let ghost at = position(j);
        if entries[j].mode.is_tree() {
            match search(entries, entries[j].filename.as_slice(), false) {
                Ok(p) => {
                    let ghost twin = position(p);
                    proof {
                        lemma_unordered_are_same(
                            s[twin].name,
                            s[twin].is_tree(),
                            s[at].name,
                            false,
                        );
                    }
                    return false;
                },
                Err(p) => {
                    assert forall|a: int| 0 <= a < at implies s[a].name != s[at].name by {
                        if s[a].name == s[at].name {
                            assert(entry_before(s[a], s[at]));
                        }
                    }
                },
            }
        } else {
            assert forall|a: int| 0 <= a < at implies s[a].name != s[at].name by {
                if s[a].name == s[at].name {
                    assert(entry_before(s[a], s[at]));
                }
            }
        }
        j += 1;
    }
    true
}

/// Whether `name` holds no `/`.
pub fn has_no_separator(name: &[u8]) -> (b: bool)
    ensures
        b == no_separator(name@),
{
    let mut i: usize = 0;
    while i < name.len()
        invariant
            i <= name@.len(),
            forall|k: int| 0 <= k < i ==> name@[k] != SEPARATOR,
        decreases name@.len() - i,
    {
        if name[i] == SEPARATOR {
            return false;
        }
        i += 1;
    }
    true
}

/// Whether `name` can be the name of an entry: it is not empty and holds
/// no `/`.
pub fn is_valid_name(name: &[u8]) -> (b: bool)
    ensures
        b == valid_name(name@),
{
    name.len() > 0 && has_no_separator(name)
}

} // verus!
