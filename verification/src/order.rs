//! The order of the entries of a tree.
//!
//! Entries are ordered by their names, byte by byte, where the name of a
//! tree counts as if a `/` followed it. Two names are compared up to the
//! end of the shorter one and one position further: there the shorter name
//! contributes its `/` if it names a tree, and nothing otherwise.
use crate::entry::{Entry, EntryView};
use crate::path::{no_separator, SEPARATOR};
use core::cmp::Ordering;
use vstd::prelude::*;

verus! {

/// The value that the entry `(name, is_tree)` has at position `i` of its
/// sort key: one more than the byte of the name there, one more than `/`
/// right behind the name of a tree, and zero wherever the key has ended.
pub open spec fn digit(name: Seq<u8>, is_tree: bool, i: int) -> int {
    if 0 <= i < name.len() {
        name[i] + 1
    } else if i == name.len() && is_tree {
        SEPARATOR + 1
    } else {
        0
    }
}

/// The length of the shorter of two names.
pub open spec fn common_len(a: Seq<u8>, b: Seq<u8>) -> int {
    if a.len() <= b.len() {
        a.len() as int
    } else {
        b.len() as int
    }
}

/// Whether the sort keys of the two entries are alike before position `k`.
pub open spec fn agree_before(
    a: Seq<u8>,
    a_is_tree: bool,
    b: Seq<u8>,
    b_is_tree: bool,
    k: int,
) -> bool {
    forall|i: int| 0 <= i < k ==> digit(a, a_is_tree, i) == digit(b, b_is_tree, i)
}

/// Whether the sort keys are alike before position `k` and the first is
/// smaller there.
pub open spec fn splits_at(
    a: Seq<u8>,
    a_is_tree: bool,
    b: Seq<u8>,
    b_is_tree: bool,
    k: int,
) -> bool {
    &&& 0 <= k <= common_len(a, b)
    &&& agree_before(a, a_is_tree, b, b_is_tree, k)
    &&& digit(a, a_is_tree, k) < digit(b, b_is_tree, k)
}

/// Whether the entry `(a, a_is_tree)` comes before the entry
/// `(b, b_is_tree)` in a tree.
pub open spec fn sorts_before(a: Seq<u8>, a_is_tree: bool, b: Seq<u8>, b_is_tree: bool) -> bool {
    exists|k: int| #[trigger] splits_at(a, a_is_tree, b, b_is_tree, k)
}

/// Whether entry `a` comes before entry `b` in a tree.
pub open spec fn entry_before(a: EntryView, b: EntryView) -> bool {
    sorts_before(a.name, a.is_tree(), b.name, b.is_tree())
}

/// No entry comes before itself.
pub proof fn lemma_before_irreflexive(a: Seq<u8>, a_is_tree: bool)
    ensures
        !sorts_before(a, a_is_tree, a, a_is_tree),
{
}

/// Of two entries at most one comes before the other.
pub proof fn lemma_before_asymmetric(a: Seq<u8>, a_is_tree: bool, b: Seq<u8>, b_is_tree: bool)
    requires
        sorts_before(a, a_is_tree, b, b_is_tree),
    ensures
        !sorts_before(b, b_is_tree, a, a_is_tree),
{
}

/// The order is transitive.
pub proof fn lemma_before_transitive(
    a: Seq<u8>,
    a_is_tree: bool,
    b: Seq<u8>,
    b_is_tree: bool,
    c: Seq<u8>,
    c_is_tree: bool,
)
    requires
        sorts_before(a, a_is_tree, b, b_is_tree),
        sorts_before(b, b_is_tree, c, c_is_tree),
    ensures
        sorts_before(a, a_is_tree, c, c_is_tree),
{
    let k1 = choose|k: int| #[trigger] splits_at(a, a_is_tree, b, b_is_tree, k);
    let k2 = choose|k: int| #[trigger] splits_at(b, b_is_tree, c, c_is_tree, k);
    let k = if k1 <= k2 {
        k1
    } else {
        k2
    };
    assert(splits_at(a, a_is_tree, c, c_is_tree, k));
}

/// Two entries of which neither comes before the other have sort keys that
/// are alike up to the end of the shorter name and one position further.
pub proof fn lemma_unordered_agree(a: Seq<u8>, a_is_tree: bool, b: Seq<u8>, b_is_tree: bool, k: int)
    requires
        !sorts_before(a, a_is_tree, b, b_is_tree),
        !sorts_before(b, b_is_tree, a, a_is_tree),
        0 <= k <= common_len(a, b) + 1,
    ensures
        agree_before(a, a_is_tree, b, b_is_tree, k),
    decreases k,
{
    if k > 0 {
        lemma_unordered_agree(a, a_is_tree, b, b_is_tree, k - 1);
        assert(!splits_at(a, a_is_tree, b, b_is_tree, k - 1));
        assert(!splits_at(b, b_is_tree, a, a_is_tree, k - 1));
    }
}

/// Two entries whose names hold no `/`, and of which neither comes before
/// the other, have the same name and are both trees or both not.
pub proof fn lemma_unordered_are_same(a: Seq<u8>, a_is_tree: bool, b: Seq<u8>, b_is_tree: bool)
    requires
        no_separator(a),
        no_separator(b),
        !sorts_before(a, a_is_tree, b, b_is_tree),
        !sorts_before(b, b_is_tree, a, a_is_tree),
    ensures
        a == b,
        a_is_tree == b_is_tree,
{
    let n = common_len(a, b);
    lemma_unordered_agree(a, a_is_tree, b, b_is_tree, n + 1);
    assert(digit(a, a_is_tree, n) == digit(b, b_is_tree, n));
    assert forall|i: int| 0 <= i < n implies a[i] == b[i] by {
        assert(digit(a, a_is_tree, i) == digit(b, b_is_tree, i));
    }
}

/// Entries with one name differ in order only by their kind: what is not a
/// tree comes first.
pub proof fn lemma_same_name_order(name: Seq<u8>, a_is_tree: bool, b_is_tree: bool)
    ensures
        sorts_before(name, a_is_tree, name, b_is_tree) <==> (!a_is_tree && b_is_tree),
{
    if !a_is_tree && b_is_tree {
        assert(splits_at(name, a_is_tree, name, b_is_tree, name.len() as int));
    }
}

/// The index `i` as a mathematical integer.
pub open spec fn position(i: usize) -> int {
    i as int
}

/// Whether, in `entries`, every entry comes before all that follow it.
pub open spec fn ascending(entries: Seq<EntryView>) -> bool {
    forall|i: int, j: int| 0 <= i < j < entries.len() ==> entry_before(entries[i], entries[j])
}

/// Compares the entry `a` with an entry named `filename` that is a tree if
/// `is_tree` is set.
pub fn cmp_entry_with_name(a: &Entry, filename: &[u8], is_tree: bool) -> (r: Ordering)
    ensures
        r == Ordering::Less <==> sorts_before(a@.name, a@.is_tree(), filename@, is_tree),
        r == Ordering::Greater <==> sorts_before(filename@, is_tree, a@.name, a@.is_tree()),
{
    let ghost an = a@.name;
    let ghost at = a@.is_tree();
    let ghost bn = filename@;
    let a_len = a.filename.len();
    let b_len = filename.len();
    let common = if a_len <= b_len {
        a_len
    } else {
        b_len
    };
    let mut i: usize = 0;
    while i < common
        invariant
            i <= common,
            common == common_len(an, bn),
            an == a@.name,
            at == a@.is_tree(),
            bn == filename@,
            agree_before(an, at, bn, is_tree, position(i)),
        decreases common - i,
    {
        let x = a.filename[i];
        let y = filename[i];
        if x < y {
            proof {
                assert(splits_at(an, at, bn, is_tree, position(i)));
            }
            return Ordering::Less;
        }
        if x > y {
            proof {
                assert(splits_at(bn, is_tree, an, at, position(i)));
            }
            return Ordering::Greater;
        }
        i += 1;
    }
    let a_tree = a.mode.is_tree();
    let x: Option<u8> = if common < a_len {
        Some(a.filename[common])
    } else if a_tree {
        Some(SEPARATOR)
    } else {
        None
    };
    let y: Option<u8> = if common < b_len {
        Some(filename[common])
    } else if is_tree {
        Some(SEPARATOR)
    } else {
        None
    };
    let ghost dx = digit(an, at, position(common));
    let ghost dy = digit(bn, is_tree, position(common));
    let r = match (x, y) {
        (None, None) => Ordering::Equal,
        (None, Some(_)) => Ordering::Less,
        (Some(_), None) => Ordering::Greater,
        (Some(v), Some(w)) => if v < w {
            Ordering::Less
        } else if v > w {
            Ordering::Greater
        } else {
            Ordering::Equal
        },
    };
    proof {
        if dx < dy {
            assert(splits_at(an, at, bn, is_tree, position(common)));
        } else if dx > dy {
            assert(splits_at(bn, is_tree, an, at, position(common)));
        }
    }
    r
}

/// Looks in `entries` for the entry that equals `(filename, is_tree)` in
/// the order. Returns its index in `Ok`, or in `Err` the index at which
/// such an entry would have to be inserted.
pub fn search(entries: &Vec<Entry>, filename: &[u8], is_tree: bool) -> (r: Result<usize, usize>)
    requires
        ascending(crate::entry::views(entries@)),
    ensures
        match r {
            Ok(i) => {
                &&& i < entries@.len()
                &&& !sorts_before(
                    entries@[position(i)]@.name,
                    entries@[position(i)]@.is_tree(),
                    filename@,
                    is_tree,
                )
                &&& !sorts_before(
                    filename@,
                    is_tree,
                    entries@[position(i)]@.name,
                    entries@[position(i)]@.is_tree(),
                )
            },
            Err(i) => {
                &&& i <= entries@.len()
                &&& forall|k: int|
                    0 <= k < i ==> sorts_before(
                        (#[trigger] entries@[k])@.name,
                        entries@[k]@.is_tree(),
                        filename@,
                        is_tree,
                    )
                &&& forall|k: int|
                    i <= k < entries@.len() ==> sorts_before(
                        filename@,
                        is_tree,
                        (#[trigger] entries@[k])@.name,
                        entries@[k]@.is_tree(),
                    )
            },
        },
{
    let ghost all = crate::entry::views(entries@);
    let mut lo: usize = 0;
    let mut hi: usize = entries.len();
    while lo < hi
        invariant
            lo <= hi <= entries@.len(),
            all == crate::entry::views(entries@),
            ascending(all),
            forall|k: int|
                0 <= k < lo ==> sorts_before(
                    (#[trigger] entries@[k])@.name,
                    entries@[k]@.is_tree(),
                    filename@,
                    is_tree,
                ),
            forall|k: int|
                hi <= k < entries@.len() ==> sorts_before(
                    filename@,
                    is_tree,
                    (#[trigger] entries@[k])@.name,
                    entries@[k]@.is_tree(),
                ),
        decreases hi - lo,
    {
        let mid = lo + (hi - lo) / 2;
        let ghost m = position(mid);
        match cmp_entry_with_name(&entries[mid], filename, is_tree) {
            Ordering::Less => {
                proof {
                    assert forall|k: int| 0 <= k < m + 1 implies sorts_before(
                        (#[trigger] entries@[k])@.name,
                        entries@[k]@.is_tree(),
                        filename@,
                        is_tree,
                    ) by {
                        if k < m {
                            assert(entry_before(all[k], all[m]));
                            lemma_before_transitive(
                                entries@[k]@.name,
                                entries@[k]@.is_tree(),
                                entries@[m]@.name,
                                entries@[m]@.is_tree(),
                                filename@,
                                is_tree,
                            );
                        }
                    }
                }
                lo = mid + 1;
            },
            Ordering::Greater => {
                proof {
                    assert forall|k: int| m <= k < entries@.len() implies sorts_before(
                        filename@,
                        is_tree,
                        (#[trigger] entries@[k])@.name,
                        entries@[k]@.is_tree(),
                    ) by {
                        if m < k {
                            assert(entry_before(all[m], all[k]));
                            lemma_before_transitive(
                                filename@,
                                is_tree,
                                entries@[m]@.name,
                                entries@[m]@.is_tree(),
                                entries@[k]@.name,
                                entries@[k]@.is_tree(),
                            );
                        }
                    }
                }
                hi = mid;
            },
            Ordering::Equal => {
                return Ok(mid);
            },
        }
    }
    Err(lo)
}

} // verus!
