use std::cmp::Ordering;
use tree_editor::order::{cmp_entry_with_name, search};
use tree_editor::tree::{has_no_separator, is_canonical_form, is_valid_name};
use tree_editor::level::{edit_level, locate, Next};
use tree_editor::{Entry, EntryKind, EntryMode, ObjectId, Tree};

fn id(seed: u8) -> ObjectId {
    ObjectId::from_bytes([seed; 20])
}

fn entry(name: &str, kind: EntryKind) -> Entry {
    Entry { mode: EntryMode::from(kind), filename: name.as_bytes().to_vec(), oid: id(1) }
}

fn names(entries: &[Entry]) -> Vec<String> {
    entries.iter().map(|e| String::from_utf8(e.filename.clone()).unwrap()).collect()
}

#[test]
fn names_compare_byte_by_byte() {
    let a = entry("abc", EntryKind::Blob);
    assert_eq!(cmp_entry_with_name(&a, b"abd", false), Ordering::Less);
    assert_eq!(cmp_entry_with_name(&a, b"abb", false), Ordering::Greater);
    assert_eq!(cmp_entry_with_name(&a, b"abc", false), Ordering::Equal);
    assert_eq!(cmp_entry_with_name(&a, b"b", false), Ordering::Less);
    assert_eq!(cmp_entry_with_name(&a, b"", false), Ordering::Greater);
}

#[test]
fn a_shorter_name_comes_first_unless_it_names_a_tree() {
    let blob = entry("foo", EntryKind::Blob);
    let dir = entry("foo", EntryKind::Tree);
    assert_eq!(cmp_entry_with_name(&blob, b"foo.txt", false), Ordering::Less);
    assert_eq!(cmp_entry_with_name(&dir, b"foo.txt", false), Ordering::Greater);
    assert_eq!(cmp_entry_with_name(&dir, b"foo0", false), Ordering::Less);
    assert_eq!(cmp_entry_with_name(&blob, b"foobar", true), Ordering::Less);
    let longer = entry("foo.txt", EntryKind::Blob);
    assert_eq!(cmp_entry_with_name(&longer, b"foo", false), Ordering::Greater);
    assert_eq!(cmp_entry_with_name(&longer, b"foo", true), Ordering::Less);
}

#[test]
fn a_tree_comes_after_a_blob_of_the_same_name() {
    let blob = entry("foo", EntryKind::Blob);
    let dir = entry("foo", EntryKind::Tree);
    assert_eq!(cmp_entry_with_name(&blob, b"foo", true), Ordering::Less);
    assert_eq!(cmp_entry_with_name(&dir, b"foo", false), Ordering::Greater);
    assert_eq!(cmp_entry_with_name(&dir, b"foo", true), Ordering::Equal);
    assert_eq!(cmp_entry_with_name(&blob, b"foo", false), Ordering::Equal);
}

#[test]
fn search_finds_entries_and_insertion_points() {
    let entries = vec![
        entry("a", EntryKind::Blob),
        entry("c", EntryKind::Tree),
        entry("e", EntryKind::Blob),
    ];
    assert_eq!(search(&entries, b"a", false), Ok(0));
    assert_eq!(search(&entries, b"a", true), Err(1));
    assert_eq!(search(&entries, b"c", true), Ok(1));
    assert_eq!(search(&entries, b"c", false), Err(1));
    assert_eq!(search(&entries, b"e", false), Ok(2));
    assert_eq!(search(&entries, b"", false), Err(0));
    assert_eq!(search(&entries, b"b", false), Err(1));
    assert_eq!(search(&entries, b"d", true), Err(2));
    assert_eq!(search(&entries, b"f", false), Err(3));
    assert_eq!(search(&Vec::new(), b"f", false), Err(0));
}

#[test]
fn locate_looks_for_the_name_under_both_kinds() {
    let entries = vec![
        entry("foo.txt", EntryKind::Blob),
        entry("foo", EntryKind::Tree),
        entry("zoo", EntryKind::Blob),
    ];
    assert_eq!(locate(&entries, b"foo", false), Ok(1));
    assert_eq!(locate(&entries, b"foo", true), Ok(1));
    assert_eq!(locate(&entries, b"zoo", true), Ok(2));
    // A new name goes where its kind puts it.
    assert_eq!(locate(&entries, b"fo", false), Err(0));
    assert_eq!(locate(&entries, b"foo-", false), Err(0));
    assert_eq!(locate(&entries, b"foo.", false), Err(0));
    assert_eq!(locate(&entries, b"foo.", true), Err(0));
    assert_eq!(locate(&entries, b"foo.tx", true), Err(0));
    assert_eq!(locate(&entries, b"foo.tx", false), Err(0));
    assert_eq!(locate(&entries, b"foo.txt.", true), Err(1));
    assert_eq!(locate(&entries, b"fop", false), Err(2));
}

#[test]
fn canonical_form_is_checked() {
    assert!(is_canonical_form(&Vec::new()));
    assert!(is_canonical_form(&vec![entry("a", EntryKind::Blob), entry("b", EntryKind::Tree)]));
    assert!(is_canonical_form(&vec![entry("foo.txt", EntryKind::Blob), entry("foo", EntryKind::Tree)]));
    assert!(is_canonical_form(&vec![entry("foo", EntryKind::Blob), entry("foo.txt", EntryKind::Blob)]));
    // Out of order.
    assert!(!is_canonical_form(&vec![entry("b", EntryKind::Blob), entry("a", EntryKind::Blob)]));
    assert!(!is_canonical_form(&vec![entry("foo", EntryKind::Tree), entry("foo.txt", EntryKind::Blob)]));
    // A name twice, once as it is and once with another entry in between.
    assert!(!is_canonical_form(&vec![entry("a", EntryKind::Blob), entry("a", EntryKind::Blob)]));
    assert!(!is_canonical_form(&vec![entry("a", EntryKind::Blob), entry("a", EntryKind::Tree)]));
    assert!(!is_canonical_form(&vec![
        entry("foo", EntryKind::Blob),
        entry("foo!", EntryKind::Blob),
        entry("foo", EntryKind::Tree),
    ]));
    // A separator in a name, and a name that is empty.
    assert!(!is_canonical_form(&vec![entry("a/b", EntryKind::Blob)]));
    assert!(!is_canonical_form(&vec![entry("", EntryKind::Blob)]));
    assert!(!is_canonical_form(&vec![entry("", EntryKind::Tree), entry("a", EntryKind::Blob)]));
}

#[test]
fn trees_are_made_of_canonical_entries_only() {
    assert!(Tree::from_entries(vec![entry("b", EntryKind::Blob), entry("a", EntryKind::Blob)]).is_none());
    assert!(Tree::from_entries(vec![entry("a/b", EntryKind::Blob)]).is_none());
    assert!(Tree::from_entries(vec![entry("", EntryKind::Blob)]).is_none());
    assert!(Tree::from_entries(vec![entry("a", EntryKind::Blob), entry("a", EntryKind::Tree)]).is_none());
    let tree = Tree::from_entries(vec![entry("a", EntryKind::Blob), entry("b", EntryKind::Blob)]).unwrap();
    assert_eq!(tree.len(), 2);
    assert!(!tree.is_empty());
    assert_eq!(names(tree.entries()), vec!["a", "b"]);
    assert_eq!(tree.clone(), tree);
    assert_eq!(names(&tree.into_entries()), vec!["a", "b"]);
    assert!(Tree::empty().is_empty());
    assert_eq!(Tree::default(), Tree::empty());
    assert_eq!(Tree::empty().len(), 0);
}

#[test]
fn names_are_checked_for_separators() {
    assert!(has_no_separator(b""));
    assert!(has_no_separator(b"abc"));
    assert!(!has_no_separator(b"a/c"));
    assert!(!has_no_separator(b"/"));
    assert!(is_valid_name(b"abc"));
    assert!(is_valid_name(b"."));
    assert!(!is_valid_name(b""));
    assert!(!is_valid_name(b"a/c"));
    assert!(!is_valid_name(b"/"));
}

#[test]
fn only_the_tree_kind_makes_a_tree_mode() {
    assert!(EntryMode::from(EntryKind::Tree).is_tree());
    assert!(!EntryMode::from(EntryKind::Blob).is_tree());
    assert!(!EntryMode::from(EntryKind::BlobExecutable).is_tree());
    assert!(!EntryMode::from(EntryKind::Link).is_tree());
    assert!(!EntryMode::from(EntryKind::Commit).is_tree());
    assert_eq!(EntryMode::from(EntryKind::Tree), EntryMode(0o040000));
    assert_eq!(EntryMode::from(EntryKind::Blob), EntryMode(0o100644));
    assert_eq!(EntryMode::from(EntryKind::BlobExecutable), EntryMode(0o100755));
    assert_eq!(EntryMode::from(EntryKind::Link), EntryMode(0o120000));
    assert_eq!(EntryMode::from(EntryKind::Commit), EntryMode(0o160000));
}

#[test]
fn a_level_is_edited_in_order() {
    let mut entries = vec![entry("foo", EntryKind::Blob), entry("foo.txt", EntryKind::Blob)];
    // On the way down a blob becomes a placeholder tree and moves behind `foo.txt`.
    let next = edit_level(&mut entries, b"foo", false, Some((EntryKind::Blob, id(9))));
    assert!(matches!(next, Next::Descend(None)));
    assert_eq!(names(&entries), vec!["foo.txt", "foo"]);
    assert!(entries[1].mode.is_tree());
    assert!(entries[1].oid.is_null());
    // A tree on the way down is entered under its identifier.
    entries[1].oid = id(5);
    let next = edit_level(&mut entries, b"foo", false, Some((EntryKind::Blob, id(9))));
    assert!(matches!(next, Next::Descend(Some(oid)) if oid == id(5)));
    let next = edit_level(&mut entries, b"foo", false, None);
    assert!(matches!(next, Next::Descend(Some(oid)) if oid == id(5)));
    // A removal does not pass what is no tree, nor what is missing.
    assert!(matches!(edit_level(&mut entries, b"foo.txt", false, None), Next::Stop));
    assert!(matches!(edit_level(&mut entries, b"nothing", false, None), Next::Stop));
    assert!(matches!(edit_level(&mut entries, b"nothing", true, None), Next::Stop));
    assert_eq!(names(&entries), vec!["foo.txt", "foo"]);
    // At the end of the path the entry is set, and moves back when it is a blob again.
    assert!(matches!(edit_level(&mut entries, b"foo", true, Some((EntryKind::Blob, id(7)))), Next::Stop));
    assert_eq!(names(&entries), vec!["foo", "foo.txt"]);
    assert_eq!(entries[0].oid, id(7));
    assert_eq!(entries[0].mode, EntryMode::from(EntryKind::Blob));
    // New entries go to their place.
    assert!(matches!(edit_level(&mut entries, b"bar", true, Some((EntryKind::Tree, id(8)))), Next::Stop));
    assert!(matches!(edit_level(&mut entries, b"zoo", false, Some((EntryKind::Blob, id(8)))), Next::Descend(None)));
    assert_eq!(names(&entries), vec!["bar", "foo", "foo.txt", "zoo"]);
    assert!(entries[3].oid.is_null() && entries[3].mode.is_tree());
    // And the end of a removal takes the entry out.
    assert!(matches!(edit_level(&mut entries, b"foo", true, None), Next::Stop));
    assert_eq!(names(&entries), vec!["bar", "foo.txt", "zoo"]);
    assert!(is_canonical_form(&entries));
}
