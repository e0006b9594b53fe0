use tree_editor::flush::{drop_placeholders, relist, scan_frame, unlist, Frame};
use tree_editor::store::TreeStore;
use tree_editor::{Entry, EntryKind, EntryMode, ObjectId, Tree};

fn id(seed: u8) -> ObjectId {
    ObjectId::from_bytes([seed; 20])
}

fn entry(name: &str, kind: EntryKind, oid: ObjectId) -> Entry {
    Entry { mode: EntryMode::from(kind), filename: name.as_bytes().to_vec(), oid }
}

#[test]
fn placeholders_are_dropped_in_place() {
    let null = id(0);
    let mut entries = vec![
        entry("a", EntryKind::Blob, null),
        entry("b", EntryKind::Blob, id(1)),
        entry("c", EntryKind::Tree, null),
        entry("d", EntryKind::Tree, null),
        entry("e", EntryKind::Link, id(2)),
        entry("f", EntryKind::Blob, null),
    ];
    drop_placeholders(&mut entries);
    assert_eq!(entries, vec![entry("b", EntryKind::Blob, id(1)), entry("e", EntryKind::Link, id(2))]);
    drop_placeholders(&mut entries);
    assert_eq!(entries.len(), 2);
    let mut all = vec![entry("a", EntryKind::Blob, null)];
    drop_placeholders(&mut all);
    assert!(all.is_empty());
    drop_placeholders(&mut all);
    assert!(all.is_empty());
}

#[test]
fn a_parent_is_patched_by_name() {
    let mut entries = vec![
        entry("foo.txt", EntryKind::Blob, id(1)),
        entry("foo", EntryKind::Tree, id(2)),
        entry("zoo", EntryKind::Tree, id(3)),
    ];
    relist(&mut entries, b"foo", id(9));
    assert_eq!(
        entries,
        vec![
            entry("foo.txt", EntryKind::Blob, id(1)),
            entry("foo", EntryKind::Tree, id(9)),
            entry("zoo", EntryKind::Tree, id(3)),
        ]
    );
    unlist(&mut entries, b"zoo");
    unlist(&mut entries, b"foo");
    assert_eq!(entries, vec![entry("foo.txt", EntryKind::Blob, id(1))]);
}

/// The SHA-1 digest of `x/a`.
const KEY_OF_X_A: [u8; 20] = [
    0xe4, 0xfc, 0xcf, 0x5a, 0x38, 0xc6, 0x70, 0xbb, 0x19, 0xcf, 0xda, 0x2b, 0x00, 0x15, 0xf7, 0x0f,
    0xe6, 0xc3, 0x92, 0x65,
];

/// The SHA-1 digest of `a`.
const KEY_OF_A: [u8; 20] = [
    0x86, 0xf7, 0xe4, 0x37, 0xfa, 0xa5, 0xa7, 0xfc, 0xe1, 0x5d, 0x1d, 0xdc, 0xb9, 0xea, 0xea, 0xea,
    0x37, 0x76, 0x67, 0xb8,
];

#[test]
fn a_scan_unfiles_the_pending_subtrees() {
    let entries = vec![
        entry("a", EntryKind::Tree, id(1)),
        entry("b", EntryKind::Blob, id(2)),
        entry("c", EntryKind::Tree, id(3)),
    ];
    let below = Tree::from_entries(vec![entry("f", EntryKind::Blob, id(4))]).unwrap();
    let mut store = TreeStore::new();
    store.insert(&ObjectId::from_bytes(KEY_OF_X_A), below.clone());
    store.insert(&ObjectId::from_bytes(KEY_OF_A), Tree::empty());

    // Below `x`, the tree at `x/a` is pending.
    let mut path = b"x".to_vec();
    let mut children: Vec<Frame> = Vec::new();
    assert!(scan_frame(&mut store, &mut path, &entries, 3, &mut children));
    assert_eq!(path, b"x");
    assert_eq!(children.len(), 1);
    assert_eq!(children[0].parent_idx, Some(3));
    assert_eq!(children[0].rela_path, b"x/a");
    assert_eq!(children[0].entries, below.clone().into_entries());
    assert!(!store.contains_key(&ObjectId::from_bytes(KEY_OF_X_A)));
    assert!(store.contains_key(&ObjectId::from_bytes(KEY_OF_A)));

    // A second scan finds nothing, and leaves all as it is.
    assert!(!scan_frame(&mut store, &mut path, &entries, 3, &mut children));
    assert_eq!(path, b"x");
    assert_eq!(children.len(), 1);

    // At the root, the tree at `a` is pending.
    let mut root = Vec::new();
    assert!(scan_frame(&mut store, &mut root, &entries, 0, &mut children));
    assert!(root.is_empty());
    assert_eq!(children.len(), 2);
    assert_eq!(children[1].parent_idx, Some(0));
    assert_eq!(children[1].rela_path, b"a");
    assert!(children[1].entries.is_empty());
    assert!(!store.contains_key(&ObjectId::from_bytes(KEY_OF_A)));
}
