use tree_editor::editor::file_loaded;
use tree_editor::path::empty_path_hash;
use tree_editor::store::TreeStore;
use tree_editor::{Entry, EntryKind, EntryMode, FindError, ObjectId, Tree};

fn id(seed: u8) -> ObjectId {
    ObjectId::from_bytes([seed; 20])
}

fn one(name: &str) -> Tree {
    Tree::from_entries(vec![Entry {
        mode: EntryMode::from(EntryKind::Blob),
        filename: name.as_bytes().to_vec(),
        oid: id(1),
    }])
    .unwrap()
}

#[test]
fn a_store_files_trees_under_keys() {
    let mut store = TreeStore::new();
    assert!(!store.contains_key(&id(1)));
    assert_eq!(store.remove(&id(1)), None);

    store.insert(&id(1), one("a"));
    store.insert(&id(2), one("b"));
    assert!(store.contains_key(&id(1)));
    assert!(store.contains_key(&id(2)));
    assert!(!store.contains_key(&id(3)));

    // What is filed under a key replaces what was filed there.
    store.insert(&id(1), one("c"));
    assert_eq!(store.remove(&id(1)), Some(one("c")));
    assert!(!store.contains_key(&id(1)));
    assert_eq!(store.remove(&id(1)), None);
    assert!(store.contains_key(&id(2)));

    store.clear();
    assert!(!store.contains_key(&id(2)));
    assert_eq!(store.remove(&id(2)), None);
}

#[test]
fn keys_that_share_their_first_bytes_are_told_apart() {
    let mut a = [7u8; 20];
    let mut b = [7u8; 20];
    a[19] = 1;
    b[19] = 2;
    let mut store = TreeStore::new();
    store.insert(&ObjectId::from_bytes(a), one("a"));
    assert!(!store.contains_key(&ObjectId::from_bytes(b)));
    store.insert(&ObjectId::from_bytes(b), one("b"));
    assert_eq!(store.remove(&ObjectId::from_bytes(a)), Some(one("a")));
    assert_eq!(store.remove(&ObjectId::from_bytes(b)), Some(one("b")));
}

#[test]
fn a_loaded_tree_is_filed_and_an_error_is_handed_on() {
    let mut store = TreeStore::new();
    let key = empty_path_hash();
    assert_eq!(file_loaded(&mut store, &key, Ok(one("a"))), Ok(()));
    assert_eq!(store.remove(&key), Some(one("a")));

    let not_found = FindError::NotFound { oid: id(9) };
    assert_eq!(file_loaded(&mut store, &key, Err(not_found)), Err(not_found));
    assert!(!store.contains_key(&key));
    let decode = FindError::Decode { oid: id(9) };
    assert_eq!(file_loaded(&mut store, &key, Err(decode)), Err(decode));
    assert!(!store.contains_key(&key));
}
