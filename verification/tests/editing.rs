use std::cell::Cell;
use std::collections::HashMap;
use tree_editor::{Editor, Entry, EntryKind, EntryMode, Find, FindError, ObjectId, Tree};

/// An object database in memory that counts how often it is asked.
struct Odb {
    trees: HashMap<ObjectId, Tree>,
    lookups: Cell<usize>,
}

impl Odb {
    fn new() -> Self {
        Odb { trees: HashMap::new(), lookups: Cell::new(0) }
    }

    /// Files `tree` under the identifier made of `seed` and returns that identifier.
    fn store(&mut self, seed: u8, tree: Tree) -> ObjectId {
        let id = id(seed);
        self.trees.insert(id, tree);
        id
    }
}

impl Find for Odb {
    fn find_tree(&self, id: &ObjectId, _buffer: &mut Vec<u8>) -> Result<Tree, FindError> {
        self.lookups.set(self.lookups.get() + 1);
        self.trees.get(id).cloned().ok_or(FindError::NotFound { oid: *id })
    }
}

fn id(seed: u8) -> ObjectId {
    ObjectId::from_bytes([seed; 20])
}

fn null() -> ObjectId {
    ObjectId::from_bytes([0; 20])
}

fn entry(name: &str, kind: EntryKind, oid: ObjectId) -> Entry {
    Entry { mode: EntryMode::from(kind), filename: name.as_bytes().to_vec(), oid }
}

fn tree(entries: Vec<Entry>) -> Tree {
    Tree::from_entries(entries).expect("entries are canonical")
}

fn path(components: &[&'static str]) -> Vec<&'static [u8]> {
    components.iter().map(|c| c.as_bytes()).collect()
}

/// Writes the editor's trees, numbering what the sink receives from 0xa0 on.
fn write_all(editor: &mut Editor<'_>) -> (ObjectId, Vec<(Tree, ObjectId)>) {
    let mut seen: Vec<(Tree, ObjectId)> = Vec::new();
    let root = editor
        .write(|tree: &Tree| -> Result<ObjectId, ()> {
            let id = ObjectId::from_bytes([0xa0 + seen.len() as u8; 20]);
            seen.push((tree.clone(), id));
            Ok(id)
        })
        .expect("the sink does not fail");
    (root, seen)
}

/// A database that holds the root `a/b/c`, where `c` is a blob, and the root's tree.
fn nested_odb() -> (Odb, Tree) {
    let mut odb = Odb::new();
    let b = odb.store(0x02, tree(vec![entry("c", EntryKind::Blob, id(0x33))]));
    let a = odb.store(0x01, tree(vec![entry("b", EntryKind::Tree, b)]));
    let root = tree(vec![entry("a", EntryKind::Tree, a)]);
    (odb, root)
}

#[test]
fn flat_insert() {
    let odb = Odb::new();
    let mut editor = Editor::new(Tree::empty(), &odb);
    editor.upsert(&path(&["a"]), EntryKind::Blob, id(0x11)).unwrap();
    let (root, seen) = write_all(&mut editor);
    assert_eq!(seen.len(), 1);
    assert_eq!(seen[0].0, tree(vec![entry("a", EntryKind::Blob, id(0x11))]));
    assert_eq!(root, seen[0].1);
}

#[test]
fn nested_create() {
    let odb = Odb::new();
    let mut editor = Editor::new(Tree::empty(), &odb);
    editor.upsert(&path(&["a", "b", "c"]), EntryKind::Blob, id(0x22)).unwrap();
    let (root, seen) = write_all(&mut editor);
    assert_eq!(seen.len(), 3);
    assert_eq!(seen[0].0, tree(vec![entry("c", EntryKind::Blob, id(0x22))]));
    assert_eq!(seen[1].0, tree(vec![entry("b", EntryKind::Tree, seen[0].1)]));
    assert_eq!(seen[2].0, tree(vec![entry("a", EntryKind::Tree, seen[1].1)]));
    assert_eq!(root, seen[2].1);
    assert_eq!(odb.lookups.get(), 0);
}

#[test]
fn type_flip() {
    let odb = Odb::new();
    let root = tree(vec![entry("foo", EntryKind::Blob, id(0x01))]);
    let mut editor = Editor::new(root, &odb);
    editor.upsert(&path(&["foo", "bar"]), EntryKind::Blob, id(0x02)).unwrap();
    let (root, seen) = write_all(&mut editor);
    assert_eq!(seen.len(), 2);
    assert_eq!(seen[0].0, tree(vec![entry("bar", EntryKind::Blob, id(0x02))]));
    assert_eq!(seen[1].0, tree(vec![entry("foo", EntryKind::Tree, seen[0].1)]));
    assert_eq!(root, seen[1].1);
    assert_eq!(odb.lookups.get(), 0);
}

#[test]
fn pruning_cascade() {
    let (odb, root) = nested_odb();
    let mut editor = Editor::new(root, &odb);
    editor.remove(&path(&["a", "b", "c"])).unwrap();
    let (root, seen) = write_all(&mut editor);
    assert_eq!(seen.len(), 1);
    assert_eq!(seen[0].0, Tree::empty());
    assert_eq!(root, seen[0].1);
}

#[test]
fn reorder_on_type_change() {
    let odb = Odb::new();
    let root = tree(vec![
        entry("foo", EntryKind::Blob, id(0x01)),
        entry("foo.txt", EntryKind::Blob, id(0x02)),
    ]);
    let mut editor = Editor::new(root, &odb);
    editor.upsert(&path(&["foo", "inner"]), EntryKind::Blob, id(0x03)).unwrap();
    let (_, seen) = write_all(&mut editor);
    assert_eq!(seen.len(), 2);
    assert_eq!(seen[0].0, tree(vec![entry("inner", EntryKind::Blob, id(0x03))]));
    let names: Vec<&[u8]> = seen[1].0.entries().iter().map(|e| e.filename.as_slice()).collect();
    assert_eq!(names, vec![b"foo.txt".as_slice(), b"foo".as_slice()]);
    assert_eq!(
        seen[1].0,
        tree(vec![
            entry("foo.txt", EntryKind::Blob, id(0x02)),
            entry("foo", EntryKind::Tree, seen[0].1),
        ])
    );
}

#[test]
fn null_placeholder_survival() {
    let odb = Odb::new();
    let mut editor = Editor::new(Tree::empty(), &odb);
    editor.upsert(&path(&["a", "b"]), EntryKind::Tree, null()).unwrap();
    let (root, seen) = write_all(&mut editor);
    assert_eq!(seen.len(), 1);
    assert_eq!(seen[0].0, Tree::empty());
    assert_eq!(root, seen[0].1);
    assert_eq!(odb.lookups.get(), 0);
}

#[test]
fn placeholders_are_not_written() {
    let odb = Odb::new();
    let mut editor = Editor::new(Tree::empty(), &odb);
    editor
        .upsert(&path(&["keep"]), EntryKind::Blob, id(0x01))
        .unwrap()
        .upsert(&path(&["drop"]), EntryKind::Blob, null())
        .unwrap()
        .upsert(&path(&["dir", "drop"]), EntryKind::Blob, null())
        .unwrap()
        .upsert(&path(&["dir", "keep"]), EntryKind::BlobExecutable, id(0x02))
        .unwrap();
    let (_, seen) = write_all(&mut editor);
    assert_eq!(seen.len(), 2);
    for (tree, _) in &seen {
        assert!(tree.entries().iter().all(|e| !e.oid.is_null()));
    }
    assert_eq!(seen[0].0, tree(vec![entry("keep", EntryKind::BlobExecutable, id(0x02))]));
    assert_eq!(
        seen[1].0,
        tree(vec![
            entry("dir", EntryKind::Tree, seen[0].1),
            entry("keep", EntryKind::Blob, id(0x01)),
        ])
    );
}

#[test]
fn children_are_written_before_parents() {
    let odb = Odb::new();
    let mut editor = Editor::new(Tree::empty(), &odb);
    editor.upsert(&path(&["a", "x", "f"]), EntryKind::Blob, id(0x01)).unwrap();
    editor.upsert(&path(&["b", "y", "g"]), EntryKind::Blob, id(0x02)).unwrap();
    editor.upsert(&path(&["b", "z"]), EntryKind::Blob, id(0x03)).unwrap();
    let (root, seen) = write_all(&mut editor);
    // The leaves come first, in the order in which they are taken from the stack,
    // then the trees that waited for them, and the root at the end.
    let y = tree(vec![entry("g", EntryKind::Blob, id(0x02))]);
    let x = tree(vec![entry("f", EntryKind::Blob, id(0x01))]);
    assert_eq!(seen.len(), 5);
    assert_eq!(seen[0].0, y);
    assert_eq!(seen[1].0, x);
    assert_eq!(seen[2].0, tree(vec![entry("x", EntryKind::Tree, seen[1].1)]));
    assert_eq!(
        seen[3].0,
        tree(vec![entry("y", EntryKind::Tree, seen[0].1), entry("z", EntryKind::Blob, id(0x03))])
    );
    assert_eq!(
        seen[4].0,
        tree(vec![entry("a", EntryKind::Tree, seen[2].1), entry("b", EntryKind::Tree, seen[3].1)])
    );
    assert_eq!(root, seen[4].1);
}

#[test]
fn empty_subtree_is_removed_from_its_parent() {
    let (odb, root) = nested_odb();
    let mut editor = Editor::new(root, &odb);
    editor.upsert(&path(&["a", "other"]), EntryKind::Blob, id(0x44)).unwrap();
    editor.remove(&path(&["a", "b", "c"])).unwrap();
    let (_, seen) = write_all(&mut editor);
    assert_eq!(seen.len(), 2);
    assert_eq!(seen[0].0, tree(vec![entry("other", EntryKind::Blob, id(0x44))]));
    assert_eq!(seen[1].0, tree(vec![entry("a", EntryKind::Tree, seen[0].1)]));
}

#[test]
fn writing_twice_writes_the_same_root() {
    let odb = Odb::new();
    let mut editor = Editor::new(Tree::empty(), &odb);
    editor.upsert(&path(&["a", "b"]), EntryKind::Blob, id(0x01)).unwrap();
    let (_, first) = write_all(&mut editor);
    let (second_id, second) = write_all(&mut editor);
    assert_eq!(second.len(), 1);
    assert_eq!(second[0].0, first.last().unwrap().0);
    assert_eq!(second_id, second[0].1);
}

#[test]
fn edits_continue_from_the_written_root() {
    let odb = Odb::new();
    let mut editor = Editor::new(Tree::empty(), &odb);
    editor.upsert(&path(&["a"]), EntryKind::Blob, id(0x01)).unwrap();
    write_all(&mut editor);
    editor.upsert(&path(&["b"]), EntryKind::Link, id(0x02)).unwrap();
    let (_, seen) = write_all(&mut editor);
    assert_eq!(seen.len(), 1);
    assert_eq!(
        seen[0].0,
        tree(vec![entry("a", EntryKind::Blob, id(0x01)), entry("b", EntryKind::Link, id(0x02))])
    );
}

#[test]
fn upsert_twice_is_upsert_once() {
    let (odb, root) = nested_odb();
    let mut once = Editor::new(root.clone(), &odb);
    once.upsert(&path(&["a", "b", "d"]), EntryKind::Commit, id(0x55)).unwrap();
    let (_, seen_once) = write_all(&mut once);

    let mut twice = Editor::new(root, &odb);
    twice.upsert(&path(&["a", "b", "d"]), EntryKind::Commit, id(0x55)).unwrap();
    twice.upsert(&path(&["a", "b", "d"]), EntryKind::Commit, id(0x55)).unwrap();
    let (_, seen_twice) = write_all(&mut twice);
    assert_eq!(seen_once, seen_twice);
    assert_eq!(
        seen_once[0].0,
        tree(vec![entry("c", EntryKind::Blob, id(0x33)), entry("d", EntryKind::Commit, id(0x55))])
    );
}

#[test]
fn removing_what_is_absent_changes_nothing() {
    let odb = Odb::new();
    let root = tree(vec![entry("a", EntryKind::Blob, id(0x01))]);
    let mut editor = Editor::new(root.clone(), &odb);
    editor.remove(&path(&["missing"])).unwrap();
    editor.remove(&path(&["a", "below", "a", "blob"])).unwrap();
    editor.remove(&path(&["x", "y"])).unwrap();
    editor.remove(&[]).unwrap();
    let (_, seen) = write_all(&mut editor);
    assert_eq!(seen.len(), 1);
    assert_eq!(seen[0].0, root);
    assert_eq!(odb.lookups.get(), 0);
}

#[test]
fn remove_takes_out_an_entry() {
    let (odb, root) = nested_odb();
    let mut editor = Editor::new(root, &odb);
    editor.upsert(&path(&["top"]), EntryKind::Blob, id(0x09)).unwrap();
    editor.remove(&path(&["a"])).unwrap();
    let (_, seen) = write_all(&mut editor);
    assert_eq!(seen.len(), 1);
    assert_eq!(seen[0].0, tree(vec![entry("top", EntryKind::Blob, id(0x09))]));
    assert_eq!(odb.lookups.get(), 0);
}

#[test]
fn each_tree_is_loaded_once() {
    let (odb, root) = nested_odb();
    let mut editor = Editor::new(root, &odb);
    editor.upsert(&path(&["a", "b", "d"]), EntryKind::Blob, id(0x04)).unwrap();
    assert_eq!(odb.lookups.get(), 2);
    editor.upsert(&path(&["a", "b", "e"]), EntryKind::Blob, id(0x05)).unwrap();
    editor.remove(&path(&["a", "b", "c"])).unwrap();
    editor.upsert(&path(&["a", "f"]), EntryKind::Blob, id(0x06)).unwrap();
    assert_eq!(odb.lookups.get(), 2);
    let (_, seen) = write_all(&mut editor);
    assert_eq!(seen.len(), 3);
    assert_eq!(
        seen[0].0,
        tree(vec![entry("d", EntryKind::Blob, id(0x04)), entry("e", EntryKind::Blob, id(0x05))])
    );
    assert_eq!(
        seen[1].0,
        tree(vec![entry("b", EntryKind::Tree, seen[0].1), entry("f", EntryKind::Blob, id(0x06))])
    );
}

#[test]
fn the_empty_tree_is_not_looked_up() {
    let odb = Odb::new();
    let empty_tree = ObjectId::from_bytes([
        0x4b, 0x82, 0x5d, 0xc6, 0x42, 0xcb, 0x6e, 0xb9, 0xa0, 0x60, 0xe5, 0x4b, 0xf8, 0xd6, 0x92,
        0x88, 0xfb, 0xee, 0x49, 0x04,
    ]);
    assert!(empty_tree.is_empty_tree());
    let mut editor = Editor::new(Tree::empty(), &odb);
    editor.upsert(&path(&["dir"]), EntryKind::Tree, empty_tree).unwrap();
    editor.upsert(&path(&["dir", "file"]), EntryKind::Blob, id(0x01)).unwrap();
    assert_eq!(odb.lookups.get(), 0);
    let (_, seen) = write_all(&mut editor);
    assert_eq!(seen.len(), 2);
    assert_eq!(seen[0].0, tree(vec![entry("file", EntryKind::Blob, id(0x01))]));
}

#[test]
fn an_entry_for_the_empty_tree_is_written() {
    let odb = Odb::new();
    let empty_tree = ObjectId::from_bytes([
        0x4b, 0x82, 0x5d, 0xc6, 0x42, 0xcb, 0x6e, 0xb9, 0xa0, 0x60, 0xe5, 0x4b, 0xf8, 0xd6, 0x92,
        0x88, 0xfb, 0xee, 0x49, 0x04,
    ]);
    let mut editor = Editor::new(Tree::empty(), &odb);
    editor.upsert(&path(&["dir"]), EntryKind::Tree, empty_tree).unwrap();
    let (_, seen) = write_all(&mut editor);
    assert_eq!(seen.len(), 1);
    assert_eq!(seen[0].0, tree(vec![entry("dir", EntryKind::Tree, empty_tree)]));
}

#[test]
fn a_placeholder_is_not_looked_up() {
    let odb = Odb::new();
    let mut editor = Editor::new(Tree::empty(), &odb);
    editor.upsert(&path(&["dir"]), EntryKind::Tree, null()).unwrap();
    editor.upsert(&path(&["dir", "file"]), EntryKind::Blob, id(0x01)).unwrap();
    assert_eq!(odb.lookups.get(), 0);
    let (_, seen) = write_all(&mut editor);
    assert_eq!(seen.len(), 2);
    assert_eq!(seen[1].0, tree(vec![entry("dir", EntryKind::Tree, seen[0].1)]));
}

#[test]
fn a_missing_tree_fails_the_edit() {
    let odb = Odb::new();
    let root = tree(vec![entry("a", EntryKind::Tree, id(0x77))]);
    let mut editor = Editor::new(root.clone(), &odb);
    let err = editor.upsert(&path(&["a", "b"]), EntryKind::Blob, id(0x01)).err();
    assert_eq!(err, Some(FindError::NotFound { oid: id(0x77) }));
    let err = editor.remove(&path(&["a", "b"])).err();
    assert_eq!(err, Some(FindError::NotFound { oid: id(0x77) }));
    // The editor is still usable, and the root is as it was.
    editor.upsert(&path(&["c"]), EntryKind::Blob, id(0x02)).unwrap();
    let (_, seen) = write_all(&mut editor);
    assert_eq!(
        seen[0].0,
        tree(vec![entry("a", EntryKind::Tree, id(0x77)), entry("c", EntryKind::Blob, id(0x02))])
    );
}

/// A database whose trees cannot be decoded.
struct Broken;

impl Find for Broken {
    fn find_tree(&self, id: &ObjectId, _buffer: &mut Vec<u8>) -> Result<Tree, FindError> {
        Err(FindError::Decode { oid: *id })
    }
}

#[test]
fn a_tree_that_cannot_be_decoded_fails_the_edit() {
    let root = tree(vec![entry("a", EntryKind::Tree, id(0x77))]);
    let mut editor = Editor::new(root, &Broken);
    let err = editor.upsert(&path(&["a", "b"]), EntryKind::Blob, id(0x01)).err();
    assert_eq!(err, Some(FindError::Decode { oid: id(0x77) }));
}

#[test]
fn a_failing_sink_fails_the_write() {
    let odb = Odb::new();
    let mut editor = Editor::new(Tree::empty(), &odb);
    editor.upsert(&path(&["a", "b"]), EntryKind::Blob, id(0x01)).unwrap();
    let mut calls = 0;
    let r = editor.write(|_tree: &Tree| -> Result<ObjectId, String> {
        calls += 1;
        Err(format!("call {}", calls))
    });
    assert_eq!(r, Err("call 1".to_string()));
    // After `set_root` the editor can be used again.
    editor.set_root(tree(vec![entry("x", EntryKind::Blob, id(0x02))]));
    let (_, seen) = write_all(&mut editor);
    assert_eq!(seen.len(), 1);
    assert_eq!(seen[0].0, tree(vec![entry("x", EntryKind::Blob, id(0x02))]));
}

#[test]
fn set_root_forgets_all_edits() {
    let odb = Odb::new();
    let mut editor = Editor::new(Tree::empty(), &odb);
    editor.upsert(&path(&["a", "b"]), EntryKind::Blob, id(0x01)).unwrap();
    editor.set_root(Tree::empty()).upsert(&path(&["c"]), EntryKind::Blob, id(0x02)).unwrap();
    let (_, seen) = write_all(&mut editor);
    assert_eq!(seen.len(), 1);
    assert_eq!(seen[0].0, tree(vec![entry("c", EntryKind::Blob, id(0x02))]));
}

#[test]
fn upsert_overwrites_what_is_there() {
    let (odb, root) = nested_odb();
    let mut editor = Editor::new(root, &odb);
    // A tree becomes a blob: what was below it is not looked at.
    editor.upsert(&path(&["a"]), EntryKind::Blob, id(0x01)).unwrap();
    let (_, seen) = write_all(&mut editor);
    assert_eq!(seen.len(), 1);
    assert_eq!(seen[0].0, tree(vec![entry("a", EntryKind::Blob, id(0x01))]));
    assert_eq!(odb.lookups.get(), 0);
}

#[test]
fn an_empty_path_changes_nothing() {
    let odb = Odb::new();
    let root = tree(vec![entry("a", EntryKind::Blob, id(0x01))]);
    let mut editor = Editor::new(root.clone(), &odb);
    editor.upsert(&[], EntryKind::Blob, id(0x02)).unwrap();
    let (_, seen) = write_all(&mut editor);
    assert_eq!(seen.len(), 1);
    assert_eq!(seen[0].0, root);
}

#[test]
fn an_untouched_root_is_written_as_it_is() {
    let (odb, root) = nested_odb();
    let mut editor = Editor::new(root.clone(), &odb);
    let (_, seen) = write_all(&mut editor);
    assert_eq!(seen.len(), 1);
    assert_eq!(seen[0].0, root);
    assert_eq!(odb.lookups.get(), 0);
}
