use tree_editor::Entry;

#[test]
fn size_of_entry() {
    assert_eq!(
        std::mem::size_of::<Entry>(),
        48,
        "let's keep the size in check as we have many of them"
    );
}
