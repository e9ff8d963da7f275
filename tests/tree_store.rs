use forest::tree_store::TreeStore;

#[test]
fn creates_default_tree() {
    let tree_provider = TreeStore::default();
    let tree = tree_provider.get_tree().unwrap();
    assert_eq!(tree.len(), 0);
}

#[test]
fn gets_tree() {
    let tree_provider = TreeStore::default();
    let tree = tree_provider.get_tree().unwrap();
    assert_eq!(tree.len(), 0);
}

#[test]
fn adds_node() {
    let tree_provider = TreeStore::default();
    let result = tree_provider.add_node("test".to_string(), None);
    assert!(result.is_ok());
    let tree = tree_provider.get_tree().unwrap();
    assert_eq!(tree.len(), 1);
}

#[test]
fn store_reports_errors_and_size() {
    let store = TreeStore::default();
    assert_eq!(store.len(), 0);
    assert!(store.add_node("orphan".to_string(), Some(42)).is_err());
    assert_eq!(store.len(), 0);
    store.add_node("root".to_string(), None).unwrap();
    let child = store.add_node("child".to_string(), Some(1)).unwrap();
    assert_eq!(child.id, 2);
    assert_eq!(store.len(), 2);
    let roots = store.get_tree().unwrap();
    assert_eq!(roots.len(), 1);
    assert_eq!(roots[0].children[0].label, "child");
}
