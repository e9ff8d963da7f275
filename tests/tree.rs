use forest::node::Node;
use forest::tree::{AddNodeErrorKind, Tree};

#[test]
fn builds_default_tree() {
    let tree = Tree::default();
    assert_eq!(tree.len(), 0);
    assert_eq!(tree.edge_count(), 0);
    assert_eq!(tree.parent_count(), 0);
}

#[test]
fn can_add_node_to_tree() {
    let mut tree = Tree::default();
    tree.add_node("root".to_string(), None).unwrap();
    assert_eq!(tree.len(), 1);
    let node = tree.get_node(&1).unwrap();
    assert_eq!(node.id, 1);
    assert_eq!(node.label, "root");
}

#[test]
fn can_add_node_to_tree_with_parent() {
    let mut tree = Tree::default();
    tree.add_node("root".to_string(), None).unwrap();
    tree.add_node("child".to_string(), Some(1)).unwrap();
    assert_eq!(tree.len(), 2);
    let node = tree.get_node(&2).unwrap();
    assert_eq!(node.id, 2);
    assert_eq!(node.label, "child");
    assert_eq!(tree.edge_count(), 1);
    assert_eq!(tree.parent_count(), 1);
    assert_eq!(tree.child_ids(1).len(), 1);
}

#[test]
fn edge_errors_propagate() {
    let mut tree = Tree::default();
    let result = tree.add_node("root".to_string(), Some(2));
    assert!(result.is_err());
}

#[test]
fn can_add_connections_to_tree() {
    let mut tree = Tree::default();
    tree.add_node("root".to_string(), None).unwrap();
    let child = tree.add_node("child".to_string(), None).unwrap();
    tree.add_edge(1, child).unwrap();
    assert_eq!(tree.edge_count(), 1);
    assert_eq!(tree.parent_count(), 1);
    assert_eq!(tree.child_ids(1).len(), 1);
}

#[test]
fn cannot_add_edge_with_self() {
    let mut tree = Tree::default();
    let parent = tree.add_node("root".to_string(), None).unwrap();

    let result = tree.add_edge(1, parent);
    assert!(result.is_err());
}

#[test]
fn cannot_override_edge() {
    let mut tree = Tree::default();
    tree.add_node("root".to_string(), None).unwrap();
    let child = tree.add_node("child".to_string(), Some(1)).unwrap();
    tree.add_node("child".to_string(), Some(1)).unwrap();
    let result = tree.add_edge(3, child);
    assert!(result.is_err());
}

#[test]
fn cannot_add_edge_with_nonexistent_parent() {
    let mut tree = Tree::default();
    let node = tree.add_node("root".to_string(), None).unwrap();
    let result = tree.add_edge(3, node);
    assert!(result.is_err());
}

#[test]
fn transforms_into() {
    let mut tree = Tree::default();

    tree.add_node("root".to_string(), None).unwrap();
    tree.add_node("child".to_string(), Some(1)).unwrap();
    let nodes = tree.to_root_list();
    assert_eq!(nodes.len(), 1);
    assert_eq!(nodes[0].len(), 1);
}

#[test]
fn transforms_into_with_multiple_children() {
    let mut tree = Tree::default();

    tree.add_node("root".to_string(), None).unwrap();
    tree.add_node("child".to_string(), Some(1)).unwrap();
    tree.add_node("child".to_string(), Some(1)).unwrap();
    let nodes = tree.to_root_list();
    assert_eq!(nodes.len(), 1);
    assert_eq!(nodes[0].len(), 2);
}

#[test]
fn ids_count_up_and_failures_do_not_advance() {
    let mut tree = Tree::default();
    assert_eq!(tree.add_node("a".to_string(), None).unwrap().id, 1);
    assert!(tree.add_node("bad".to_string(), Some(99)).is_err());
    assert_eq!(tree.add_node("b".to_string(), Some(1)).unwrap().id, 2);
    assert!(tree.add_node("bad".to_string(), Some(3)).is_err());
    assert_eq!(tree.add_node("c".to_string(), None).unwrap().id, 3);
    assert_eq!(tree.len(), 3);
}

#[test]
fn self_parent_on_insert_is_refused() {
    let mut tree = Tree::default();
    tree.add_node("root".to_string(), None).unwrap();
    let err = tree.add_node("me".to_string(), Some(2)).unwrap_err();
    assert_eq!(err.kind, AddNodeErrorKind::SelfParent);
    assert_eq!(
        err.message,
        "Cannot add connection, parent and child are the same node: 2"
    );
    assert_eq!(tree.len(), 1);
}

#[test]
fn unknown_parent_on_empty_forest() {
    let mut tree = Tree::default();
    let err = tree.add_node("x".to_string(), Some(999)).unwrap_err();
    assert_eq!(err.kind, AddNodeErrorKind::UnknownParent);
    assert_eq!(err.message, "Cannot add connection, parent 999 does not exist");
    assert_eq!(tree.len(), 0);
}

#[test]
fn negative_parent_is_unknown() {
    let mut tree = Tree::default();
    tree.add_node("root".to_string(), None).unwrap();
    let err = tree.add_node("x".to_string(), Some(-5)).unwrap_err();
    assert_eq!(err.kind, AddNodeErrorKind::UnknownParent);
    assert_eq!(err.message, "Cannot add connection, parent -5 does not exist");
}

#[test]
fn second_parent_is_refused_and_first_kept() {
    let mut tree = Tree::default();
    tree.add_node("a".to_string(), None).unwrap();
    tree.add_node("b".to_string(), None).unwrap();
    let c = tree.add_node("c".to_string(), Some(1)).unwrap();
    let err = tree.add_edge(2, c).unwrap_err();
    assert_eq!(err.kind, AddNodeErrorKind::DuplicateParent);
    assert_eq!(err.message, "Cannot add connection, child 3 already has a parent");
    assert_eq!(tree.child_ids(1), vec![3]);
    assert_eq!(tree.child_ids(2).len(), 0);
    assert_eq!(tree.edge_count(), 1);
}

#[test]
fn edge_from_younger_root_succeeds() {
    let mut tree = Tree::default();
    let a = tree.add_node("a".to_string(), None).unwrap();
    tree.add_node("b".to_string(), None).unwrap();
    tree.add_edge(2, a).unwrap();
    let roots = tree.to_root_list();
    assert_eq!(roots.len(), 1);
    assert_eq!(roots[0].id, 2);
    assert_eq!(roots[0].children[0].id, 1);
    assert_eq!(tree.child_ids(2), vec![1]);
}

#[test]
fn edge_closing_a_cycle_is_refused() {
    let mut tree = Tree::default();
    let a = tree.add_node("a".to_string(), None).unwrap();
    tree.add_node("b".to_string(), Some(1)).unwrap();
    tree.add_node("c".to_string(), Some(2)).unwrap();
    let err = tree.add_edge(3, a).unwrap_err();
    assert_eq!(err.kind, AddNodeErrorKind::Cycle);
    assert_eq!(err.message, "Cannot add connection, parent 3 lies below child 1");
    assert_eq!(tree.edge_count(), 2);
    assert_eq!(tree.to_root_list().len(), 1);
}

#[test]
fn empty_forest_projects_to_nothing() {
    let tree = Tree::default();
    assert_eq!(tree.to_root_list().len(), 0);
    assert!(tree.get_node(&1).is_none());
}

#[test]
fn single_root_projection() {
    let mut tree = Tree::default();
    tree.add_node("root".to_string(), None).unwrap();
    let roots = tree.to_root_list();
    assert_eq!(roots.len(), 1);
    assert_eq!(roots[0].id, 1);
    assert_eq!(roots[0].label, "root");
    assert_eq!(roots[0].len(), 0);
}

#[test]
fn root_with_child_projection() {
    let mut tree = Tree::default();
    tree.add_node("root".to_string(), None).unwrap();
    tree.add_node("child".to_string(), Some(1)).unwrap();
    let roots = tree.to_root_list();
    assert_eq!(roots.len(), 1);
    assert_eq!(roots[0].id, 1);
    assert_eq!(roots[0].children.len(), 1);
    assert_eq!(roots[0].children[0].id, 2);
    assert_eq!(roots[0].children[0].label, "child");
    assert_eq!(roots[0].children[0].len(), 0);
}

#[test]
fn two_children_in_insertion_order() {
    let mut tree = Tree::default();
    tree.add_node("root".to_string(), None).unwrap();
    tree.add_node("child".to_string(), Some(1)).unwrap();
    tree.add_node("child".to_string(), Some(1)).unwrap();
    let roots = tree.to_root_list();
    assert_eq!(roots[0].children[0].id, 2);
    assert_eq!(roots[0].children[1].id, 3);
}

#[test]
fn orphan_insert_leaves_forest_empty() {
    let mut tree = Tree::default();
    assert!(tree.add_node("orphan".to_string(), Some(42)).is_err());
    assert_eq!(tree.to_root_list().len(), 0);
}

#[test]
fn every_node_under_exactly_one_root() {
    let mut tree = Tree::default();
    tree.add_node("r1".to_string(), None).unwrap();
    tree.add_node("r2".to_string(), None).unwrap();
    tree.add_node("a".to_string(), Some(1)).unwrap();
    tree.add_node("b".to_string(), Some(3)).unwrap();
    tree.add_node("c".to_string(), Some(2)).unwrap();
    let roots = tree.to_root_list();
    let mut seen: Vec<i32> = Vec::new();
    let mut stack: Vec<std::sync::Arc<Node>> = roots.clone();
    while let Some(n) = stack.pop() {
        seen.push(n.id);
        for c in n.children.iter() {
            stack.push(c.clone());
        }
    }
    seen.sort();
    assert_eq!(seen, vec![1, 2, 3, 4, 5]);
    assert_eq!(roots.len(), 2);
    assert_eq!(roots[0].id, 1);
    assert_eq!(roots[1].id, 2);
}

#[test]
fn later_edge_moves_root_under_parent() {
    let mut tree = Tree::default();
    tree.add_node("root".to_string(), None).unwrap();
    tree.add_node("x".to_string(), Some(1)).unwrap();
    let y = tree.add_node("y".to_string(), None).unwrap();
    tree.add_edge(1, y).unwrap();
    let roots = tree.to_root_list();
    assert_eq!(roots.len(), 1);
    assert_eq!(tree.child_ids(1), vec![2, 3]);
    assert_eq!(tree.parent_count(), 1);
}
