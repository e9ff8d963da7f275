use std::sync::Arc;
use vstd::prelude::*;

verus! {

/// A shared handle on a node; the nested shape of a subtree is reached through it.
pub type RcNodeRef = Arc<Node>;

/// One labelled vertex of the forest, holding its children in insertion order.
#[derive(Debug)]
pub struct Node {
    pub id: i32,
    pub label: String,
    pub children: Vec<RcNodeRef>,
}

/// Wraps a node into a shared handle.
pub fn as_rc_ref(node: Node) -> (r: RcNodeRef)
    ensures
        *r == node,
{
    Arc::new(node)
}

impl Node {
    /// A node with no children.
    pub fn new(id: i32, label: String) -> (r: Node)
        ensures
            r.id == id,
            r.label == label,
            r.children@.len() == 0,
    {
        Node { id, label, children: Vec::new() }
    }

    /// A node that starts out with the given children.
    pub fn new_with_children(id: i32, label: String, children: Vec<RcNodeRef>) -> (r: Node)
        ensures
            r.id == id,
            r.label == label,
            r.children == children,
    {
        Node { id, label, children }
    }

    /// Appends `child` after the existing children.
    pub fn add_child(&mut self, child: RcNodeRef)
        ensures
            final(self).id == old(self).id,
            final(self).label == old(self).label,
            final(self).children@ == old(self).children@.push(child),
    {
        self.children.push(child);
    }

    /// The number of direct children.
    pub fn len(&self) -> (r: i32)
        requires
            self.children@.len() <= i32::MAX,
        ensures
            r as int == self.children@.len(),
    {
        self.children.len() as i32
    }
}

} // verus!
