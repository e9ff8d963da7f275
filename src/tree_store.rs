use crate::node::RcNodeRef;
use crate::tree::{AddNodeError, Tree};
use vstd::prelude::*;
use vstd::rwlock::{RwLock, RwLockPredicate};

verus! {

/// What the guard keeps true of the forest it holds.
pub struct WellFormed;

impl RwLockPredicate<Tree> for WellFormed {
    open spec fn inv(self, v: Tree) -> bool {
        v.wf()
    }
}

/// The guard could not be taken.
#[derive(Debug)]
pub struct LockError {
    pub message: String,
}

/// One forest shared between threads: many readers at a time, or one writer.
pub struct TreeStore {
    lock: RwLock<Tree, WellFormed>,
}

impl TreeStore {
    /// A store that holds an empty forest.
    pub fn new() -> (r: TreeStore) {
        TreeStore { lock: RwLock::new(Tree::new(), Ghost(WellFormed)) }
    }

    /// A snapshot of the forest: its roots in ascending id order, each with its subtree.
    /// This guard is never poisoned, so the snapshot is always taken.
    pub fn get_tree(&self) -> (r: Result<Vec<RcNodeRef>, LockError>)
        ensures
            r is Ok,
            exists|t: Tree| t.wf() && #[trigger] t.is_projection(r->Ok_0@),
    {
        let handle = self.lock.acquire_read();
        let tree = handle.borrow();
        let v = tree.to_root_list();
        handle.release_read();
        let r = Ok(v);
        assert(tree.wf() && tree.is_projection(r->Ok_0@));
        r
    }

    /// Inserts a node under the exclusive guard. The result is the outcome of an insertion
    /// into a well-formed forest.
    pub fn add_node(&self, label: String, parent_id: Option<i32>) -> (r: Result<
        RcNodeRef,
        AddNodeError,
    >)
        ensures
            exists|before: Tree, after: Tree|
                before.wf() && after.wf() && #[trigger] Tree::insert_outcome(
                    before,
                    after,
                    label,
                    parent_id,
                    r,
                ),
    {
        let (mut tree, handle) = self.lock.acquire_write();
        let ghost before = tree;
        let r = tree.add_node(label, parent_id);
        assert(Tree::insert_outcome(before, tree, label, parent_id, r));
        handle.release_write(tree);
        r
    }

    /// The number of nodes at the moment of reading.
    pub fn len(&self) -> (r: i32)
        ensures
            exists|t: Tree| t.wf() && #[trigger] t.spec_len() == r,
    {
        let handle = self.lock.acquire_read();
        let r = handle.borrow().len();
        assert(handle.view().spec_len() == r);
        handle.release_read();
        r
    }
}

impl Default for TreeStore {
    fn default() -> (r: TreeStore) {
        TreeStore::new()
    }
}

} // verus!
