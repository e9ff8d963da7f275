use crate::node::{as_rc_ref, Node, RcNodeRef};
use vstd::prelude::*;
use vstd::string::StringExecFns;

verus! {

/// Why a node or an edge was refused.
#[derive(PartialEq, Eq, Structural, Clone, Copy, Debug)]
pub enum AddNodeErrorKind {
    /// The parent and the child are the same node.
    SelfParent,
    /// The child already has a parent.
    DuplicateParent,
    /// No node with the parent's id exists.
    UnknownParent,
    /// The parent lies in the child's own subtree, so the edge would close a cycle.
    Cycle,
    /// Every id that fits in an `i32` has been handed out.
    Exhausted,
}

/// A rejected insertion or edge, with a readable message.
#[derive(Debug)]
pub struct AddNodeError {
    pub kind: AddNodeErrorKind,
    pub message: String,
}

pub open spec fn digit_char(d: nat) -> char {
    seq!['0', '1', '2', '3', '4', '5', '6', '7', '8', '9'][d as int]
}

/// Decimal digits of a natural number, most significant first.
pub open spec fn digits(n: nat) -> Seq<char>
    decreases n,
{
    if n < 10 {
        seq![digit_char(n)]
    } else {
        digits(n / 10) + seq![digit_char(n % 10)]
    }
}

/// Decimal text of an integer, with a leading minus sign when it is negative.
pub open spec fn decimal_text(n: int) -> Seq<char> {
    if n < 0 {
        seq!['-'] + digits((-n) as nat)
    } else {
        digits(n as nat)
    }
}

/// Relies on `ToString` through the standard `Display` of `i32`: its decimal form.
#[verifier::external_body]
fn decimal(n: i32) -> (r: String)
    ensures
        r@ == decimal_text(n as int),
{
    n.to_string()
}

/// The message that accompanies an error of the given kind.
pub open spec fn message_text(kind: AddNodeErrorKind, parent: int, child: int) -> Seq<char> {
    match kind {
        AddNodeErrorKind::SelfParent => "Cannot add connection, parent and child are the same node: "@
            + decimal_text(parent),
        AddNodeErrorKind::DuplicateParent => "Cannot add connection, child "@ + decimal_text(child)
            + " already has a parent"@,
        AddNodeErrorKind::UnknownParent => "Cannot add connection, parent "@ + decimal_text(parent)
            + " does not exist"@,
        AddNodeErrorKind::Cycle => "Cannot add connection, parent "@ + decimal_text(parent)
            + " lies below child "@ + decimal_text(child),
        AddNodeErrorKind::Exhausted => "Cannot add node, no ids are left"@,
    }
}

impl AddNodeError {
    /// The error of `kind` for an edge from `parent` to `child`.
    pub fn new(kind: AddNodeErrorKind, parent: i32, child: i32) -> (r: AddNodeError)
        ensures
            r.kind == kind,
            r.message@ == message_text(kind, parent as int, child as int),
    {
        let message = match kind {
            AddNodeErrorKind::SelfParent => {
                let mut m = String::from_str(
                    "Cannot add connection, parent and child are the same node: ",
                );
                m.append(decimal(parent).as_str());
                m
            },
            AddNodeErrorKind::DuplicateParent => {
                let mut m = String::from_str("Cannot add connection, child ");
                m.append(decimal(child).as_str());
                m.append(" already has a parent");
                m
            },
            AddNodeErrorKind::UnknownParent => {
                let mut m = String::from_str("Cannot add connection, parent ");
                m.append(decimal(parent).as_str());
                m.append(" does not exist");
                m
            },
            AddNodeErrorKind::Cycle => {
                let mut m = String::from_str("Cannot add connection, parent ");
                m.append(decimal(parent).as_str());
                m.append(" lies below child ");
                m.append(decimal(child).as_str());
                m
            },
            AddNodeErrorKind::Exhausted => String::from_str("Cannot add node, no ids are left"),
        };
        AddNodeError { kind, message }
    }
}


/// The integer view of an optional id.
pub open spec fn id_of(o: Option<i32>) -> Option<int> {
    match o {
        Some(i) => Some(i as int),
        None => None,
    }
}

/// A forest of labelled nodes. The node with id `i` is stored at index `i - 1`, and ids are
/// handed out as 1, 2, 3, ...; `rank` orders the nodes so that every parent comes before
/// its children, which keeps the parent links free of cycles.
pub struct Tree {
    next_id: i32,
    labels: Vec<String>,
    parents: Vec<Option<i32>>,
    kids: Vec<Vec<i32>>,
    rank: Ghost<Seq<int>>,
    top: Ghost<int>,
}

impl Tree {
    /// The number of nodes.
    pub closed spec fn spec_len(self) -> nat {
        self.labels@.len()
    }

    /// The id that the next inserted node receives.
    pub open spec fn next(self) -> int {
        self.spec_len() as int + 1
    }

    pub open spec fn has_id(self, id: int) -> bool {
        1 <= id <= self.spec_len()
    }

    pub closed spec fn label_of(self, id: int) -> Seq<char> {
        self.labels@[id - 1]@
    }

    pub closed spec fn parent_of(self, id: int) -> Option<int> {
        match self.parents@[id - 1] {
            Some(p) => Some(p as int),
            None => None,
        }
    }

    /// The ids of the children of `id`, in the order in which they were attached.
    pub closed spec fn kids_of(self, id: int) -> Seq<i32> {
        self.kids@[id - 1]@
    }

    /// The position of `id` in an order in which every parent precedes its children.
    pub closed spec fn rank_of(self, id: int) -> int {
        self.rank@[id - 1]
    }

    /// A bound above every rank.
    pub closed spec fn top(self) -> int {
        self.top@
    }

    pub open spec fn is_root(self, id: int) -> bool {
        self.has_id(id) && self.parent_of(id) is None
    }

    /// Every parent link points to a node of lower rank and is mirrored, exactly once, in
    /// that node's children; ids are those of positions.
    pub closed spec fn wf(self) -> bool {
        &&& self.parents@.len() == self.labels@.len()
        &&& self.kids@.len() == self.labels@.len()
        &&& self.rank@.len() == self.labels@.len()
        &&& self.labels@.len() < i32::MAX
        &&& self.next_id as int == self.next()
        &&& 0 < self.top()
        &&& forall|i: int| #[trigger] self.has_id(i) ==> 0 <= self.rank_of(i) < self.top()
        &&& forall|c: int| #[trigger]
            self.has_id(c) && self.parent_of(c) is Some ==> {
                let p = self.parent_of(c)->0;
                &&& self.has_id(p)
                &&& self.rank_of(p) < self.rank_of(c)
                &&& self.kids_of(p).contains(c as i32)
            }
        &&& forall|p: int, k: int|
            #![trigger self.kids_of(p)[k]]
            self.has_id(p) && 0 <= k < self.kids_of(p).len() ==> {
                let c = self.kids_of(p)[k] as int;
                &&& self.has_id(c)
                &&& self.rank_of(p) < self.rank_of(c)
                &&& self.parent_of(c) == Some(p)
            }
        &&& forall|p: int, j: int, k: int|
            self.has_id(p) && 0 <= j < k < self.kids_of(p).len() ==> #[trigger] self.kids_of(p)[j]
                != #[trigger] self.kids_of(p)[k]
    }

    /// `new` is `old` with `c` attached as the last child of `p`.
    pub open spec fn linked(old: Tree, new: Tree, p: int, c: int) -> bool {
        &&& new.spec_len() == old.spec_len()
        &&& forall|i: int| #[trigger]
            old.has_id(i) ==> new.label_of(i) == old.label_of(i)
        &&& forall|i: int| #[trigger]
            old.has_id(i) ==> new.parent_of(i) == if i == c {
                Some(p)
            } else {
                old.parent_of(i)
            }
        &&& forall|i: int| #[trigger]
            old.has_id(i) ==> new.kids_of(i) == if i == p {
                old.kids_of(i).push(c as i32)
            } else {
                old.kids_of(i)
            }
    }

    /// `new` is `old` with one more node, labelled `label`, under `parent` if one is given.
    pub open spec fn inserted(old: Tree, new: Tree, label: Seq<char>, parent: Option<int>) -> bool {
        let id = old.next();
        &&& new.spec_len() == old.spec_len() + 1
        &&& new.label_of(id) == label
        &&& new.parent_of(id) == parent
        &&& new.kids_of(id).len() == 0
        &&& forall|i: int| #[trigger]
            old.has_id(i) ==> new.label_of(i) == old.label_of(i)
        &&& forall|i: int| #[trigger] old.has_id(i) ==> new.parent_of(i) == old.parent_of(i)
        &&& forall|i: int| #[trigger]
            old.has_id(i) ==> new.kids_of(i) == if parent == Some(i) {
                old.kids_of(i).push(id as i32)
            } else {
                old.kids_of(i)
            }
    }

    /// What inserting `label` under `parent_id` into `old` gives: the forest `new` and the
    /// result `r`. On success `r` is the new node, with the next id and no children; on
    /// failure `r` names the reason and nothing changed.
    pub open spec fn insert_outcome(
        old: Tree,
        new: Tree,
        label: String,
        parent_id: Option<i32>,
        r: Result<RcNodeRef, AddNodeError>,
    ) -> bool {
        &&& r is Ok <==> old.insert_error(id_of(parent_id)) is None
        &&& match r {
            Ok(n) => {
                &&& n.id == old.next()
                &&& n.label == label
                &&& n.children@.len() == 0
                &&& Tree::inserted(old, new, label@, id_of(parent_id))
            },
            Err(e) => {
                &&& old.insert_error(id_of(parent_id)) == Some(e.kind)
                &&& e.message@ == message_text(
                    e.kind,
                    if parent_id is Some { parent_id->0 as int } else { 0 },
                    old.next(),
                )
                &&& new == old
            },
        }
    }

    /// The error, if any, with which inserting a node under `parent` is refused.
    pub open spec fn insert_error(self, parent: Option<int>) -> Option<AddNodeErrorKind> {
        if !self.has_room() {
            Some(AddNodeErrorKind::Exhausted)
        } else {
            match parent {
            None => None,
            Some(p) => if p == self.next() {
                Some(AddNodeErrorKind::SelfParent)
            } else if !self.has_id(p) {
                Some(AddNodeErrorKind::UnknownParent)
            } else {
                None
            },
            }
        }
    }

    /// The error, if any, with which an edge from `p` to `c` is refused, checked in this order.
    pub open spec fn edge_error(self, p: int, c: int) -> Option<AddNodeErrorKind> {
        if p == c {
            Some(AddNodeErrorKind::SelfParent)
        } else if self.parent_of(c) is Some {
            Some(AddNodeErrorKind::DuplicateParent)
        } else if !self.has_id(p) {
            Some(AddNodeErrorKind::UnknownParent)
        } else if self.descends(p, c) {
            Some(AddNodeErrorKind::Cycle)
        } else {
            None
        }
    }

    /// An empty forest whose first node will get id 1.
    pub fn new() -> (r: Tree)
        ensures
            r.wf(),
            r.spec_len() == 0,
    {
        Tree {
            next_id: 1,
            labels: Vec::new(),
            parents: Vec::new(),
            kids: Vec::new(),
            rank: Ghost(Seq::empty()),
            top: Ghost(1),
        }
    }

    /// Records `c` as the last child of `p`.
    fn link(&mut self, p: i32, c: i32)
        requires
            old(self).wf(),
            old(self).has_id(p as int),
            old(self).has_id(c as int),
            old(self).parent_of(c as int) is None,
            !old(self).descends(p as int, c as int),
        ensures
            final(self).wf(),
            Tree::linked(*old(self), *final(self), p as int, c as int),
    {
        proof {
            if self.kids_of(p as int).contains(c) {
                let k = choose|k: int|
                    0 <= k < self.kids_of(p as int).len() && self.kids_of(p as int)[k] == c;
                assert(self.kids_of(p as int)[k] == c);
            }
        }
        assert(!self.kids_of(p as int).contains(c));
        let ghost prev = *self;
        let ghost shifted = Seq::new(
            prev.rank@.len(),
            |i: int|
                if prev.descends(i + 1, c as int) {
                    prev.rank@[i] + prev.top@
                } else {
                    prev.rank@[i]
                },
        );
        self.parents.set((c - 1) as usize, Some(p));
        self.kids[(p - 1) as usize].push(c);
        self.rank = Ghost(shifted);
        self.top = Ghost(2 * prev.top@);
        proof {
            assert(prev.has_id(c as int));
            assert(prev.has_id(p as int));
            assert(prev.descends(c as int, c as int));
            assert forall|x: int| #[trigger] prev.has_id(x) implies self.rank_of(x) == if prev.descends(
                x,
                c as int,
            ) {
                prev.rank_of(x) + prev.top()
            } else {
                prev.rank_of(x)
            } && 0 <= self.rank_of(x) < self.top() by {}
            assert forall|x: int| #[trigger] self.has_id(x) implies 0 <= self.rank_of(x) < self.top() by {
                assert(prev.has_id(x));
            }
            assert forall|x: int| #[trigger]
                prev.has_id(x) && x != c && prev.parent_of(x) is Some implies prev.descends(x, c as int)
                == prev.descends(prev.parent_of(x)->0, c as int) by {}
            assert forall|i: int| #[trigger] prev.has_id(i) implies self.kids_of(i) == if i == p {
                prev.kids_of(i).push(c as i32)
            } else {
                prev.kids_of(i)
            } by {}
            assert forall|q: int, k: int|
                self.has_id(q) && 0 <= k < self.kids_of(q).len() implies {
                    let x = #[trigger] self.kids_of(q)[k] as int;
                    &&& self.has_id(x)
                    &&& self.rank_of(q) < self.rank_of(x)
                    &&& self.parent_of(x) == Some(q)
                } by {
                assert(prev.has_id(q));
                if q == p && k == prev.kids_of(q).len() {
                } else {
                    assert(prev.kids_of(q)[k] == self.kids_of(q)[k]);
                    let x = prev.kids_of(q)[k] as int;
                    assert(prev.has_id(x));
                    assert(x != c);
                }
            }
            assert forall|q: int, j: int, k: int|
                self.has_id(q) && 0 <= j < k < self.kids_of(q).len() implies #[trigger] self.kids_of(
                q,
            )[j] != #[trigger] self.kids_of(q)[k] by {
                if q == p && k == prev.kids_of(q).len() {
                    assert(prev.kids_of(q)[j] == self.kids_of(q)[j]);
                } else {
                    assert(prev.kids_of(q)[j] == self.kids_of(q)[j]);
                    assert(prev.kids_of(q)[k] == self.kids_of(q)[k]);
                }
            }
            assert forall|x: int| #[trigger]
                self.has_id(x) && self.parent_of(x) is Some implies {
                    let q = self.parent_of(x)->0;
                    &&& self.has_id(q)
                    &&& self.rank_of(q) < self.rank_of(x)
                    &&& self.kids_of(q).contains(x as i32)
                } by {
                if x == c {
                    assert(self.kids_of(p as int)[prev.kids_of(p as int).len() as int] == c);
                } else {
                    assert(self.parent_of(x) == prev.parent_of(x));
                    assert(prev.has_id(x));
                    let q = prev.parent_of(x)->0;
                    assert(prev.kids_of(q).contains(x as i32));
                    let k = choose|k: int|
                        0 <= k < prev.kids_of(q).len() && prev.kids_of(q)[k] == x as i32;
                    assert(prev.has_id(q));
                    assert(self.kids_of(q)[k] == x as i32);
                }
            }
        }
    }

    /// Whether one more node still gets an id that fits in an `i32`.
    pub open spec fn has_room(self) -> bool {
        self.spec_len() + 1 < i32::MAX
    }

    /// A node without children is an ancestor of no other node.
    proof fn lemma_childless_not_above(self, x: int, c: int)
        requires
            self.wf(),
            self.has_id(x),
            self.has_id(c),
            x != c,
            self.kids_of(c).len() == 0,
        ensures
            !self.descends(x, c),
        decreases self.rank_of(x),
    {
        assert(self.has_id(x));
        if let Some(q) = self.parent_of(x) {
            if q != c {
                self.lemma_childless_not_above(q, c);
            } else {
                assert(self.kids_of(q).contains(x as i32));
            }
        }
    }

    /// Whether `c` is `p` itself or one of its ancestors.
    fn is_below(&self, p: i32, c: i32) -> (r: bool)
        requires
            self.wf(),
            self.has_id(p as int),
            self.has_id(c as int),
        ensures
            r == self.descends(p as int, c as int),
    {
        let mut x = p;
        loop
            invariant
                self.wf(),
                self.has_id(x as int),
                self.has_id(c as int),
                self.descends(p as int, c as int) == self.descends(x as int, c as int),
            decreases self.rank_of(x as int),
        {
            if x == c {
                return true;
            }
            assert(self.has_id(x as int));
            match self.parents[(x - 1) as usize] {
                None => {
                    return false;
                },
                Some(q) => {
                    x = q;
                },
            }
        }
    }

    /// Inserts a node labelled `label` under `parent_id`, or as a root when none is given.
    /// The new node gets the next id; a refused insertion changes nothing.
    pub fn add_node(&mut self, label: String, parent_id: Option<i32>) -> (r: Result<
        RcNodeRef,
        AddNodeError,
    >)
        requires
            old(self).wf(),
        ensures
            final(self).wf(),
            Tree::insert_outcome(*old(self), *final(self), label, parent_id, r),
    {
        if self.next_id >= i32::MAX {
            return Err(AddNodeError::new(AddNodeErrorKind::Exhausted, 0, self.next_id));
        }
        let id = self.next_id;
        if let Some(p) = parent_id {
            if p == id {
                return Err(AddNodeError::new(AddNodeErrorKind::SelfParent, p, id));
            }
            if p < 1 || p >= id {
                return Err(AddNodeError::new(AddNodeErrorKind::UnknownParent, p, id));
            }
        }
        let ghost prev = *self;
        self.labels.push(label.clone());
        self.parents.push(None);
        self.kids.push(Vec::new());
        self.rank = Ghost(prev.rank@.push(prev.top@));
        self.top = Ghost(prev.top@ + 1);
        self.next_id = id + 1;
        proof {
            assert forall|i: int| #[trigger] prev.has_id(i) implies self.label_of(i) == prev.label_of(i)
                && self.parent_of(i) == prev.parent_of(i) && self.kids_of(i) == prev.kids_of(i) by {
                assert(self.labels@[i - 1] == prev.labels@[i - 1]);
                assert(self.parents@[i - 1] == prev.parents@[i - 1]);
                assert(self.kids@[i - 1] == prev.kids@[i - 1]);
                assert(self.rank@[i - 1] == prev.rank@[i - 1]);
            }
            assert(self.rank_of(id as int) == prev.top());
            assert forall|x: int| #[trigger] self.has_id(x) implies 0 <= self.rank_of(x) < self.top() by {
                if x != id {
                    assert(prev.has_id(x));
                }
            }
            assert(self.kids_of(id as int) =~= Seq::<i32>::empty());
            assert forall|q: int, k: int|
                self.has_id(q) && 0 <= k < self.kids_of(q).len() implies {
                    let x = #[trigger] self.kids_of(q)[k] as int;
                    &&& self.has_id(x)
                    &&& self.rank_of(q) < self.rank_of(x)
                    &&& self.parent_of(x) == Some(q)
                } by {
                assert(prev.has_id(q));
                assert(prev.kids_of(q)[k] == self.kids_of(q)[k]);
            }
            assert forall|q: int, j: int, k: int|
                self.has_id(q) && 0 <= j < k < self.kids_of(q).len() implies #[trigger] self.kids_of(
                q,
            )[j] != #[trigger] self.kids_of(q)[k] by {
                assert(prev.kids_of(q)[j] == self.kids_of(q)[j]);
                assert(prev.kids_of(q)[k] == self.kids_of(q)[k]);
            }
            assert forall|x: int| #[trigger]
                self.has_id(x) && self.parent_of(x) is Some implies {
                    let q = self.parent_of(x)->0;
                    &&& self.has_id(q)
                    &&& self.rank_of(q) < self.rank_of(x)
                    &&& self.kids_of(q).contains(x as i32)
                } by {
                assert(prev.has_id(x));
                assert(prev.has_id(prev.parent_of(x)->0));
            }
        }
        let ghost mid = *self;
        if let Some(p) = parent_id {
            proof {
                mid.lemma_childless_not_above(p as int, id as int);
            }
            self.link(p, id);
            proof {
                assert forall|i: int| #[trigger] prev.has_id(i) implies self.kids_of(i) == if id_of(
                    parent_id,
                ) == Some(i) {
                    prev.kids_of(i).push(id as i32)
                } else {
                    prev.kids_of(i)
                } by {
                    assert(mid.has_id(i));
                }
                assert forall|i: int| #[trigger] prev.has_id(i) implies self.label_of(i)
                    == prev.label_of(i) && self.parent_of(i) == prev.parent_of(i) by {
                    assert(mid.has_id(i));
                }
                assert(mid.has_id(id as int));
                assert(self.label_of(id as int) == label@);
                assert(self.parent_of(id as int) == Some(p as int));
                assert(self.kids_of(id as int).len() == 0);
            }
        }
        Ok(as_rc_ref(Node::new(id, label)))
    }

    /// Attaches the node of this forest that `child_ref` refers to as the last child of
    /// `parent_id`. A refused edge changes nothing.
    pub fn add_edge(&mut self, parent_id: i32, child_ref: RcNodeRef) -> (r: Result<
        (),
        AddNodeError,
    >)
        requires
            old(self).wf(),
            old(self).has_id(child_ref.id as int),
        ensures
            final(self).wf(),
            r is Ok <==> old(self).edge_error(parent_id as int, child_ref.id as int) is None,
            match r {
                Ok(_) => Tree::linked(
                    *old(self),
                    *final(self),
                    parent_id as int,
                    child_ref.id as int,
                ),
                Err(e) => {
                    &&& old(self).edge_error(parent_id as int, child_ref.id as int) == Some(e.kind)
                    &&& e.message@ == message_text(e.kind, parent_id as int, child_ref.id as int)
                    &&& *final(self) == *old(self)
                },
            },
    {
        let c = child_ref.id;
        let kind = if parent_id == c {
            Some(AddNodeErrorKind::SelfParent)
        } else if self.parents[(c - 1) as usize].is_some() {
            Some(AddNodeErrorKind::DuplicateParent)
        } else if parent_id < 1 || parent_id >= self.next_id {
            Some(AddNodeErrorKind::UnknownParent)
        } else if self.is_below(parent_id, c) {
            Some(AddNodeErrorKind::Cycle)
        } else {
            None
        };
        match kind {
            Some(k) => Err(AddNodeError::new(k, parent_id, c)),
            None => {
                self.link(parent_id, c);
                Ok(())
            },
        }
    }

    /// `n` is the subtree rooted at `id`: same id and label, and its children are the
    /// subtrees of the children of `id`, in order. (The bound on ranks, which only makes the
    /// recursion finite, holds of every child in a well-formed forest.)
    pub open spec fn subtree_matches(self, n: Node, id: int) -> bool
        decreases self.top() - self.rank_of(id),
    {
        if self.has_id(id) {
            &&& n.id == id
            &&& n.label@ == self.label_of(id)
            &&& n.children@.len() == self.kids_of(id).len()
            &&& forall|k: int|
                0 <= k < n.children@.len() && self.rank_of(id) < self.rank_of(
                    self.kids_of(id)[k] as int,
                ) <= self.top()
                    ==> self.subtree_matches(*#[trigger] n.children@[k], self.kids_of(id)[k] as int)
        } else {
            false
        }
    }

    /// The roots among the ids `1..=n`, in ascending order.
    pub open spec fn roots_upto(self, n: int) -> Seq<int>
        decreases n,
    {
        if n <= 0 {
            Seq::empty()
        } else if self.parent_of(n) is None {
            self.roots_upto(n - 1).push(n)
        } else {
            self.roots_upto(n - 1)
        }
    }

    /// The ids of all roots, in ascending order.
    pub open spec fn root_ids(self) -> Seq<int> {
        self.roots_upto(self.spec_len() as int)
    }

    /// `s` is the projection of the forest: one entry per root, in ascending id order,
    /// each holding that root's whole subtree.
    pub open spec fn is_projection(self, s: Seq<RcNodeRef>) -> bool {
        &&& s.len() == self.root_ids().len()
        &&& forall|i: int| 0 <= i < s.len() ==> self.subtree_matches(*#[trigger] s[i], self.root_ids()[i])
    }

    /// A fresh copy of the subtree rooted at `id`.
    fn build(&self, id: i32) -> (r: Node)
        requires
            self.wf(),
            self.has_id(id as int),
        ensures
            self.subtree_matches(r, id as int),
        decreases self.top() - self.rank_of(id as int),
    {
        let i = (id - 1) as usize;
        let n = self.kids[i].len();
        let mut children: Vec<RcNodeRef> = Vec::new();
        let mut k: usize = 0;
        while k < n
            invariant
                self.wf(),
                self.has_id(id as int),
                i == id - 1,
                n == self.kids_of(id as int).len(),
                k <= n,
                children@.len() == k,
                forall|j: int|
                    0 <= j < k ==> self.subtree_matches(
                        *#[trigger] children@[j],
                        self.kids_of(id as int)[j] as int,
                    ),
            decreases n - k,
        {
            let c = self.kids[i][k];
            assert(self.kids_of(id as int)[k as int] == c);
            assert(self.has_id(id as int));
            assert(self.has_id(c as int));
            let child = self.build(c);
            children.push(as_rc_ref(child));
            k += 1;
        }
        let label = self.labels[i].clone();
        let r = Node::new_with_children(id, label, children);
        assert forall|j: int|
            0 <= j < r.children@.len() && self.rank_of(id as int) < self.rank_of(
                self.kids_of(id as int)[j] as int,
            ) <= self.top()
            implies self.subtree_matches(*#[trigger] r.children@[j], self.kids_of(id as int)[j] as int)
        by {
            assert(self.subtree_matches(*children@[j], self.kids_of(id as int)[j] as int));
        }
        r
    }

    /// The roots of the forest, in ascending id order, each with its whole subtree.
    pub fn to_root_list(&self) -> (r: Vec<RcNodeRef>)
        requires
            self.wf(),
        ensures
            self.is_projection(r@),
    {
        let mut r: Vec<RcNodeRef> = Vec::new();
        let mut id: i32 = 1;
        while id < self.next_id
            invariant
                self.wf(),
                1 <= id <= self.next(),
                r@.len() == self.roots_upto(id - 1).len(),
                forall|i: int|
                    0 <= i < r@.len() ==> self.subtree_matches(
                        *#[trigger] r@[i],
                        self.roots_upto(id - 1)[i],
                    ),
            decreases self.next() - id,
        {
            if self.parents[(id - 1) as usize].is_none() {
                let node = self.build(id);
                let ghost before = r@;
                r.push(as_rc_ref(node));
                assert(self.roots_upto(id as int) == self.roots_upto(id - 1).push(id as int));
                assert forall|i: int| 0 <= i < r@.len() implies self.subtree_matches(
                    *#[trigger] r@[i],
                    self.roots_upto(id as int)[i],
                ) by {
                    if i < r@.len() - 1 {
                        assert(r@[i] == before[i]);
                    }
                }
            }
            id += 1;
        }
        r
    }

    /// The number of nodes.
    pub fn len(&self) -> (r: i32)
        requires
            self.wf(),
        ensures
            r as int == self.spec_len(),
    {
        self.labels.len() as i32
    }

    /// A fresh copy of the subtree rooted at `index`, if such a node exists.
    pub fn get_node(&self, index: &i32) -> (r: Option<RcNodeRef>)
        requires
            self.wf(),
        ensures
            r is Some <==> self.has_id(*index as int),
            r matches Some(n) ==> self.subtree_matches(*n, *index as int),
    {
        if 1 <= *index && *index < self.next_id {
            Some(as_rc_ref(self.build(*index)))
        } else {
            None
        }
    }

    /// How many of the ids `1..=n` have a parent.
    pub open spec fn edges_upto(self, n: int) -> nat
        decreases n,
    {
        if n <= 0 {
            0
        } else if self.parent_of(n) is Some {
            self.edges_upto(n - 1) + 1
        } else {
            self.edges_upto(n - 1)
        }
    }

    /// How many of the ids `1..=n` have at least one child.
    pub open spec fn parents_upto(self, n: int) -> nat
        decreases n,
    {
        if n <= 0 {
            0
        } else if self.kids_of(n).len() > 0 {
            self.parents_upto(n - 1) + 1
        } else {
            self.parents_upto(n - 1)
        }
    }

    /// The number of parent links, one per node that has a parent.
    pub fn edge_count(&self) -> (r: usize)
        requires
            self.wf(),
        ensures
            r == self.edges_upto(self.spec_len() as int),
    {
        let mut count: usize = 0;
        let mut i: usize = 0;
        while i < self.parents.len()
            invariant
                self.wf(),
                i <= self.spec_len(),
                count == self.edges_upto(i as int),
                count <= i,
            decreases self.spec_len() - i,
        {
            if self.parents[i].is_some() {
                count += 1;
            }
            i += 1;
        }
        count
    }

    /// The number of nodes that have at least one child.
    pub fn parent_count(&self) -> (r: usize)
        requires
            self.wf(),
        ensures
            r == self.parents_upto(self.spec_len() as int),
    {
        let mut count: usize = 0;
        let mut i: usize = 0;
        while i < self.kids.len()
            invariant
                self.wf(),
                i <= self.spec_len(),
                count == self.parents_upto(i as int),
                count <= i,
            decreases self.spec_len() - i,
        {
            if self.kids[i].len() > 0 {
                count += 1;
            }
            i += 1;
        }
        count
    }

    /// The ids of the children of `id`, in the order in which they were attached; empty for
    /// an unknown id.
    pub fn child_ids(&self, id: i32) -> (r: Vec<i32>)
        requires
            self.wf(),
        ensures
            self.has_id(id as int) ==> r@ == self.kids_of(id as int),
            !self.has_id(id as int) ==> r@.len() == 0,
    {
        let mut r: Vec<i32> = Vec::new();
        if 1 <= id && id < self.next_id {
            let i = (id - 1) as usize;
            let mut k: usize = 0;
            while k < self.kids[i].len()
                invariant
                    self.wf(),
                    i == id - 1,
                    self.has_id(id as int),
                    k <= self.kids_of(id as int).len(),
                    r@ == self.kids_of(id as int).subrange(0, k as int),
                decreases self.kids_of(id as int).len() - k,
            {
                r.push(self.kids[i][k]);
                k += 1;
            }
            assert(r@ =~= self.kids_of(id as int));
        }
        r
    }
}

impl Tree {
    /// `r` is `id` itself or one of its ancestors, so `id` is reached from `r` through children.
    pub open spec fn descends(self, id: int, r: int) -> bool
        decreases self.rank_of(id),
    {
        if id == r {
            true
        } else {
            match self.parent_of(id) {
                Some(p) => 0 <= self.rank_of(p) < self.rank_of(id) && self.descends(p, r),
                None => false,
            }
        }
    }

    /// The root of the tree that holds `id`.
    pub open spec fn root_of(self, id: int) -> int
        decreases self.rank_of(id),
    {
        match self.parent_of(id) {
            Some(p) => if 0 <= self.rank_of(p) < self.rank_of(id) {
                self.root_of(p)
            } else {
                id
            },
            None => id,
        }
    }

    proof fn lemma_root_of(self, id: int)
        requires
            self.wf(),
            self.has_id(id),
        ensures
            self.is_root(self.root_of(id)),
            self.descends(id, self.root_of(id)),
            forall|r: int| self.is_root(r) && #[trigger] self.descends(id, r) ==> r == self.root_of(id),
        decreases self.rank_of(id),
    {
        assert(self.has_id(id));
        match self.parent_of(id) {
            Some(p) => {
                assert(self.has_id(p));
                self.lemma_root_of(p);
                assert forall|r: int| self.is_root(r) && #[trigger] self.descends(id, r) implies r
                    == self.root_of(id) by {
                    if id == r {
                        assert(!self.is_root(id));
                    } else {
                        assert(self.descends(p, r));
                    }
                }
            },
            None => {},
        }
    }

    proof fn lemma_roots_upto(self, n: int)
        requires
            self.wf(),
            0 <= n <= self.spec_len(),
        ensures
            forall|i: int|
                0 <= i < self.roots_upto(n).len() ==> 1 <= #[trigger] self.roots_upto(n)[i] <= n
                    && self.is_root(self.roots_upto(n)[i]),
            forall|i: int, j: int|
                0 <= i < j < self.roots_upto(n).len() ==> #[trigger] self.roots_upto(n)[i]
                    < #[trigger] self.roots_upto(n)[j],
            forall|x: int| #[trigger] self.is_root(x) && x <= n ==> self.roots_upto(n).contains(x),
        decreases n,
    {
        if n > 0 {
            self.lemma_roots_upto(n - 1);
            let s = self.roots_upto(n - 1);
            if self.parent_of(n) is None {
                assert(self.roots_upto(n) == s.push(n));
                assert(self.roots_upto(n)[s.len() as int] == n);
                assert forall|x: int| #[trigger] self.is_root(x) && x <= n implies self.roots_upto(
                    n,
                ).contains(x) by {
                    if x < n {
                        let i = choose|i: int| 0 <= i < s.len() && s[i] == x;
                        assert(self.roots_upto(n)[i] == x);
                    }
                }
            }
        }
    }
}

/// Every node of a well-formed forest is reached from exactly one root of its projection:
/// some entry of `root_ids` is an ancestor of it (or the node itself), and no two are.
pub proof fn lemma_root_partition(tree: Tree, id: int)
    requires
        tree.wf(),
        tree.has_id(id),
    ensures
        exists|i: int|
            0 <= i < tree.root_ids().len() && #[trigger] tree.descends(id, tree.root_ids()[i]),
        forall|i: int, j: int|
            0 <= i < tree.root_ids().len() && 0 <= j < tree.root_ids().len() && #[trigger] tree.descends(
                id,
                tree.root_ids()[i],
            ) && #[trigger] tree.descends(id, tree.root_ids()[j]) ==> i == j,
{
    let n = tree.spec_len() as int;
    tree.lemma_root_of(id);
    tree.lemma_roots_upto(n);
    let s = tree.root_ids();
    let r = tree.root_of(id);
    assert(s.contains(r));
    let k = choose|k: int| 0 <= k < s.len() && s[k] == r;
    assert(tree.descends(id, s[k]));
    assert forall|i: int, j: int|
        0 <= i < s.len() && 0 <= j < s.len() && #[trigger] tree.descends(id, s[i])
            && #[trigger] tree.descends(id, s[j]) implies i == j by {
        assert(tree.is_root(s[i]));
        assert(tree.is_root(s[j]));
        if i < j {
            assert(s[i] < s[j]);
        } else if j < i {
            assert(s[j] < s[i]);
        }
    }
}

/// The children lists and the parent links of a well-formed forest say the same thing: `c` is
/// listed among the children of `p` exactly when `p` is the parent of `c`. So the nodes that
/// `descends` reaches from a root are those found below it through children in the projection.
pub proof fn lemma_children_match_parents(tree: Tree, p: int, c: int)
    requires
        tree.wf(),
        tree.has_id(p),
        tree.has_id(c),
    ensures
        tree.kids_of(p).contains(c as i32) <==> tree.parent_of(c) == Some(p),
{
    if tree.kids_of(p).contains(c as i32) {
        let k = choose|k: int| 0 <= k < tree.kids_of(p).len() && tree.kids_of(p)[k] == c as i32;
        assert(tree.kids_of(p)[k] == c as i32);
    }
    assert(tree.has_id(c));
}

/// Once a node has a parent, an edge to it from any other node is refused as a duplicate,
/// and a refused edge leaves the forest, that parent link included, as it was.
pub proof fn lemma_single_parent(tree: Tree, p: int, c: int)
    requires
        tree.wf(),
        tree.has_id(c),
        tree.parent_of(c) is Some,
        p != c,
    ensures
        tree.edge_error(p, c) == Some(AddNodeErrorKind::DuplicateParent),
{
}

/// Ids are handed out in call order: a successful insertion returns the id one past the
/// number of nodes before it and adds exactly one node, and a failed one adds none. Starting
/// from an empty forest the ids are therefore 1, 2, 3, ...
pub proof fn lemma_monotonic_ids(
    before: Tree,
    after: Tree,
    label: String,
    parent_id: Option<i32>,
    r: Result<RcNodeRef, AddNodeError>,
)
    requires
        Tree::insert_outcome(before, after, label, parent_id, r),
    ensures
        r matches Ok(n) ==> n.id == before.spec_len() + 1 && after.spec_len() == before.spec_len()
            + 1,
        r is Err ==> after.spec_len() == before.spec_len(),
{
}

/// Inserting a node under the id that it would itself receive is refused as a self-parent
/// edge, and the forest keeps its size.
pub proof fn lemma_no_self_parent(
    tree: Tree,
    after: Tree,
    label: String,
    r: Result<RcNodeRef, AddNodeError>,
)
    requires
        tree.has_room(),
        Tree::insert_outcome(tree, after, label, Some(tree.next() as i32), r),
    ensures
        r matches Err(e) && e.kind == AddNodeErrorKind::SelfParent,
        after.spec_len() == tree.spec_len(),
{
}

impl Default for Tree {
    fn default() -> (r: Tree)
        ensures
            r.wf(),
            r.spec_len() == 0,
    {
        Tree::new()
    }
}

} // verus!
