//! The element tree that the lexer builds and the constructor walks.
//!
//! The nodes are held in an `rctree` tree. [`DomTree`] owns its root and a cursor
//! (the insertion point), and every change goes through its methods, so the tree
//! can be described as a sequence of slots: the nodes ever created, numbered in
//! the order of creation, each with its element, its parent and its children.
use vstd::prelude::*;
use crate::{ASTElement, ElemV};

verus! {

/// One node of the tree.
pub struct Slot {
    pub elem: ElemV,
    pub parent: Option<nat>,
    pub children: Seq<nat>,
}

/// A node of an `rctree` tree: a shared handle to its data and links.
#[verifier::external_type_specification]
#[verifier::external_body]
#[verifier::reject_recursive_types(T)]
pub struct ExNode<T>(rctree::Node<T>);

/// A tree of elements with a cursor at the insertion point.
///
/// `rctree` nodes are shared handles whose links change through `&self`, so the
/// tree is described through this owner, which every change goes through.
pub struct DomTree {
    root: rctree::Node<ASTElement>,
    cursor: rctree::Node<ASTElement>,
}

// The nodes ever created in a tree, numbered in the order of creation; the root is 0.
pub uninterp spec fn dom_slots(t: DomTree) -> Seq<Slot>;

// The number of the node that the cursor is at.
pub uninterp spec fn dom_cursor(t: DomTree) -> nat;

/// The slots after a new node with element `e` is appended to the children of `c`.
pub open spec fn appended(s: Seq<Slot>, c: nat, e: ElemV) -> Seq<Slot> {
    s.update(c as int, Slot { children: s[c as int].children.push(s.len()), ..s[c as int] }).push(
        Slot { elem: e, parent: Some(c), children: seq![] },
    )
}

/// The slots after the last child of `c` is detached.
pub open spec fn detached_last(s: Seq<Slot>, c: nat) -> Seq<Slot> {
    let x = s[c as int].children.last();
    let s1 = s.update(c as int, Slot { children: s[c as int].children.drop_last(), ..s[c as int] });
    s1.update(x as int, Slot { parent: None, ..s1[x as int] })
}

/// The node `i` followed by its ancestors, up to the root.
pub open spec fn path_up(s: Seq<Slot>, i: nat) -> Seq<nat>
    decreases i,
{
    if i < s.len() {
        match s[i as int].parent {
            Some(p) => if p < i {
                seq![i] + path_up(s, p)
            } else {
                seq![i]
            },
            None => seq![i],
        }
    } else {
        seq![i]
    }
}

/// The start and end of node `i` and of its descendants, in tree order.
pub open spec fn edges(s: Seq<Slot>, i: nat) -> Seq<(bool, ElemV)>
    decreases s.len() - i, 1nat, 0nat,
{
    if i < s.len() {
        seq![(true, s[i as int].elem)] + child_edges(s, i, s[i as int].children) + seq![
            (false, s[i as int].elem),
        ]
    } else {
        seq![]
    }
}

/// The edges of the children `cs` of node `i`, one after the other.
pub open spec fn child_edges(s: Seq<Slot>, i: nat, cs: Seq<nat>) -> Seq<(bool, ElemV)>
    decreases s.len() - i, 0nat, cs.len(),
{
    if cs.len() == 0 || i >= s.len() {
        seq![]
    } else if i < cs[0] < s.len() {
        edges(s, cs[0]) + child_edges(s, i, cs.drop_first())
    } else {
        child_edges(s, i, cs.drop_first())
    }
}

/// Every child comes after its parent and points back to it.
pub open spec fn children_ok(s: Seq<Slot>) -> bool {
    forall|i: int, j: int|
        0 <= i < s.len() && 0 <= j < s[i].children.len() ==> i < #[trigger] s[i].children[j]
            < s.len() && s[s[i].children[j] as int].parent == Some(i as nat)
}

/// The children of a node are in the order of creation.
pub open spec fn children_sorted(s: Seq<Slot>) -> bool {
    forall|i: int, j: int, k: int|
        0 <= i < s.len() && 0 <= j < k < s[i].children.len() ==> #[trigger] s[i].children[j]
            < #[trigger] s[i].children[k]
}

/// A parent comes before its children.
pub open spec fn parents_ok(s: Seq<Slot>) -> bool {
    forall|i: int| 0 <= i < s.len() && (#[trigger] s[i].parent) is Some ==> s[i].parent->0 < i
}

/// Node `x` is the last child of its parent.
pub open spec fn last_of_parent(s: Seq<Slot>, x: nat) -> bool {
    x < s.len() && match s[x as int].parent {
        Some(q) => q < s.len() && s[q as int].children.len() > 0 && s[q as int].children.last() == x,
        None => false,
    }
}

/// The cursor is in the tree, and it and each of its ancestors below the root is
/// the last child of its parent: everything after the cursor in tree order is closed.
pub open spec fn spine_ok(s: Seq<Slot>, c: nat) -> bool {
    let p = path_up(s, c);
    &&& p.last() == 0
    &&& forall|k: int| 0 <= k < p.len() - 1 ==> last_of_parent(s, #[trigger] p[k])
}

/// Well-formedness of a tree and its cursor.
pub open spec fn tree_wf(s: Seq<Slot>, c: nat) -> bool {
    &&& s.len() > 0
    &&& s[0].parent is None
    &&& c < s.len()
    &&& children_ok(s)
    &&& children_sorted(s)
    &&& parents_ok(s)
    &&& spine_ok(s, c)
}

impl DomTree {
    pub open spec fn slots(&self) -> Seq<Slot> {
        dom_slots(*self)
    }

    pub open spec fn cursor(&self) -> nat {
        dom_cursor(*self)
    }

    pub open spec fn wf(&self) -> bool {
        tree_wf(self.slots(), self.cursor())
    }

    /// The element at the cursor.
    pub open spec fn at_cursor(&self) -> ElemV {
        self.slots()[self.cursor() as int].elem
    }

    /// Relies on `rctree::Node::new`: a tree of one node, with the cursor at it.
    #[verifier::external_body]
    pub(crate) fn new(e: ASTElement) -> (r: DomTree)
        ensures
            dom_slots(r) == seq![Slot { elem: e@, parent: None, children: seq![] }],
            dom_cursor(r) == 0,
    {
        let n = rctree::Node::new(e);
        DomTree { root: n.clone(), cursor: n }
    }

    /// Relies on `rctree::Node::append`: a new node with element `e` becomes the
    /// last child of the cursor.
    #[verifier::external_body]
    fn append_child(&mut self, e: ASTElement)
        requires
            dom_cursor(*old(self)) < dom_slots(*old(self)).len(),
        ensures
            dom_slots(*final(self)) == appended(dom_slots(*old(self)), dom_cursor(*old(self)), e@),
            dom_cursor(*final(self)) == dom_cursor(*old(self)),
    {
        self.cursor.append(rctree::Node::new(e));
    }

    /// Relies on `rctree::Node::last_child`: the cursor moves to its last child.
    #[verifier::external_body]
    fn descend_last(&mut self)
        requires
            dom_cursor(*old(self)) < dom_slots(*old(self)).len(),
            dom_slots(*old(self))[dom_cursor(*old(self)) as int].children.len() > 0,
        ensures
            dom_slots(*final(self)) == dom_slots(*old(self)),
            dom_cursor(*final(self)) == dom_slots(*old(self))[dom_cursor(
                *old(self),
            ) as int].children.last(),
    {
        self.cursor = self.cursor.last_child().unwrap();
    }

    /// Relies on `rctree::Node::parent`: the cursor moves to its parent if it has
    /// one, and the result says whether it had.
    #[verifier::external_body]
    fn ascend(&mut self) -> (r: bool)
        requires
            tree_wf(dom_slots(*old(self)), dom_cursor(*old(self))),
        ensures
            dom_slots(*final(self)) == dom_slots(*old(self)),
            r == dom_slots(*old(self))[dom_cursor(*old(self)) as int].parent is Some,
            r ==> dom_cursor(*final(self)) == dom_slots(*old(self))[dom_cursor(
                *old(self),
            ) as int].parent->0,
            !r ==> dom_cursor(*final(self)) == dom_cursor(*old(self)),
    {
        match self.cursor.parent() {
            Some(p) => {
                self.cursor = p;
                true
            },
            None => false,
        }
    }

    /// Relies on `rctree::Node::detach`: the last child of the cursor leaves the tree.
    #[verifier::external_body]
    fn detach_last_child(&mut self)
        requires
            dom_cursor(*old(self)) < dom_slots(*old(self)).len(),
            dom_slots(*old(self))[dom_cursor(*old(self)) as int].children.len() > 0,
        ensures
            dom_slots(*final(self)) == detached_last(dom_slots(*old(self)), dom_cursor(*old(self))),
            dom_cursor(*final(self)) == dom_cursor(*old(self)),
    {
        self.cursor.last_child().unwrap().detach();
    }

    /// Relies on `rctree::Node::last_child` and `rctree::Node::borrow`: a copy of
    /// the element of the cursor's last child, if it has children.
    #[verifier::external_body]
    pub(crate) fn last_child_elem(&self) -> (r: Option<ASTElement>)
        requires
            tree_wf(dom_slots(*self), dom_cursor(*self)),
        ensures
            match r {
                Some(e) => dom_slots(*self)[dom_cursor(*self) as int].children.len() > 0 && e@
                    == dom_slots(*self)[dom_slots(*self)[dom_cursor(
                    *self,
                ) as int].children.last() as int].elem,
                None => dom_slots(*self)[dom_cursor(*self) as int].children.len() == 0,
            },
    {
        self.cursor.last_child().map(|n| n.borrow().clone())
    }

    /// Relies on `rctree::Node::borrow`: a copy of the element at the cursor.
    #[verifier::external_body]
    pub(crate) fn cursor_elem(&self) -> (r: ASTElement)
        requires
            tree_wf(dom_slots(*self), dom_cursor(*self)),
        ensures
            r@ == dom_slots(*self)[dom_cursor(*self) as int].elem,
    {
        self.cursor.borrow().clone()
    }

    /// Relies on `rctree::Node::borrow_mut`: the element at the cursor is replaced.
    #[verifier::external_body]
    fn put_cursor_elem(&mut self, e: ASTElement)
        requires
            dom_cursor(*old(self)) < dom_slots(*old(self)).len(),
        ensures
            dom_slots(*final(self)) == dom_slots(*old(self)).update(
                dom_cursor(*old(self)) as int,
                Slot { elem: e@, ..dom_slots(*old(self))[dom_cursor(*old(self)) as int] },
            ),
            dom_cursor(*final(self)) == dom_cursor(*old(self)),
    {
        *self.cursor.borrow_mut() = e;
    }

    /// Relies on `rctree::Node::ancestors`: copies of the elements of the cursor
    /// and of its ancestors, from the cursor up to the root.
    #[verifier::external_body]
    pub(crate) fn ancestor_elems(&self) -> (r: Vec<ASTElement>)
        requires
            tree_wf(dom_slots(*self), dom_cursor(*self)),
        ensures
            r@.len() == path_up(dom_slots(*self), dom_cursor(*self)).len(),
            forall|k: int|
                0 <= k < r@.len() ==> (#[trigger] r@[k])@ == dom_slots(*self)[path_up(
                    dom_slots(*self),
                    dom_cursor(*self),
                )[k] as int].elem,
    {
        self.cursor.ancestors().map(|n| n.borrow().clone()).collect()
    }

    /// Relies on `rctree::Node::traverse`: the start and the end of every node from
    /// the root, in tree order, with a copy of its element.
    #[verifier::external_body]
    pub(crate) fn edges(&self) -> (r: Vec<(bool, ASTElement)>)
        requires
            tree_wf(dom_slots(*self), dom_cursor(*self)),
        ensures
            r@.len() == edges(dom_slots(*self), 0).len(),
            forall|k: int|
                0 <= k < r@.len() ==> (#[trigger] r@[k]).0 == edges(dom_slots(*self), 0)[k].0
                    && r@[k].1@ == edges(dom_slots(*self), 0)[k].1,
    {
        self.root.traverse().map(
            |edge| match edge {
                rctree::NodeEdge::Start(n) => (true, n.borrow().clone()),
                rctree::NodeEdge::End(n) => (false, n.borrow().clone()),
            },
        ).collect()
    }
}

/// The path from a node up depends only on the parents of the nodes up to it.
proof fn lemma_path_agree(s: Seq<Slot>, s2: Seq<Slot>, i: nat)
    requires
        i < s.len(),
        i < s2.len(),
        forall|j: int| 0 <= j <= i ==> #[trigger] s2[j].parent == s[j].parent,
    ensures
        path_up(s2, i) == path_up(s, i),
    decreases i,
{
    match s[i as int].parent {
        Some(p) => {
            if p < i {
                lemma_path_agree(s, s2, p);
            }
        },
        None => {},
    }
}

/// The path from node `i` starts at `i` and climbs through parents to smaller numbers.
proof fn lemma_path_shape(s: Seq<Slot>, i: nat)
    requires
        i < s.len(),
        parents_ok(s),
    ensures
        path_up(s, i).len() >= 1,
        path_up(s, i)[0] == i,
        forall|k: int| 1 <= k < path_up(s, i).len() ==> #[trigger] path_up(s, i)[k] < i,
        forall|k: int| 0 <= k < path_up(s, i).len() ==> #[trigger] path_up(s, i)[k] < s.len(),
        s[i as int].parent is Some ==> path_up(s, i) == seq![i] + path_up(s, s[i as int].parent->0),
    decreases i,
{
    match s[i as int].parent {
        Some(p) => {
            assert(p < i);
            lemma_path_shape(s, p);
            let q = path_up(s, p);
            assert(path_up(s, i) == seq![i] + q);
            assert forall|k: int| 1 <= k < path_up(s, i).len() implies #[trigger] path_up(s, i)[k] < i by {
                assert(path_up(s, i)[k] == q[k - 1]);
            }
            assert forall|k: int| 0 <= k < path_up(s, i).len() implies #[trigger] path_up(s, i)[k] < s.len() by {
                if k > 0 {
                    assert(path_up(s, i)[k] == q[k - 1]);
                }
            }
        },
        None => {},
    }
}

/// In a well-formed tree the cursor is the last child of its parent.
pub proof fn lemma_cursor_is_last(s: Seq<Slot>, c: nat)
    requires
        tree_wf(s, c),
        s[c as int].parent is Some,
    ensures
        s[s[c as int].parent->0 as int].children.len() > 0,
        s[s[c as int].parent->0 as int].children.last() == c,
        s[c as int].parent->0 < c,
{
    lemma_path_shape(s, c);
    let p = path_up(s, c);
    assert(p.len() >= 2);
    assert(p[0] == c);
    assert(last_of_parent(s, p[0]));
}

/// Appending a child at the cursor keeps the tree well formed.
pub proof fn lemma_appended_wf(s: Seq<Slot>, c: nat, e: ElemV)
    requires
        tree_wf(s, c),
    ensures
        tree_wf(appended(s, c, e), c),
{
    let s1 = appended(s, c, e);
    let n = s.len();
    assert(s1.len() == n + 1);
    assert forall|j: int| 0 <= j <= c implies #[trigger] s1[j].parent == s[j].parent by {}
    lemma_path_agree(s, s1, c);
    lemma_path_shape(s, c);
    assert forall|i: int, j: int|
        0 <= i < s1.len() && 0 <= j < s1[i].children.len() implies i < #[trigger] s1[i].children[j]
        < s1.len() && s1[s1[i].children[j] as int].parent == Some(i as nat) by {
        if i == c && j == s[i].children.len() {
        } else if i < n {
            assert(s1[i].children[j] == s[i].children[j]);
        }
    }
    assert forall|i: int, j: int, k: int|
        0 <= i < s1.len() && 0 <= j < k < s1[i].children.len() implies #[trigger] s1[i].children[j]
        < #[trigger] s1[i].children[k] by {
        if i == c && k == s[i].children.len() {
            assert(s1[i].children[j] == s[i].children[j]);
        }
    }
    let p = path_up(s, c);
    assert forall|k: int| 0 <= k < p.len() - 1 implies last_of_parent(s1, #[trigger] p[k]) by {
        let x = p[k];
        assert(last_of_parent(s, x));
        let q = s[x as int].parent->0;
        assert(s1[x as int].parent == s[x as int].parent);
        assert(s1[q as int] == s[q as int]);
    }
    assert(parents_ok(s1));
    assert(spine_ok(s1, c));
}

/// Moving the cursor to its last child keeps the tree well formed.
pub proof fn lemma_descend_wf(s: Seq<Slot>, c: nat)
    requires
        tree_wf(s, c),
        s[c as int].children.len() > 0,
    ensures
        tree_wf(s, s[c as int].children.last()),
{
    let cs = s[c as int].children;
    let n = cs.last();
    assert(cs[cs.len() - 1] == n);
    assert(s[n as int].parent == Some(c));
    lemma_path_shape(s, n);
    let p = path_up(s, n);
    let q = path_up(s, c);
    assert(p == seq![n] + q);
    assert forall|k: int| 0 <= k < p.len() - 1 implies last_of_parent(s, #[trigger] p[k]) by {
        if k > 0 {
            assert(p[k] == q[k - 1]);
        }
    }
    assert(spine_ok(s, n));
}

/// Moving the cursor to its parent keeps the tree well formed.
pub proof fn lemma_ascend_wf(s: Seq<Slot>, c: nat)
    requires
        tree_wf(s, c),
        s[c as int].parent is Some,
    ensures
        tree_wf(s, s[c as int].parent->0),
{
    lemma_path_shape(s, c);
    let p = s[c as int].parent->0;
    let q = path_up(s, c);
    let r = path_up(s, p);
    assert(r == q.drop_first());
    assert forall|k: int| 0 <= k < r.len() - 1 implies last_of_parent(s, #[trigger] r[k]) by {
        assert(r[k] == q[k + 1]);
    }
    assert(spine_ok(s, p));
}

/// Detaching the last child of the cursor keeps the tree well formed.
pub proof fn lemma_detached_wf(s: Seq<Slot>, c: nat)
    requires
        tree_wf(s, c),
        s[c as int].children.len() > 0,
    ensures
        tree_wf(detached_last(s, c), c),
{
    let s2 = detached_last(s, c);
    let cs = s[c as int].children;
    let x = cs.last();
    assert(cs[cs.len() - 1] == x);
    assert(c < x);
    assert forall|j: int| 0 <= j <= c implies #[trigger] s2[j].parent == s[j].parent by {}
    lemma_path_agree(s, s2, c);
    lemma_path_shape(s, c);
    assert forall|i: int, j: int|
        0 <= i < s2.len() && 0 <= j < s2[i].children.len() implies i < #[trigger] s2[i].children[j]
        < s2.len() && s2[s2[i].children[j] as int].parent == Some(i as nat) by {
        if i == c {
            assert(s2[i].children[j] == cs[j]);
            assert(cs[j] < cs[cs.len() - 1]);
        } else {
            assert(s2[i].children == s[i].children);
            let y = s[i].children[j];
            if y == x {
                assert(s[x as int].parent == Some(c));
            }
        }
    }
    assert forall|i: int, j: int, k: int|
        0 <= i < s2.len() && 0 <= j < k < s2[i].children.len() implies #[trigger] s2[i].children[j]
        < #[trigger] s2[i].children[k] by {
        if i == c {
            assert(s2[i].children[j] == cs[j]);
            assert(s2[i].children[k] == cs[k]);
            assert(cs[j] < cs[k]);
        } else {
            assert(s2[i].children == s[i].children);
            assert(s[i].children[j] < s[i].children[k]);
        }
    }
    let p = path_up(s, c);
    assert forall|k: int| 0 <= k < p.len() - 1 implies last_of_parent(s2, #[trigger] p[k]) by {
        let y = p[k];
        assert(last_of_parent(s, y));
        let q = s[y as int].parent->0;
        assert(s2[y as int].parent == s[y as int].parent);
        assert(s2[q as int] == s[q as int]);
    }
    assert(parents_ok(s2));
    assert(spine_ok(s2, c));
}

/// Replacing the element at the cursor keeps the tree well formed.
pub proof fn lemma_replaced_wf(s: Seq<Slot>, c: nat, e: ElemV)
    requires
        tree_wf(s, c),
    ensures
        tree_wf(s.update(c as int, Slot { elem: e, ..s[c as int] }), c),
{
    let s2 = s.update(c as int, Slot { elem: e, ..s[c as int] });
    assert forall|j: int| 0 <= j <= c implies #[trigger] s2[j].parent == s[j].parent by {}
    lemma_path_agree(s, s2, c);
    assert forall|i: int| 0 <= i < s2.len() implies #[trigger] s2[i].children == s[i].children
        && s2[i].parent == s[i].parent by {}
    let p = path_up(s, c);
    assert forall|k: int| 0 <= k < p.len() - 1 implies last_of_parent(s2, #[trigger] p[k]) by {
        assert(last_of_parent(s, p[k]));
    }
    assert(spine_ok(s2, c));
}

impl DomTree {
    /// Opens a new node with element `e` as the last child of the cursor, and
    /// moves the cursor into it.
    pub fn open_child(&mut self, e: ASTElement)
        requires
            old(self).wf(),
        ensures
            final(self).wf(),
            final(self).slots() == appended(old(self).slots(), old(self).cursor(), e@),
            final(self).cursor() == old(self).slots().len(),
    {
        let ghost s = self.slots();
        let ghost c = self.cursor();
        proof {
            lemma_appended_wf(s, c, e@);
        }
        self.append_child(e);
        proof {
            let s1 = self.slots();
            assert(s1[c as int].children.last() == s.len());
            lemma_descend_wf(s1, c);
        }
        self.descend_last();
    }

    /// Moves the cursor to its parent, if it has one; the result says whether it had.
    pub fn close_current(&mut self) -> (r: bool)
        requires
            old(self).wf(),
        ensures
            final(self).wf(),
            final(self).slots() == old(self).slots(),
            r == old(self).slots()[old(self).cursor() as int].parent is Some,
            r ==> final(self).cursor() == old(self).slots()[old(self).cursor() as int].parent->0,
            !r ==> final(self).cursor() == old(self).cursor(),
    {
        let ghost s = self.slots();
        let ghost c = self.cursor();
        let r = self.ascend();
        proof {
            if r {
                lemma_ascend_wf(s, c);
            }
        }
        r
    }

    /// Detaches the last child of the cursor.
    pub fn drop_last_child(&mut self)
        requires
            old(self).wf(),
            old(self).slots()[old(self).cursor() as int].children.len() > 0,
        ensures
            final(self).wf(),
            final(self).slots() == detached_last(old(self).slots(), old(self).cursor()),
            final(self).cursor() == old(self).cursor(),
    {
        proof {
            lemma_detached_wf(self.slots(), self.cursor());
        }
        self.detach_last_child();
    }

    /// Replaces the element at the cursor.
    pub fn set_cursor_elem(&mut self, e: ASTElement)
        requires
            old(self).wf(),
        ensures
            final(self).wf(),
            final(self).slots() == old(self).slots().update(
                old(self).cursor() as int,
                Slot { elem: e@, ..old(self).slots()[old(self).cursor() as int] },
            ),
            final(self).cursor() == old(self).cursor(),
    {
        proof {
            lemma_replaced_wf(self.slots(), self.cursor(), e@);
        }
        self.put_cursor_elem(e);
    }
}

/// How many starts (or ends, for `start == false`) of elements of kind `k` there are in `es`.
pub open spec fn count_edges(es: Seq<(bool, ElemV)>, start: bool, k: crate::GroupType) -> nat
    decreases es.len(),
{
    if es.len() == 0 {
        0
    } else {
        count_edges(es.drop_last(), start, k) + if es.last().0 == start && es.last().1.kind == k {
            1nat
        } else {
            0nat
        }
    }
}

proof fn lemma_count_concat(a: Seq<(bool, ElemV)>, b: Seq<(bool, ElemV)>, start: bool, k: crate::GroupType)
    ensures
        count_edges(a + b, start, k) == count_edges(a, start, k) + count_edges(b, start, k),
    decreases b.len(),
{
    if b.len() == 0 {
        assert(a + b =~= a);
    } else {
        assert((a + b).drop_last() =~= a + b.drop_last());
        assert((a + b).last() == b.last());
        lemma_count_concat(a, b.drop_last(), start, k);
    }
}

/// Every element of the tree under `i` contributes one start and one end: for
/// each kind, the starts and the ends are as many.
pub proof fn lemma_edges_balanced(s: Seq<Slot>, i: nat, k: crate::GroupType)
    ensures
        count_edges(edges(s, i), true, k) == count_edges(edges(s, i), false, k),
    decreases s.len() - i, 1nat, 0nat,
{
    if i < s.len() {
        let st = seq![(true, s[i as int].elem)];
        let mid = child_edges(s, i, s[i as int].children);
        let en = seq![(false, s[i as int].elem)];
        assert(edges(s, i) == st + mid + en);
        lemma_child_edges_balanced(s, i, s[i as int].children, k);
        lemma_count_concat(st, mid, true, k);
        lemma_count_concat(st + mid, en, true, k);
        lemma_count_concat(st, mid, false, k);
        lemma_count_concat(st + mid, en, false, k);
        let e: Seq<(bool, ElemV)> = seq![];
        assert(st.drop_last() =~= e);
        assert(en.drop_last() =~= e);
        assert(count_edges(e, true, k) == 0);
        assert(count_edges(e, false, k) == 0);
        assert(count_edges(st, false, k) == 0);
        assert(count_edges(en, true, k) == 0);
        assert(count_edges(st, true, k) == count_edges(en, false, k));
    }
}

proof fn lemma_child_edges_balanced(s: Seq<Slot>, i: nat, cs: Seq<nat>, k: crate::GroupType)
    ensures
        count_edges(child_edges(s, i, cs), true, k) == count_edges(child_edges(s, i, cs), false, k),
    decreases s.len() - i, 0nat, cs.len(),
{
    if cs.len() == 0 || i >= s.len() {
    } else if i < cs[0] < s.len() {
        lemma_edges_balanced(s, cs[0], k);
        lemma_child_edges_balanced(s, i, cs.drop_first(), k);
        lemma_count_concat(edges(s, cs[0]), child_edges(s, i, cs.drop_first()), true, k);
        lemma_count_concat(edges(s, cs[0]), child_edges(s, i, cs.drop_first()), false, k);
    } else {
        lemma_child_edges_balanced(s, i, cs.drop_first(), k);
    }
}

} // verus!
