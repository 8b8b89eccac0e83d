//! Safe dropping of deep trees that otherwise could cause stack overflow.
//!
//! Dropping a deeply nested tree by the compiler's automatic recursive field
//! teardown consumes call-stack space proportional to the tree's depth, which
//! can overflow the stack for very deep or list-shaped trees.  This crate
//! provides a single-pass traversal that detaches and releases every node of
//! such a tree while using only a constant amount of auxiliary stack space,
//! and no allocation: the link storage that each node already owns is
//! temporarily reused to record the way back up to the node's parent, instead
//! of the call stack.
//!
//! Provides:
//!
//! - [`deep_safe_drop`] function to be called from your [`Drop::drop`]
//!   implementations.
//!
//! - [`DeepSafeDrop`] trait to be implemented by your types that use
//!   `deep_safe_drop`.
//!
//! Each node's current children are described, for specification purposes, by
//! a [`Shape`]: an identifier, the content of the distinguished slot 0, and
//! the sequence of not-yet-yielded positional children in the order the node
//! will yield them.  The contracts on [`DeepSafeDrop`] say how each interface
//! operation changes a node's shape; from those contracts alone the traversal
//! is proved to terminate, to release every node of the tree exactly once, in
//! depth-first order — each node's slot-0 subtree first, then its positional
//! subtrees in yield order, the node itself after its children — and to leave
//! the root without any reachable child.

use vstd::prelude::*;

verus! {

/// The children a node currently exposes through the [`DeepSafeDrop`]
/// interface: what occupies slot 0, and the positional children (at index 1
/// and up) that have not been yielded yet, in the node's own stable order.
/// The node also carries an identifier of the implementation's choice, so
/// that the contracts can say which node is released when.
///
/// During normal life slot 0 holds the node's first child; while a traversal
/// is running it is reused to hold a link back to the node's traversal
/// parent.  The shape does not distinguish the two cases: the occupant of
/// slot 0 is simply whatever subtree the next take from slot 0 would hand
/// out.
pub struct Shape {
    /// An identifier for the node, chosen by the implementation.
    pub id: int,
    /// The subtree reachable through slot 0, if slot 0 is occupied.
    pub slot0: Option<Box<Shape>>,
    /// The subtrees reachable through the not-yet-yielded positional
    /// children, in the order the node yields them.
    pub pos: Seq<Shape>,
}

/// A node reporting no occupied slots at all: nothing in slot 0 and no
/// positional child left.  Such a node can be released on the spot.
pub open spec fn is_leaf(s: Shape) -> bool {
    s.slot0 is None && s.pos.len() == 0
}

/// The identifiers of the subtrees held in `children` from index `i` on,
/// each in release order, one subtree after the other.
pub open spec fn postorder_from(children: Seq<Shape>, i: int) -> Seq<int>
    decreases children, children.len() - i,
{
    if 0 <= i < children.len() {
        postorder(children[i]) + postorder_from(children, i + 1)
    } else {
        Seq::empty()
    }
}

/// The order in which the traversal releases the nodes of a tree of shape
/// `s`: first the whole subtree behind slot 0, then the subtree behind each
/// remaining positional child in the node's yield order, and the node itself
/// last.  Its length is the number of nodes in the tree.
pub open spec fn postorder(s: Shape) -> Seq<int>
    decreases s, 0int,
{
    (match s.slot0 {
        Some(sub) => postorder(*sub),
        None => Seq::empty(),
    }) + postorder_from(s.pos, 0) + seq![s.id]
}

/// What a node on the walked-back-to chain still owes once the traversal
/// ascends to it: the subtrees behind its remaining positional children,
/// then the node itself, and then whatever the back-link stored in its slot
/// 0 still owes in turn.
pub open spec fn pending(s: Shape) -> Seq<int>
    decreases s, 0int,
{
    postorder_from(s.pos, 0) + seq![s.id] + (match s.slot0 {
        Some(sub) => pending(*sub),
        None => Seq::empty(),
    })
}

/// Taking the head subtree accounts for the whole sequence: the release
/// order over `children` is the head subtree's release order followed by the
/// release order over the rest.
proof fn lemma_postorder_drop_first(children: Seq<Shape>)
    requires
        children.len() > 0,
    ensures
        postorder_from(children, 0)
            == postorder(children[0]) + postorder_from(children.drop_first(), 0),
{
    lemma_postorder_from_drop(children, 0);
}

proof fn lemma_postorder_from_drop(children: Seq<Shape>, i: int)
    requires
        0 <= i,
        children.len() > 0,
    ensures
        postorder_from(children, i + 1) == postorder_from(children.drop_first(), i),
    decreases children.len() - i,
{
    if i + 1 < children.len() {
        assert(children.drop_first()[i] == children[i + 1]);
        lemma_postorder_from_drop(children, i + 1);
    }
}

/// Result of [`DeepSafeDrop::set_parent_at_index_0`].
#[derive(Debug)]
pub enum SetParent<Link> {
    /// There was a child at index 0 and it was replaced by the parent.
    YesReplacedChild {
        /// The child at index 0 that was taken.
        child0: Link,
    },
    /// The parent was set at index 0 and no child was replaced.
    Yes,
    /// No setting could be done, because the node has no links, so the parent
    /// must be returned back.
    No {
        /// The same `parent` value that was given to the method call.
        returned_parent: Link,
    },
}

/// A type whose values stand for trees: each value has a [`Shape`]
/// describing the children it currently exposes.  Node and link types
/// implement this so that the contracts of [`DeepSafeDrop`] can speak about
/// the subtrees that its operations hand around.
pub trait Shaped {
    /// The children this value currently exposes.
    spec fn shape(&self) -> Shape;
}

/// Implement this for your tree node type, with `Link` as your tree link type
/// that references or is your node type.
///
/// The `Link` type may be the same as the `Self` type, when possible, which
/// might be convenient.  Or, they can be different.  A `Link` must itself be
/// usable as a node, so that the traversal can follow it.
///
/// Many node types should be able to implement these methods without needing
/// any extra state beyond their normal state, e.g. because their link fields
/// already support some unused state.
///
/// The contracts relate each operation to the node's [`Shape`].  An
/// implementation decides what its shape is (by giving the [`Shaped`] view)
/// and the contracts then pin down what every operation must do to
/// it.  In particular, every operation is idempotent after exhaustion: a slot
/// reported empty stays empty and keeps reporting so.
pub trait DeepSafeDrop<Link: Shaped>: Shaped {
    /// Take the child at index 0 and replace the link to it with a non-link.
    fn take_child_at_index_0(&mut self) -> (child0: Option<Link>)
        ensures
            final(self).shape().id == old(self).shape().id,
            final(self).shape().slot0 is None,
            final(self).shape().pos == old(self).shape().pos,
            child0 is Some <==> old(self).shape().slot0 is Some,
            (child0 matches Some(c) ==> (old(self).shape().slot0 matches Some(sub)
                && c.shape() == *sub)),
    ;

    /// Take the child at index 0 and replace the link to it with a given
    /// replacement that links to the parent of `self`.
    fn set_parent_at_index_0(&mut self, parent: Link) -> (result: SetParent<Link>)
        ensures
            (result matches SetParent::YesReplacedChild { child0 } ==> ({
                &&& old(self).shape().slot0 matches Some(sub) && child0.shape() == *sub
                &&& final(self).shape().id == old(self).shape().id
                &&& final(self).shape().slot0 matches Some(p) && *p == parent.shape()
                &&& final(self).shape().pos == old(self).shape().pos
            })),
            (result is Yes ==> ({
                &&& old(self).shape().slot0 is None
                &&& final(self).shape().id == old(self).shape().id
                &&& final(self).shape().slot0 matches Some(p) && *p == parent.shape()
                &&& final(self).shape().pos == old(self).shape().pos
            })),
            (result matches SetParent::No { returned_parent } ==> ({
                &&& returned_parent == parent
                &&& is_leaf(old(self).shape())
                &&& final(self).shape() == old(self).shape()
            })),
    ;

    /// Take the next child at an index greater than or equal to 1 and replace
    /// the link to it with a non-link, if the current state of `self` has
    /// another child at those indices that has not been supplied yet.  This
    /// must not return the child at index 0 when there is one, because that is
    /// reused to link to the parent.
    fn take_next_child_at_pos_index(&mut self) -> (child: Option<Link>)
        ensures
            final(self).shape().id == old(self).shape().id,
            final(self).shape().slot0 == old(self).shape().slot0,
            (old(self).shape().pos.len() == 0 ==> child is None
                && final(self).shape().pos == old(self).shape().pos),
            (old(self).shape().pos.len() > 0 ==> (child matches Some(c)
                && c.shape() == old(self).shape().pos[0]
                && final(self).shape().pos == old(self).shape().pos.drop_first())),
    ;

    /// Take the next child and replace the link to it with a non-link, if the
    /// current state of `self` has another child that has not been supplied
    /// yet.  This may return the child at index 0 when there is one.
    fn take_next_child_at_any_index(&mut self) -> (child: Option<Link>)
        ensures
            final(self).shape().id == old(self).shape().id,
            final(self).shape().slot0 is None,
            (old(self).shape().slot0 matches Some(sub) ==> (child matches Some(c)
                && c.shape() == *sub
                && final(self).shape().pos == old(self).shape().pos)),
            (old(self).shape().slot0 is None && old(self).shape().pos.len() > 0 ==> (
                child matches Some(c)
                && c.shape() == old(self).shape().pos[0]
                && final(self).shape().pos == old(self).shape().pos.drop_first())),
            (is_leaf(old(self).shape()) ==> child is None
                && final(self).shape().pos == old(self).shape().pos),
    {
        let child0 = self.take_child_at_index_0();
        match child0 {
            Some(c) => Some(c),
            None => self.take_next_child_at_pos_index(),
        }
    }
}

/// Releases a link whose node is already known to be fully exhausted.
///
/// The checks that the original design performs with debug assertions are
/// discharged statically here: a leaf's operations must all report emptiness,
/// by the idempotence that the trait contracts demand.
fn drop_leaf<L>(link: L) where L: DeepSafeDrop<L>
    requires
        is_leaf(link.shape()),
{
    let mut link = link;
    let any = link.take_next_child_at_any_index();
    assert(any is None);
    let child0 = link.take_child_at_index_0();
    assert(child0 is None);
    let pos = link.take_next_child_at_pos_index();
    assert(pos is None);
}

/// A node's link at index 0 is reused as the parent link: reads it back out,
/// leaving slot 0 empty, and checks that a second read reports emptiness.
fn take_parent<L>(node: &mut L) -> (parent: Option<L>) where L: DeepSafeDrop<L>
    ensures
        final(node).shape().id == old(node).shape().id,
        final(node).shape().slot0 is None,
        final(node).shape().pos == old(node).shape().pos,
        parent is Some <==> old(node).shape().slot0 is Some,
        (parent matches Some(p) ==> (old(node).shape().slot0 matches Some(sub)
            && p.shape() == *sub)),
{
    let child0 = node.take_child_at_index_0();
    let again = node.take_child_at_index_0();
    assert(again is None);
    child0
}

/// Return the nearest ancestor that has a next child if any, or the root
/// ancestor even when it does not have a next child.  Drop any ancestors in
/// the upwards path that do not have a child but that do have a parent.
///
/// The ghost sequence reports which exhausted ancestors were released on the
/// way up, in order; together with the returned links it accounts for
/// everything that the chain behind `parent` still owed.
#[verifier::loop_isolation(false)]
fn take_ancestor_next_child<L>(parent: L) -> (r: (L, Option<L>, Ghost<Seq<int>>))
    where L: DeepSafeDrop<L>
    ensures
        ({
            let (ancestor, next_child, released) = r;
            &&& (next_child matches Some(c) ==> ({
                &&& pending(parent.shape())
                    == released@ + postorder(c.shape()) + pending(ancestor.shape())
                &&& parent.shape().pos.len() == 0 ==> released@.len() >= 1
            }))
            &&& (next_child is None ==> ({
                &&& is_leaf(ancestor.shape())
                &&& pending(parent.shape()) == released@ + seq![ancestor.shape().id]
            }))
        }),
{
    let ghost total: Seq<int> = pending(parent.shape());
    let ghost entry_shape: Shape = parent.shape();
    let mut ancestor = parent;
    let ghost mut released: Seq<int> = Seq::empty();
    loop
        invariant
            total == released + pending(ancestor.shape()),
            released.len() == 0 ==> ancestor.shape() == entry_shape,
        decreases pending(ancestor.shape()).len(),
    {
        let ghost here: Shape = ancestor.shape();
        let next_child = ancestor.take_next_child_at_pos_index();
        match next_child {
            Some(c) => {
                proof {
                    lemma_postorder_drop_first(here.pos);
                    assert(ancestor.shape() == (Shape {
                        id: here.id,
                        slot0: here.slot0,
                        pos: here.pos.drop_first(),
                    }));
                    assert(pending(here)
                        =~= postorder(c.shape()) + pending(ancestor.shape()));
                    assert(total
                        =~= released + postorder(c.shape()) + pending(ancestor.shape()));
                }
                return (ancestor, Some(c), Ghost(released));
            }
            None => {}
        }
        let grandancestor = take_parent(&mut ancestor);
        match grandancestor {
            Some(g) => {
                proof {
                    assert(here.pos.len() == 0);
                    assert(postorder_from(here.pos, 0) == Seq::<int>::empty());
                    assert(ancestor.shape() == (Shape {
                        id: here.id,
                        slot0: None,
                        pos: here.pos,
                    }));
                    assert(pending(here) =~= seq![here.id] + pending(g.shape()));
                }
                // `ancestor` is now a leaf node so drop it here.
                drop_leaf(ancestor);
                proof {
                    released = released + seq![here.id];
                    assert(total =~= released + pending(g.shape()));
                }
                ancestor = g;
            }
            None => {
                proof {
                    assert(here.pos.len() == 0);
                    assert(here.slot0 is None);
                    assert(pending(here) =~= seq![here.id]);
                    assert(ancestor.shape() == (Shape {
                        id: here.id,
                        slot0: None,
                        pos: here.pos,
                    }));
                    assert(total =~= released + seq![ancestor.shape().id]);
                }
                return (ancestor, None, Ghost(released));
            }
        }
    }
}

/// The main algorithm: drives one detached subtree to complete destruction.
///
/// Descends slot-0-first, installing in each visited node's slot 0 a link
/// back to its traversal parent; ascends along those links with
/// [`take_ancestor_next_child`], releasing nodes as they become exhausted.
/// The ghost sequence states exactly which nodes are released, and in what
/// order: one release per node of the subtree, slot-0 subtree first, then
/// the positional subtrees in yield order, each node after its children.
fn main_deep_safe_drop<L>(top: L) -> (released: Ghost<Seq<int>>)
    where L: DeepSafeDrop<L>
    ensures
        released@ == postorder(top.shape()),
{
    let ghost total: Seq<int> = postorder(top.shape());
    let mut parent = top;
    let ghost mut released: Seq<int> = Seq::empty();

    let ghost top_shape: Shape = parent.shape();
    let first = parent.take_next_child_at_any_index();
    match first {
        None => {
            proof {
                assert(postorder_from(top_shape.pos, 0) == Seq::<int>::empty());
                assert(parent.shape() == (Shape {
                    id: top_shape.id,
                    slot0: None,
                    pos: top_shape.pos,
                }));
            }
            // `top` has no child at any index: it is already a leaf.
            drop_leaf(parent);
            proof {
                released = released + seq![top_shape.id];
                assert(released =~= total);
            }
        }
        Some(first_child) => {
            let mut cur = first_child;
            proof {
                match top_shape.slot0 {
                    Some(sub) => {
                        assert(parent.shape() == (Shape {
                            id: top_shape.id,
                            slot0: None,
                            pos: top_shape.pos,
                        }));
                        assert(cur.shape() == *sub);
                    }
                    None => {
                        lemma_postorder_drop_first(top_shape.pos);
                        assert(parent.shape() == (Shape {
                            id: top_shape.id,
                            slot0: None,
                            pos: top_shape.pos.drop_first(),
                        }));
                    }
                }
                assert(total
                    =~= released + postorder(cur.shape()) + pending(parent.shape()));
            }
            loop
                invariant_except_break
                    total == released + postorder(cur.shape()) + pending(parent.shape()),
                ensures
                    released == total,
                decreases
                    pending(parent.shape()).len() + postorder(cur.shape()).len(),
                    postorder(cur.shape()).len(),
            {
                let ghost parent_shape: Shape = parent.shape();
                let ghost cur_shape: Shape = cur.shape();
                match cur.set_parent_at_index_0(parent) {
                    SetParent::YesReplacedChild { child0 } => {
                        proof {
                            assert(cur.shape() == (Shape {
                                id: cur_shape.id,
                                slot0: Some(Box::new(parent_shape)),
                                pos: cur_shape.pos,
                            }));
                            assert(child0.shape() == *cur_shape.slot0.unwrap());
                            assert(total == released + postorder(cur_shape)
                                + pending(parent_shape));
                            assert(total =~= released + postorder(child0.shape())
                                + pending(cur.shape()));
                        }
                        // Descend into the evicted slot-0 child.
                        parent = cur;
                        cur = child0;
                        continue;
                    }
                    SetParent::Yes => {
                        proof {
                            assert(cur.shape() == (Shape {
                                id: cur_shape.id,
                                slot0: Some(Box::new(parent_shape)),
                                pos: cur_shape.pos,
                            }));
                        }
                        // `cur` now holds a back-link in slot 0; descend into
                        // its first positional child, if it has one.
                        let ghost mid_shape: Shape = cur.shape();
                        let next = cur.take_next_child_at_pos_index();
                        match next {
                            Some(child) => {
                                proof {
                                    lemma_postorder_drop_first(cur_shape.pos);
                                    assert(cur.shape() == (Shape {
                                        id: cur_shape.id,
                                        slot0: Some(Box::new(parent_shape)),
                                        pos: cur_shape.pos.drop_first(),
                                    }));
                                    assert(child.shape() == cur_shape.pos[0]);
                                    assert(total =~= released + postorder(child.shape())
                                        + pending(cur.shape()));
                                }
                                parent = cur;
                                cur = child;
                                continue;
                            }
                            None => {
                                parent = cur;
                                proof {
                                    assert(cur_shape.pos.len() == 0);
                                    assert(postorder_from(cur_shape.pos, 0)
                                        == Seq::<int>::empty());
                                    assert(parent.shape() == mid_shape);
                                    assert(postorder(cur_shape) =~= seq![cur_shape.id]);
                                    assert(pending(parent.shape())
                                        =~= seq![cur_shape.id] + pending(parent_shape));
                                    assert(total
                                        =~= released + pending(parent.shape()));
                                }
                            }
                        }
                    }
                    SetParent::No { returned_parent } => {
                        // `cur` has no links at all: a structural leaf.
                        parent = returned_parent;
                        // `cur` is now a leaf node so drop it here.
                        drop_leaf(cur);
                        proof {
                            assert(postorder_from(cur_shape.pos, 0)
                                == Seq::<int>::empty());
                            assert(postorder(cur_shape) =~= seq![cur_shape.id]);
                            released = released + seq![cur_shape.id];
                            assert(parent.shape() == parent_shape);
                            assert(total =~= released + pending(parent.shape()));
                        }
                    }
                }

                let ghost stack_shape: Shape = parent.shape();
                let (ancestor, ancestor_child, rel) = take_ancestor_next_child(parent);
                proof {
                    released = released + rel@;
                }
                parent = ancestor;
                match ancestor_child {
                    Some(ancestor_child) => {
                        cur = ancestor_child;
                        proof {
                            assert(total =~= released + postorder(cur.shape())
                                + pending(parent.shape()));
                        }
                    }
                    None => {
                        proof {
                            assert(pending(stack_shape)
                                == rel@ + seq![parent.shape().id]);
                            assert(postorder_from(parent.shape().pos, 0)
                                == Seq::<int>::empty());
                        }
                        // Done. `parent` is now `top`, mutated to no longer
                        // have any children, so it can be released here, and
                        // no recursion into children can occur afterwards.
                        drop_leaf(parent);
                        proof {
                            released = released + seq![parent.shape().id];
                            assert(released =~= total);
                        }
                        break;
                    }
                }
            }
        }
    }
    Ghost(released)
}

/// To be called from your [`Drop::drop`] implementations, to ensure that
/// stack overflow is avoided.
///
/// The `RootNode` type may be different than the primary `Link` type, when
/// possible, which might be convenient.  Or, they can be the same.
///
/// Afterwards the root has no reachable child left through any interface
/// operation, so whatever per-field teardown runs next on the root touches no
/// subtree.  The ghost sequence states that every node below the root was
/// released exactly once, in depth-first order: the whole subtree behind the
/// root's slot 0 first, then the subtree behind each positional child in the
/// root's yield order, each node after its children, and the root itself
/// never.
pub fn deep_safe_drop<RootNode, Link>(root: &mut RootNode) -> (released: Ghost<Seq<int>>)
    where
        RootNode: DeepSafeDrop<Link>,
        Link: DeepSafeDrop<Link>,
    ensures
        final(root).shape().slot0 is None,
        final(root).shape().pos.len() == 0,
        released@ + seq![old(root).shape().id] == postorder(old(root).shape()),
{
    let ghost mut released: Seq<int> = Seq::empty();
    loop
        invariant
            released + postorder(root.shape()) == postorder(old(root).shape()),
            root.shape().id == old(root).shape().id,
        ensures
            released + postorder(root.shape()) == postorder(old(root).shape()),
            root.shape().id == old(root).shape().id,
            is_leaf(root.shape()),
        decreases postorder(root.shape()).len(),
    {
        let ghost root_shape: Shape = root.shape();
        let next_child = root.take_next_child_at_any_index();
        match next_child {
            Some(next_child) => {
                let rel = main_deep_safe_drop(next_child);
                proof {
                    match root_shape.slot0 {
                        Some(sub) => {
                            assert(root.shape() == (Shape {
                                id: root_shape.id,
                                slot0: None,
                                pos: root_shape.pos,
                            }));
                            assert(next_child.shape() == *sub);
                        }
                        None => {
                            lemma_postorder_drop_first(root_shape.pos);
                            assert(root.shape() == (Shape {
                                id: root_shape.id,
                                slot0: None,
                                pos: root_shape.pos.drop_first(),
                            }));
                            assert(next_child.shape() == root_shape.pos[0]);
                        }
                    }
                    assert(postorder(next_child.shape()).len() >= 1);
                    assert((released + rel@) + postorder(root.shape())
                        =~= released + postorder(root_shape));
                    released = released + rel@;
                }
            }
            None => {
                break;
            }
        }
    }
    proof {
        assert(postorder_from(root.shape().pos, 0) == Seq::<int>::empty());
        assert(postorder(root.shape()) =~= seq![root.shape().id]);
        assert(released + seq![old(root).shape().id]
            =~= postorder(old(root).shape()));
    }
    Ghost(released)
}

} // verus!
