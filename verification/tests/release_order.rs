//! Observes the order in which nodes are released: the slot-0 subtree of a
//! node is fully retired before any of its positional children is visited,
//! and positional children are visited in the order the node yields them.

use deep_safe_drop::{deep_safe_drop, DeepSafeDrop, SetParent, Shape, Shaped};
use std::cell::RefCell;
use std::rc::Rc;

/// A node with a slot-0 child and any number of positional children, which
/// logs its identifier when it is released.
struct LoggedNode {
    id: u64,
    slot0: Option<LoggedBox>,
    rest: Vec<LoggedBox>,
    log: Rc<RefCell<Vec<u64>>>,
}

impl Drop for LoggedNode {
    fn drop(&mut self) {
        self.log.borrow_mut().push(self.id);
    }
}

struct LoggedBox(Box<LoggedNode>);

impl Shaped for LoggedBox {
    fn shape(&self) -> Shape {
        unreachable!()
    }
}

impl DeepSafeDrop<LoggedBox> for LoggedBox {
    fn take_child_at_index_0(&mut self) -> Option<LoggedBox> {
        self.0.slot0.take()
    }

    fn set_parent_at_index_0(&mut self, parent: LoggedBox) -> SetParent<LoggedBox> {
        if let Some(child) = self.0.slot0.take() {
            self.0.slot0 = Some(parent);
            SetParent::YesReplacedChild { child0: child }
        } else if self.0.rest.is_empty() {
            SetParent::No { returned_parent: parent }
        } else {
            self.0.slot0 = Some(parent);
            SetParent::Yes
        }
    }

    fn take_next_child_at_pos_index(&mut self) -> Option<LoggedBox> {
        if self.0.rest.is_empty() {
            None
        } else {
            Some(self.0.rest.remove(0))
        }
    }
}

impl Drop for LoggedBox {
    fn drop(&mut self) {
        deep_safe_drop(self);
    }
}

fn node(
    id: u64,
    slot0: Option<LoggedBox>,
    rest: Vec<LoggedBox>,
    log: &Rc<RefCell<Vec<u64>>>,
) -> LoggedBox {
    LoggedBox(Box::new(LoggedNode {
        id,
        slot0,
        rest,
        log: Rc::clone(log),
    }))
}

fn position(order: &[u64], id: u64) -> usize {
    order
        .iter()
        .position(|logged| *logged == id)
        .expect("a node was never released")
}

/// A root with a three-node chain in slot 0 and three positional leaves:
/// the whole slot-0 subtree is retired before any positional child, and the
/// positional children are retired in yield order.
#[test]
fn slot0_subtree_before_positional() {
    let log = Rc::new(RefCell::new(Vec::new()));
    let chain = node(
        1,
        Some(node(2, Some(node(3, None, Vec::new(), &log)), Vec::new(), &log)),
        Vec::new(),
        &log,
    );
    let rest = vec![
        node(10, None, Vec::new(), &log),
        node(11, None, Vec::new(), &log),
        node(12, None, Vec::new(), &log),
    ];
    let root = node(0, Some(chain), rest, &log);
    drop(root);

    let order = log.borrow();
    assert_eq!(order.len(), 7);
    for in_slot0_subtree in [1, 2, 3] {
        for positional in [10, 11, 12] {
            assert!(position(&order, in_slot0_subtree) < position(&order, positional));
        }
    }
    assert!(position(&order, 10) < position(&order, 11));
    assert!(position(&order, 11) < position(&order, 12));
}

/// The whole release order of a small mixed tree, checked exactly: the
/// slot-0 subtree in depth-first order, then each positional subtree, each
/// node after its children, and the root last of all.
#[test]
fn exact_release_order() {
    let log = Rc::new(RefCell::new(Vec::new()));
    let slot0_subtree = node(
        1,
        Some(node(2, None, Vec::new(), &log)),
        vec![node(3, None, Vec::new(), &log)],
        &log,
    );
    let positional = node(4, None, Vec::new(), &log);
    let root = node(0, Some(slot0_subtree), vec![positional], &log);
    drop(root);

    assert_eq!(*log.borrow(), vec![2, 3, 1, 4, 0]);
}

/// Positional children that are themselves small subtrees are visited in
/// yield order: each positional subtree is fully retired before the next
/// positional sibling is touched.
#[test]
fn positional_subtrees_in_yield_order() {
    let log = Rc::new(RefCell::new(Vec::new()));
    let first = node(10, Some(node(11, None, Vec::new(), &log)), Vec::new(), &log);
    let second = node(20, Some(node(21, None, Vec::new(), &log)), Vec::new(), &log);
    let root = node(0, None, vec![first, second], &log);
    drop(root);

    let order = log.borrow();
    assert_eq!(order.len(), 5);
    for of_first in [10, 11] {
        for of_second in [20, 21] {
            assert!(position(&order, of_first) < position(&order, of_second));
        }
    }
}
