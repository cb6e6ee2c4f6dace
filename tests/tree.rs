use parent_tree::Node;
use std::cell::RefCell;
use std::ops::Deref;

#[derive(Clone)]
struct A {
    a: i64,
}

/// A binary tree of plain integers.
#[test]
fn test_integer_tree() {
    let node_a = Node::new(200);
    let node_b = Node::new(333);
    let mut root = Node::new(100);

    let left = root.set_left(0, node_a);
    let _ = root.set_right(0, node_b);

    let parent = root.get_parent(left).unwrap();
    *root.value_mut(parent) = 999;

    {
        let node_2a = Node::new(400);
        let node_2a_at = root.set_left(left, node_2a);
        *root.value_mut(node_2a_at) = 401;
    }

    let pp = root.get_parent(left).unwrap();

    let p_value = root.read_value(pp);
    assert_eq!(999, *p_value);

    let l_value = root.read_left_value(pp).unwrap();
    assert_eq!(200, *l_value);
}

/// A binary tree of references to an integer; each node's value can be
/// changed on its own.
#[test]
fn test_tree_of_references() {
    let amount = 34_000_000;
    let mut ref_node = Node::new(&amount);
    ref_node.set_left(0, Node::new(&amount));
    let amt = ref_node.set_right(0, Node::new(&amount));
    *ref_node.value_mut(amt) = &1000;
    let value = ref_node.read_value(0).deref();
    assert_eq!(&34_000_000, value);
}

/// A binary tree whose nodes all share one cell: a change made through one
/// node is seen through every other.
#[test]
fn test_tree_of_same_structure() {
    let val = Box::new(A { a: 34_000_000_i64 });
    let amount = RefCell::new(val);
    let a = amount.borrow().deref().a;
    assert_eq!(34_000_000_i64, a);

    let mut root_node = Node::new(&amount);
    root_node.set_left(0, Node::new(&amount));
    let amt = root_node.set_right(0, Node::new(&amount));
    root_node.read_value(amt).borrow_mut().a = 1000_i64;

    let root_a = root_node.read_value(0).borrow().a;
    assert_eq!(1000_i64, root_a);
    let left = root_node.get_left(0).unwrap();
    assert_eq!(1000_i64, root_node.read_value(left).borrow().a);
}

#[test]
fn new_node_has_no_links() {
    let n = Node::new(7u32);
    assert!(n.is_live(0));
    assert!(!n.is_live(1));
    assert_eq!(None, n.get_parent(0));
    assert_eq!(None, n.get_left(0));
    assert_eq!(None, n.get_right(0));
    assert_eq!(None, n.read_left_value(0));
    assert_eq!(7, *n.read_value(0));
}

#[test]
fn set_left_links_child_to_parent() {
    let mut root = Node::new(1u32);
    let c = root.set_left(0, Node::new(2));
    assert_eq!(1, c);
    assert_eq!(Some(0), root.get_parent(c));
    assert_eq!(Some(c), root.get_left(0));
    assert_eq!(None, root.get_right(0));
    assert_eq!(Some(&2), root.read_left_value(0));
}

#[test]
fn set_right_links_child_to_parent() {
    let mut root = Node::new(1u32);
    let c = root.set_right(0, Node::new(3));
    assert_eq!(Some(0), root.get_parent(c));
    assert_eq!(Some(c), root.get_right(0));
    assert_eq!(None, root.get_left(0));
    assert_eq!(None, root.read_left_value(0));
    assert_eq!(3, *root.read_value(c));
}

#[test]
fn parent_handle_changes_the_parent() {
    let mut root = Node::new(100);
    let left = root.set_left(0, Node::new(200));
    let p = root.get_parent(left).unwrap();
    *root.value_mut(p) = 999;
    assert_eq!(999, *root.read_value(0));
    assert_eq!(200, *root.read_value(left));
}

#[test]
fn chained_attachment_is_seen_from_the_root() {
    let mut root = Node::new(100);
    let left = root.set_left(0, Node::new(200));
    let grand = root.set_left(left, Node::new(400));
    *root.value_mut(grand) = 401;
    let l = root.get_left(0).unwrap();
    let ll = root.get_left(l).unwrap();
    assert_eq!(401, *root.read_value(ll));
    assert_eq!(Some(&401), root.read_left_value(l));
    assert_eq!(Some(l), root.get_parent(ll));
}

#[test]
fn reattaching_releases_the_old_subtree() {
    let mut root = Node::new(0);
    let old = root.set_left(0, Node::new(1));
    let old_child = root.set_right(old, Node::new(2));
    let new = root.set_left(0, Node::new(3));
    assert!(!root.is_live(old));
    assert!(!root.is_live(old_child));
    assert!(root.is_live(new));
    assert_eq!(Some(&3), root.read_left_value(0));
    assert_eq!(Some(0), root.get_parent(new));
}

#[test]
fn reattaching_keeps_the_other_side() {
    let mut root = Node::new(0);
    let r = root.set_right(0, Node::new(5));
    root.set_left(0, Node::new(1));
    root.set_left(0, Node::new(2));
    assert!(root.is_live(r));
    assert_eq!(Some(r), root.get_right(0));
    assert_eq!(Some(&2), root.read_left_value(0));
}

#[test]
fn attaching_a_built_subtree_keeps_its_shape() {
    let mut sub = Node::new(10);
    let sub_left = sub.set_left(0, Node::new(11));
    sub.set_right(sub_left, Node::new(12));

    let mut root = Node::new(1);
    root.set_left(0, Node::new(2));
    let at = root.set_right(0, sub);
    assert_eq!(2, at);
    assert_eq!(10, *root.read_value(at));
    assert_eq!(Some(0), root.get_parent(at));
    assert_eq!(Some(&11), root.read_left_value(at));
    let l = root.get_left(at).unwrap();
    assert_eq!(Some(at), root.get_parent(l));
    let lr = root.get_right(l).unwrap();
    assert_eq!(12, *root.read_value(lr));
    assert_eq!(Some(l), root.get_parent(lr));
}

#[test]
fn reattaching_drops_every_value_of_the_old_subtree() {
    let token = std::rc::Rc::new(());
    let mut root = Node::new(token.clone());
    let old = root.set_left(0, Node::new(token.clone()));
    let old_child = root.set_left(old, Node::new(token.clone()));
    root.set_right(old_child, Node::new(token.clone()));
    assert_eq!(5, std::rc::Rc::strong_count(&token));
    root.set_left(0, Node::new(token.clone()));
    assert_eq!(3, std::rc::Rc::strong_count(&token));
}

#[test]
fn dropping_a_root_drops_its_whole_subtree() {
    let token = std::rc::Rc::new(());
    {
        let mut root = Node::new(token.clone());
        let l = root.set_left(0, Node::new(token.clone()));
        root.set_right(0, Node::new(token.clone()));
        root.set_left(l, Node::new(token.clone()));
        assert_eq!(5, std::rc::Rc::strong_count(&token));
    }
    assert_eq!(1, std::rc::Rc::strong_count(&token));
}
