//! What holds across the operations of [`Node`], stated over its view.
use crate::node::{
    attached, child_of, children_ok, entry, in_subtree, lemma_attached_wf, lemma_subtree_above, live,
    lone, parent_ok, with_value, Node,
};
use vstd::prelude::*;

verus! {

/// A new node holding `v` is a root with no children, and its value is `v`.
pub proof fn new_node_is_lone_root<T>(n: Node<T>, v: T)
    requires
        n@ == lone(v),
    ensures
        n.wf(),
        n@.len() == 1,
        live(n@, 0),
        entry(n@, 0).parent is None,
        entry(n@, 0).left is None,
        entry(n@, 0).right is None,
        entry(n@, 0).value == v,
{
}

/// After `set_left(at, c)`, the parent link of the returned position leads
/// to `at`, `at`'s left child is that position, and it holds the value that
/// the root of `c` held.
pub proof fn attached_child_links_back_left<T>(p: Node<T>, at: usize, c: Node<T>, after: Node<T>)
    requires
        p.wf(),
        c.wf(),
        live(p@, at as int),
        p@.len() + c@.len() <= usize::MAX,
        after@ == attached(p@, at as int, c@, true),
    ensures
        after.wf(),
        live(after@, p@.len() as int),
        entry(after@, p@.len() as int).parent == Some(at),
        entry(after@, at as int).left == Some(p@.len() as usize),
        entry(after@, p@.len() as int).value == entry(c@, 0).value,
{
    lemma_attached_wf(p@, at as int, c@, true);
}

/// After `set_right(at, c)`, the parent link of the returned position leads
/// to `at`, `at`'s right child is that position, and it holds the value that
/// the root of `c` held.
pub proof fn attached_child_links_back_right<T>(p: Node<T>, at: usize, c: Node<T>, after: Node<T>)
    requires
        p.wf(),
        c.wf(),
        live(p@, at as int),
        p@.len() + c@.len() <= usize::MAX,
        after@ == attached(p@, at as int, c@, false),
    ensures
        after.wf(),
        live(after@, p@.len() as int),
        entry(after@, p@.len() as int).parent == Some(at),
        entry(after@, at as int).right == Some(p@.len() as usize),
        entry(after@, p@.len() as int).value == entry(c@, 0).value,
{
    lemma_attached_wf(p@, at as int, c@, false);
}

/// Writing `v` through the handle for the parent of `child` changes the
/// node that holds `child`: its value is then `v`, and it is still the node
/// that the parent link of `child` leads to and that holds `child`.
pub proof fn parent_handle_reaches_parent<T>(n: Node<T>, child: usize, v: T, after: Node<T>)
    requires
        n.wf(),
        live(n@, child as int),
        entry(n@, child as int).parent is Some,
        after@ == with_value(n@, entry(n@, child as int).parent->0 as int, v),
    ensures
        ({
            let p = entry(n@, child as int).parent->0 as int;
            &&& live(after@, p)
            &&& entry(after@, p).value == v
            &&& entry(after@, child as int).parent == Some(p as usize)
            &&& (entry(after@, p).left == Some(child) || entry(after@, p).right == Some(child))
        }),
{
    assert(n@[child as int] is Some);
    if child == 0 {
    } else {
        assert(parent_ok(n@, child as int));
    }
}

/// Attaching in a slot that held a subtree releases every node of that
/// subtree, and keeps every other node that was there.
pub proof fn reattach_releases_old_subtree<T>(
    s: Node<T>,
    at: usize,
    c: Node<T>,
    to_left: bool,
    after: Node<T>,
)
    requires
        s.wf(),
        c.wf(),
        live(s@, at as int),
        child_of(s@, at as int, to_left) is Some,
        s@.len() + c@.len() <= usize::MAX,
        after@ == attached(s@, at as int, c@, to_left),
    ensures
        after.wf(),
        forall|i: int|
            0 <= i < s@.len() ==> (#[trigger] live(after@, i) <==> live(s@, i) && !in_subtree(
                s@,
                child_of(s@, at as int, to_left)->0 as int,
                i,
            )),
{
    lemma_attached_wf(s@, at as int, c@, to_left);
    let old = child_of(s@, at as int, to_left)->0 as int;
    assert(s@[at as int] is Some);
    assert(children_ok(s@, at as int));
    assert(s@[old] is Some);
    assert(parent_ok(s@, old));
    assert forall|i: int| 0 <= i < s@.len() implies (#[trigger] live(after@, i) <==> live(s@, i)
        && !in_subtree(s@, old, i)) by {
        if in_subtree(s@, old, i) {
            lemma_subtree_above(s@, old, i);
        }
    }
}

/// Attaching `c1` as the left child of `at`, then `c2` as the left child of
/// the returned position, then writing `v` through the handle of the second
/// returned position: following left links from `at` twice reaches `v`.
pub proof fn chained_attach_is_seen_from_root<T>(
    s0: Node<T>,
    at: usize,
    c1: Node<T>,
    c2: Node<T>,
    v: T,
    s1: Node<T>,
    s2: Node<T>,
    s3: Node<T>,
)
    requires
        s0.wf(),
        c1.wf(),
        c2.wf(),
        live(s0@, at as int),
        s0@.len() + c1@.len() + c2@.len() <= usize::MAX,
        s1@ == attached(s0@, at as int, c1@, true),
        s2@ == attached(s1@, s0@.len() as int, c2@, true),
        s3@ == with_value(s2@, s1@.len() as int, v),
    ensures
        entry(s3@, at as int).left == Some(s0@.len() as usize),
        entry(s3@, s0@.len() as int).left == Some(s1@.len() as usize),
        live(s3@, s1@.len() as int),
        entry(s3@, s1@.len() as int).value == v,
{
    lemma_attached_wf(s0@, at as int, c1@, true);
    lemma_attached_wf(s1@, s0@.len() as int, c2@, true);
    assert(s1@[s0@.len() as int] is Some);
    assert(s2@[at as int] == s1@[at as int]);
    assert(s2@[s1@.len() as int] is Some);
}

} // verus!
