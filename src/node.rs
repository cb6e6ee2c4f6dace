use vstd::prelude::*;

verus! {

/// What a tree keeps for one live position.
pub struct Entry<T> {
    pub value: T,
    /// Position of the node that owns this one; `None` at the root.
    pub parent: Option<usize>,
    pub left: Option<usize>,
    pub right: Option<usize>,
}

/// A node together with the subtree it owns.
pub struct Node<T> {
    slots: Vec<Option<Entry<T>>>,
}

impl<T> View for Node<T> {
    type V = Seq<Option<Entry<T>>>;

    closed spec fn view(&self) -> Seq<Option<Entry<T>>> {
        self.slots@
    }
}

/// Position `i` holds a node.
pub open spec fn live<T>(s: Seq<Option<Entry<T>>>, i: int) -> bool {
    0 <= i < s.len() && s[i] is Some
}

/// What is kept at position `i`, read where `live(s, i)` holds.
pub open spec fn entry<T>(s: Seq<Option<Entry<T>>>, i: int) -> Entry<T> {
    s[i]->0
}

/// A child link from `i`, when present, leads to a live node whose parent
/// link leads back to `i`.
pub open spec fn child_ok<T>(s: Seq<Option<Entry<T>>>, i: int, c: Option<usize>) -> bool {
    c is Some ==> live(s, c->0 as int) && entry(s, c->0 as int).parent == Some(i as usize)
}

/// The node at `i`, not the root, has a live parent at a lower position that
/// holds it as its left or its right child.
pub open spec fn parent_ok<T>(s: Seq<Option<Entry<T>>>, i: int) -> bool {
    let q = entry(s, i).parent;
    &&& q is Some
    &&& q->0 < i
    &&& live(s, q->0 as int)
    &&& (entry(s, q->0 as int).left == Some(i as usize) || entry(s, q->0 as int).right == Some(
        i as usize,
    ))
}

/// The child links of the node at `i` agree with the parent links, and do
/// not name the same child twice.
pub open spec fn children_ok<T>(s: Seq<Option<Entry<T>>>, i: int) -> bool {
    &&& child_ok(s, i, entry(s, i).left)
    &&& child_ok(s, i, entry(s, i).right)
    &&& (entry(s, i).left is Some && entry(s, i).right is Some ==> entry(s, i).left != entry(
        s,
        i,
    ).right)
}

/// The shape every tree keeps: its positions fit in `usize`; the root lives
/// at position 0 with no parent; every other live node has a live parent at
/// a lower position that holds it as a child; child links and parent links
/// agree.
pub open spec fn well_formed<T>(s: Seq<Option<Entry<T>>>) -> bool {
    &&& s.len() <= usize::MAX
    &&& live(s, 0)
    &&& entry(s, 0).parent is None
    &&& forall|i: int| #![trigger s[i]] 0 < i < s.len() && s[i] is Some ==> parent_ok(s, i)
    &&& forall|i: int| #![trigger s[i]] live(s, i) ==> children_ok(s, i)
}

/// Position `i` lies in the subtree whose top is at position `top`: it is
/// `top`, or its parent lies there.
pub open spec fn in_subtree<T>(s: Seq<Option<Entry<T>>>, top: int, i: int) -> bool
    decreases i,
{
    if i == top {
        true
    } else if top < i && live(s, i) && entry(s, i).parent is Some && entry(s, i).parent->0 < i {
        in_subtree(s, top, entry(s, i).parent->0 as int)
    } else {
        false
    }
}

/// `s` with every node of the subtree topped at `top` released.
pub open spec fn released<T>(s: Seq<Option<Entry<T>>>, top: int) -> Seq<Option<Entry<T>>> {
    Seq::new(s.len(), |i: int| if in_subtree(s, top, i) { None } else { s[i] })
}

/// The left (`to_left`) or the right child link of the node at `at`.
pub open spec fn child_of<T>(s: Seq<Option<Entry<T>>>, at: int, to_left: bool) -> Option<usize> {
    if to_left {
        entry(s, at).left
    } else {
        entry(s, at).right
    }
}

/// `s` with the left (`to_left`) or the right child link of `at` set to `c`.
pub open spec fn with_child<T>(s: Seq<Option<Entry<T>>>, at: int, to_left: bool, c: Option<usize>) -> Seq<Option<Entry<T>>> {
    let e = entry(s, at);
    s.update(
        at,
        Some(
            if to_left {
                Entry { value: e.value, parent: e.parent, left: c, right: e.right }
            } else {
                Entry { value: e.value, parent: e.parent, left: e.left, right: c }
            },
        ),
    )
}

/// `s` with the subtree in the named slot of `at` released, if there is one.
pub open spec fn dropped<T>(s: Seq<Option<Entry<T>>>, at: int, to_left: bool) -> Seq<Option<Entry<T>>> {
    match child_of(s, at, to_left) {
        Some(c) => released(s, c as int),
        None => s,
    }
}

/// A link moved up by `off`.
pub open spec fn shift(o: Option<usize>, off: int) -> Option<usize> {
    match o {
        Some(k) => Some((k + off) as usize),
        None => None,
    }
}

/// The slots of a tree `c` moved to start at position `off`, with its root
/// hung below the node at `at`.
pub open spec fn grafted<T>(c: Seq<Option<Entry<T>>>, off: int, at: int) -> Seq<Option<Entry<T>>> {
    Seq::new(
        c.len(),
        |j: int|
            match c[j] {
                None => None,
                Some(e) => Some(
                    Entry {
                        value: e.value,
                        parent: if j == 0 {
                            Some(at as usize)
                        } else {
                            shift(e.parent, off)
                        },
                        left: shift(e.left, off),
                        right: shift(e.right, off),
                    },
                ),
            },
    )
}

/// The tree `s` after the tree `c` is attached in the left (`to_left`) or the
/// right slot of the node at `at`: what the slot held before is released,
/// and the nodes of `c` follow the existing slots, its root at `s.len()`.
pub open spec fn attached<T>(s: Seq<Option<Entry<T>>>, at: int, c: Seq<Option<Entry<T>>>, to_left: bool) -> Seq<Option<Entry<T>>> {
    with_child(dropped(s, at, to_left), at, to_left, Some(s.len() as usize)) + grafted(
        c,
        s.len() as int,
        at,
    )
}

/// `s` with the value at `at` replaced by `v`.
pub open spec fn with_value<T>(s: Seq<Option<Entry<T>>>, at: int, v: T) -> Seq<Option<Entry<T>>> {
    let e = entry(s, at);
    s.update(at, Some(Entry { value: v, parent: e.parent, left: e.left, right: e.right }))
}

/// The lone node that `Node::new(value)` makes.
pub open spec fn lone<T>(value: T) -> Seq<Option<Entry<T>>> {
    seq![Some(Entry { value, parent: None, left: None, right: None })]
}

/// Inside the subtree topped at `c`, positions are no lower than `c`.
pub proof fn lemma_subtree_above<T>(s: Seq<Option<Entry<T>>>, c: int, j: int)
    requires
        in_subtree(s, c, j),
    ensures
        j >= c,
{
}

/// A node other than the top lies in the subtree exactly when its parent does.
proof fn lemma_subtree_step<T>(s: Seq<Option<Entry<T>>>, c: int, j: int)
    requires
        well_formed(s),
        0 < j < s.len(),
        s[j] is Some,
        j != c,
    ensures
        in_subtree(s, c, j) == in_subtree(s, c, entry(s, j).parent->0 as int),
{
    assert(parent_ok(s, j));
    let q = entry(s, j).parent->0 as int;
    if in_subtree(s, c, q) {
        lemma_subtree_above(s, c, q);
    }
}

/// The facts on the node at `i` after the subtree below `at` in one slot is
/// released and that slot emptied.
proof fn lemma_unlinked_at<T>(s: Seq<Option<Entry<T>>>, at: int, to_left: bool, c0: usize, i: int)
    requires
        well_formed(s),
        live(s, at),
        child_of(s, at, to_left) == Some(c0),
        live(with_child(released(s, c0 as int), at, to_left, None), i),
    ensures
        ({
            let u = with_child(released(s, c0 as int), at, to_left, None);
            &&& i > 0 ==> parent_ok(u, i)
            &&& children_ok(u, i)
        }),
{
    let c = c0 as int;
    let r = released(s, c);
    let u = with_child(r, at, to_left, None);
    assert(s[at] is Some);
    assert(children_ok(s, at));
    assert(s[c] is Some);
    assert(c != 0);
    assert(parent_ok(s, c));
    assert(child_ok(s, at, child_of(s, at, to_left)));
    assert(c > at);
    if in_subtree(s, c, at) {
        lemma_subtree_above(s, c, at);
    }
    assert(s[i] is Some);
    assert(!in_subtree(s, c, i));
    assert(i != c);
    if i > 0 {
        assert(parent_ok(s, i));
        let q = entry(s, i).parent->0 as int;
        lemma_subtree_step(s, c, i);
        assert(s[q] is Some);
        assert(r[q] == s[q]);
    }
    assert(children_ok(s, i));
    if let Some(k) = entry(s, i).left {
        let k = k as int;
        assert(s[k] is Some);
        assert(k > 0);
        if k != c {
            lemma_subtree_step(s, c, k);
            assert(r[k] == s[k]);
        }
    }
    if let Some(k) = entry(s, i).right {
        let k = k as int;
        assert(s[k] is Some);
        assert(k > 0);
        if k != c {
            lemma_subtree_step(s, c, k);
            assert(r[k] == s[k]);
        }
    }
}

/// Releasing the subtree in one slot of `at`, and emptying that slot, keeps
/// the shape of a tree.
proof fn lemma_unlinked_wf<T>(s: Seq<Option<Entry<T>>>, at: int, to_left: bool)
    requires
        well_formed(s),
        live(s, at),
    ensures
        ({
            let u = with_child(dropped(s, at, to_left), at, to_left, None);
            &&& well_formed(u)
            &&& u.len() == s.len()
            &&& live(u, at)
            &&& child_of(u, at, to_left) is None
        }),
{
    let u = with_child(dropped(s, at, to_left), at, to_left, None);
    assert(s[at] is Some);
    match child_of(s, at, to_left) {
        None => {
            assert forall|i: int| #![trigger u[i]] live(u, i) implies children_ok(u, i) by {
                assert(s[i] is Some);
            }
            assert forall|i: int| #![trigger u[i]] 0 < i < u.len() && u[i] is Some implies parent_ok(u, i) by {
                assert(s[i] is Some);
            }
        },
        Some(c0) => {
            let c = c0 as int;
            assert(s[c] is Some);
            assert(c != 0);
            assert(parent_ok(s, c));
            if in_subtree(s, c, 0) {
                lemma_subtree_above(s, c, 0);
            }
            assert forall|i: int| #![trigger u[i]] live(u, i) implies children_ok(u, i) by {
                lemma_unlinked_at(s, at, to_left, c0, i);
            }
            assert forall|i: int| #![trigger u[i]] 0 < i < u.len() && u[i] is Some implies parent_ok(u, i) by {
                lemma_unlinked_at(s, at, to_left, c0, i);
            }
        },
    }
}

/// The facts on the node at `i` after the tree `c` is hung in an empty slot
/// of `at`.
proof fn lemma_grafted_at<T>(
    u: Seq<Option<Entry<T>>>,
    at: int,
    to_left: bool,
    c: Seq<Option<Entry<T>>>,
    i: int,
)
    requires
        well_formed(u),
        well_formed(c),
        live(u, at),
        child_of(u, at, to_left) is None,
        u.len() + c.len() <= usize::MAX,
        live(with_child(u, at, to_left, Some(u.len() as usize)) + grafted(c, u.len() as int, at), i),
    ensures
        ({
            let t = with_child(u, at, to_left, Some(u.len() as usize)) + grafted(
                c,
                u.len() as int,
                at,
            );
            &&& i > 0 ==> parent_ok(t, i)
            &&& children_ok(t, i)
        }),
{
    let off = u.len() as int;
    let v = with_child(u, at, to_left, Some(off as usize));
    let g = grafted(c, off, at);
    let t = v + g;
    assert(u[at] is Some);
    assert(c[0] is Some);
    assert(t[off] == g[0]);
    if i < off {
        assert(t[i] == v[i]);
        assert(u[i] is Some);
        if i > 0 {
            assert(parent_ok(u, i));
            let q = entry(u, i).parent->0 as int;
            assert(t[q] == v[q]);
        }
        assert(children_ok(u, i));
        if let Some(k) = entry(u, i).left {
            assert(u[k as int] is Some);
            assert(t[k as int] == v[k as int]);
        }
        if let Some(k) = entry(u, i).right {
            assert(u[k as int] is Some);
            assert(t[k as int] == v[k as int]);
        }
    } else {
        let j = i - off;
        assert(t[i] == g[j]);
        assert(c[j] is Some);
        if j > 0 {
            assert(parent_ok(c, j));
            let q = entry(c, j).parent->0 as int;
            assert(c[q] is Some);
            assert(t[q + off] == g[q]);
        }
        assert(children_ok(c, j));
        if let Some(k) = entry(c, j).left {
            assert(c[k as int] is Some);
            assert(t[k + off] == g[k as int]);
        }
        if let Some(k) = entry(c, j).right {
            assert(c[k as int] is Some);
            assert(t[k + off] == g[k as int]);
        }
    }
}

/// Hanging a tree `c` in an empty slot of `at`, its nodes placed after the
/// existing slots, keeps the shape of a tree.
proof fn lemma_grafted_wf<T>(u: Seq<Option<Entry<T>>>, at: int, to_left: bool, c: Seq<Option<Entry<T>>>)
    requires
        well_formed(u),
        well_formed(c),
        live(u, at),
        child_of(u, at, to_left) is None,
        u.len() + c.len() <= usize::MAX,
    ensures
        well_formed(
            with_child(u, at, to_left, Some(u.len() as usize)) + grafted(c, u.len() as int, at),
        ),
{
    let t = with_child(u, at, to_left, Some(u.len() as usize)) + grafted(c, u.len() as int, at);
    assert(u[0] is Some);
    assert(t[0] == with_child(u, at, to_left, Some(u.len() as usize))[0]);
    assert forall|i: int| #![trigger t[i]] live(t, i) implies children_ok(t, i) by {
        lemma_grafted_at(u, at, to_left, c, i);
    }
    assert forall|i: int| #![trigger t[i]] 0 < i < t.len() && t[i] is Some implies parent_ok(t, i) by {
        lemma_grafted_at(u, at, to_left, c, i);
    }
}

/// Changing a value keeps the shape of a tree.
proof fn lemma_with_value_wf<T>(s: Seq<Option<Entry<T>>>, at: int, v: T)
    requires
        well_formed(s),
        live(s, at),
    ensures
        well_formed(with_value(s, at, v)),
{
    let t = with_value(s, at, v);
    assert forall|i: int| #![trigger t[i]] live(t, i) implies children_ok(t, i) by {
        assert(s[i] is Some);
        assert(children_ok(s, i));
    }
    assert forall|i: int| #![trigger t[i]] 0 < i < t.len() && t[i] is Some implies parent_ok(t, i) by {
        assert(s[i] is Some);
        assert(parent_ok(s, i));
    }
}

/// Attaching a tree in a slot of a live node, releasing what the slot held,
/// keeps the shape of a tree.
pub proof fn lemma_attached_wf<T>(s: Seq<Option<Entry<T>>>, at: int, c: Seq<Option<Entry<T>>>, to_left: bool)
    requires
        well_formed(s),
        well_formed(c),
        live(s, at),
        s.len() + c.len() <= usize::MAX,
    ensures
        well_formed(attached(s, at, c, to_left)),
        attached(s, at, c, to_left).len() == s.len() + c.len(),
{
    let u = with_child(dropped(s, at, to_left), at, to_left, None);
    lemma_unlinked_wf(s, at, to_left);
    lemma_grafted_wf(u, at, to_left, c);
    assert(with_child(u, at, to_left, Some(s.len() as usize)) =~= with_child(
        dropped(s, at, to_left),
        at,
        to_left,
        Some(s.len() as usize),
    ));
}

impl<T> Node<T> {
    /// The tree has the shape that `well_formed` describes.
    pub open spec fn wf(&self) -> bool {
        well_formed(self@)
    }

    /// Makes a node with no parent and no children that holds `value`.
    pub fn new(value: T) -> (r: Node<T>)
        ensures
            r@ == lone(value),
            r.wf(),
    {
        let mut slots: Vec<Option<Entry<T>>> = Vec::new();
        slots.push(Some(Entry { value, parent: None, left: None, right: None }));
        Node { slots }
    }

    /// Tells whether `at` is the position of a node of this tree.
    pub fn is_live(&self, at: usize) -> (r: bool)
        ensures
            r == live(self@, at as int),
    {
        at < self.slots.len() && self.slots[at].is_some()
    }

    /// The position of the parent of the node at `at`; `None` at the root.
    pub fn get_parent(&self, at: usize) -> (r: Option<usize>)
        requires
            live(self@, at as int),
        ensures
            r == entry(self@, at as int).parent,
    {
        self.slots[at].as_ref().unwrap().parent
    }

    /// The value held at `at`.
    pub fn read_value(&self, at: usize) -> (r: &T)
        requires
            live(self@, at as int),
        ensures
            *r == entry(self@, at as int).value,
    {
        &self.slots[at].as_ref().unwrap().value
    }

    /// Attaches `child`, with the subtree it owns, as the left child of the
    /// node at `at`. A left subtree that was there is released. Gives the
    /// position of the attached child, whose parent link leads back to `at`.
    pub fn set_left(&mut self, at: usize, child: Node<T>) -> (r: usize)
        requires
            old(self).wf(),
            child.wf(),
            live(old(self)@, at as int),
            old(self)@.len() + child@.len() <= usize::MAX,
        ensures
            final(self).wf(),
            r == old(self)@.len(),
            final(self)@ == attached(old(self)@, at as int, child@, true),
    {
        self.attach(at, child, true)
    }

    /// Attaches `child`, with the subtree it owns, as the right child of the
    /// node at `at`. A right subtree that was there is released. Gives the
    /// position of the attached child, whose parent link leads back to `at`.
    pub fn set_right(&mut self, at: usize, child: Node<T>) -> (r: usize)
        requires
            old(self).wf(),
            child.wf(),
            live(old(self)@, at as int),
            old(self)@.len() + child@.len() <= usize::MAX,
        ensures
            final(self).wf(),
            r == old(self)@.len(),
            final(self)@ == attached(old(self)@, at as int, child@, false),
    {
        self.attach(at, child, false)
    }

    /// The value of the left child of the node at `at`, if it has one.
    pub fn read_left_value(&self, at: usize) -> (r: Option<&T>)
        requires
            self.wf(),
            live(self@, at as int),
        ensures
            match r {
                None => entry(self@, at as int).left is None,
                Some(v) => {
                    &&& entry(self@, at as int).left is Some
                    &&& *v == entry(self@, entry(self@, at as int).left->0 as int).value
                },
            },
    {
        match self.slots[at].as_ref().unwrap().left {
            None => None,
            Some(k) => {
                proof {
                    assert(self@[at as int] is Some);
                    assert(children_ok(self@, at as int));
                }
                Some(&self.slots[k].as_ref().unwrap().value)
            },
        }
    }

    /// The position of the left child of the node at `at`, if it has one.
    pub fn get_left(&self, at: usize) -> (r: Option<usize>)
        requires
            live(self@, at as int),
        ensures
            r == entry(self@, at as int).left,
    {
        self.slots[at].as_ref().unwrap().left
    }

    /// The position of the right child of the node at `at`, if it has one.
    pub fn get_right(&self, at: usize) -> (r: Option<usize>)
        requires
            live(self@, at as int),
        ensures
            r == entry(self@, at as int).right,
    {
        self.slots[at].as_ref().unwrap().right
    }

    /// A handle through which the value at `at` is read and changed in place;
    /// the tree keeps its shape.
    pub fn value_mut(&mut self, at: usize) -> (r: &mut T)
        requires
            old(self).wf(),
            live(old(self)@, at as int),
        ensures
            *r == entry(old(self)@, at as int).value,
            final(self)@ == with_value(old(self)@, at as int, *final(r)),
            final(self).wf(),
    {
        let ghost s0 = self@;
        let e = self.slots[at].as_mut().unwrap();
        let r = &mut e.value;
        proof {
            lemma_with_value_wf(s0, at as int, *final(r));
        }
        r
    }

    /// Empties the slots of the subtree topped at `top`. Every descendant
    /// sits at a higher position than its parent, so one forward scan sees
    /// each parent decided before its children.
    fn release(&mut self, top: usize)
        requires
            well_formed(old(self)@),
            0 < top < old(self)@.len(),
        ensures
            final(self)@ == released(old(self)@, top as int),
    {
        let ghost s0 = self@;
        let mut i: usize = top;
        while i < self.slots.len()
            invariant
                well_formed(s0),
                0 < top <= i <= s0.len(),
                self@.len() == s0.len(),
                forall|j: int| 0 <= j < i ==> #[trigger] self@[j] == released(s0, top as int)[j],
                forall|j: int| i <= j < s0.len() ==> #[trigger] self@[j] == s0[j],
            decreases s0.len() - i,
        {
            let free = if i == top {
                true
            } else {
                match &self.slots[i] {
                    None => false,
                    Some(e) => match e.parent {
                        None => false,
                        Some(q) => q >= top && q < i && self.slots[q].is_none(),
                    },
                }
            };
            proof {
                let ii = i as int;
                assert(self@[ii] == s0[ii]);
                if ii != top && s0[ii] is Some {
                    let q = entry(s0, ii).parent->0 as int;
                    assert(self@[q] == released(s0, top as int)[q]);
                }
            }
            if free {
                self.slots[i] = None;
            }
            i += 1;
        }
        assert(self@ =~= released(s0, top as int));
    }

    /// Hangs `child` in the left (`to_left`) or the right slot of the node
    /// at `at`, releasing what the slot held, and gives the position of the
    /// attached child.
    fn attach(&mut self, at: usize, child: Node<T>, to_left: bool) -> (r: usize)
        requires
            old(self).wf(),
            child.wf(),
            live(old(self)@, at as int),
            old(self)@.len() + child@.len() <= usize::MAX,
        ensures
            final(self).wf(),
            r == old(self)@.len(),
            final(self)@ == attached(old(self)@, at as int, child@, to_left),
    {
        let ghost s0 = self@;
        let ghost c = child@;
        self.empty_slot(at, to_left);
        let ghost u = self@;
        let r = self.hang(at, child, to_left);
        assert(with_child(u, at as int, to_left, Some(r)) =~= with_child(
            dropped(s0, at as int, to_left),
            at as int,
            to_left,
            Some(r),
        ));
        r
    }

    /// Releases the subtree in the left (`to_left`) or the right slot of the
    /// node at `at`, and leaves the slot empty.
    fn empty_slot(&mut self, at: usize, to_left: bool)
        requires
            old(self).wf(),
            live(old(self)@, at as int),
        ensures
            final(self).wf(),
            final(self)@ == with_child(dropped(old(self)@, at as int, to_left), at as int, to_left, None),
    {
        let ghost s0 = self@;
        proof {
            lemma_unlinked_wf(s0, at as int, to_left);
        }
        let held = if to_left {
            self.slots[at].as_ref().unwrap().left
        } else {
            self.slots[at].as_ref().unwrap().right
        };
        if let Some(c) = held {
            proof {
                assert(s0[at as int] is Some);
                assert(children_ok(s0, at as int));
                assert(s0[c as int] is Some);
            }
            self.release(c);
        }
        let mut e = self.slots[at].take().unwrap();
        if to_left {
            e.left = None;
        } else {
            e.right = None;
        }
        self.slots[at] = Some(e);
        assert(self@ =~= with_child(dropped(s0, at as int, to_left), at as int, to_left, None));
    }

    /// Hangs `child` in the empty left (`to_left`) or right slot of the node
    /// at `at`, its nodes placed after the existing slots.
    fn hang(&mut self, at: usize, child: Node<T>, to_left: bool) -> (r: usize)
        requires
            old(self).wf(),
            child.wf(),
            live(old(self)@, at as int),
            child_of(old(self)@, at as int, to_left) is None,
            old(self)@.len() + child@.len() <= usize::MAX,
        ensures
            final(self).wf(),
            r == old(self)@.len(),
            final(self)@ == with_child(old(self)@, at as int, to_left, Some(r)) + grafted(
                child@,
                r as int,
                at as int,
            ),
    {
        let ghost u = self@;
        let ghost c = child@;
        proof {
            lemma_grafted_wf(u, at as int, to_left, c);
        }
        let off = self.slots.len();
        let mut e = self.slots[at].take().unwrap();
        if to_left {
            e.left = Some(off);
        } else {
            e.right = Some(off);
        }
        self.slots[at] = Some(e);
        let ghost v = with_child(u, at as int, to_left, Some(off));
        assert(self@ =~= v);
        let mut moved = child.slots;
        self.slots.append(&mut moved);
        let mut j: usize = off;
        while j < self.slots.len()
            invariant
                well_formed(c),
                off == u.len(),
                off + c.len() <= usize::MAX,
                off <= j <= off + c.len(),
                self@.len() == off + c.len(),
                forall|k: int| 0 <= k < off ==> #[trigger] self@[k] == v[k],
                forall|k: int|
                    off <= k < j ==> #[trigger] self@[k] == grafted(c, off as int, at as int)[k
                        - off],
                forall|k: int| j <= k < off + c.len() ==> #[trigger] self@[k] == c[k - off],
            decreases off + c.len() - j,
        {
            let slot = self.slots[j].take();
            if let Some(e) = slot {
                proof {
                    let jj = j - off;
                    assert(c[jj] is Some);
                    assert(children_ok(c, jj));
                    if jj > 0 {
                        assert(parent_ok(c, jj));
                    }
                }
                let parent = if j == off {
                    Some(at)
                } else {
                    shifted(e.parent, off)
                };
                let left = shifted(e.left, off);
                let right = shifted(e.right, off);
                self.slots[j] = Some(Entry { value: e.value, parent, left, right });
            }
            j += 1;
        }
        assert(self@ =~= v + grafted(c, off as int, at as int));
        off
    }
}

/// `o` moved up by `off`.
fn shifted(o: Option<usize>, off: usize) -> (r: Option<usize>)
    requires
        o is Some ==> o->0 + off <= usize::MAX,
    ensures
        r == shift(o, off as int),
{
    match o {
        Some(k) => Some(k + off),
        None => None,
    }
}

} // verus!
