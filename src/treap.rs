use vstd::prelude::*;
use std::cmp::Ordering;
use vstd::std_specs::cmp::PartialOrdSpec;
use vstd::seq_lib::group_to_multiset_ensures;
use vstd::seq_lib::lemma_multiset_commutative;
use vstd::multiset::group_multiset_axioms;
use vstd::multiset::Multiset;
use crate::order::count_less;
use crate::order::law_rank_of_select;
use crate::order::lemma_sorted_join;
use crate::order::sorted;

verus! {

/// A side of a node: where a smaller key goes, or which way a rotation turns.
#[derive(Clone, Copy, PartialEq, Eq, Structural, Debug)]
pub enum Dir {
    Left,
    Right,
}

impl Dir {
    pub open spec fn spec_flip(self) -> Dir {
        match self {
            Dir::Left => Dir::Right,
            Dir::Right => Dir::Left,
        }
    }

    /// The other side.
    pub fn flip(self) -> (r: Dir)
        ensures
            r == self.spec_flip(),
    {
        if let Dir::Right = self {
            Dir::Left
        } else {
            Dir::Right
        }
    }

    /// `Left` when `left` orders strictly before `right`, else `Right`.
    pub fn smaller<T: Ord>(left: &T, right: &T) -> (r: Dir)
        ensures
            T::obeys_partial_cmp_spec() ==> (r == Dir::Left <==> left.partial_cmp_spec(right)
                == Some(Ordering::Less)),
    {
        if left < right {
            Dir::Left
        } else {
            Dir::Right
        }
    }
}

/// A node of a treap: a key, its balancing priority, the number of nodes
/// in the subtree rooted here (itself included), and the two subtrees.
#[derive(Debug)]
pub struct Node {
    key: i32,
    priority: u32,
    size: u32,
    left: Treap,
    right: Treap,
}

/// An order-statistics treap of `i32` keys, possibly empty.
#[derive(Debug)]
pub struct Treap {
    inner: Option<Box<Node>>,
}

impl Treap {
    /// The keys in order, from the leftmost node to the rightmost.
    pub closed spec fn keys(self) -> Seq<i32>
        decreases self,
    {
        match self.inner {
            None => Seq::empty(),
            Some(n) => n.left.keys() + seq![n.key] + n.right.keys(),
        }
    }

    /// Every priority in the tree is at most `b`.
    closed spec fn bounded_by(self, b: u32) -> bool
        decreases self,
    {
        match self.inner {
            None => true,
            Some(n) => n.priority <= b && n.left.bounded_by(b) && n.right.bounded_by(b),
        }
    }

    /// Every priority below the root is at most `b`.
    closed spec fn children_bounded_by(self, b: u32) -> bool {
        match self.inner {
            None => true,
            Some(n) => n.left.bounded_by(b) && n.right.bounded_by(b),
        }
    }

    /// Search order on keys, heap order on priorities, and exact size counters.
    pub closed spec fn well_formed(self) -> bool
        decreases self,
    {
        match self.inner {
            None => true,
            Some(n) => {
                &&& n.left.well_formed()
                &&& n.right.well_formed()
                &&& n.size as int == n.left.keys().len() + n.right.keys().len() + 1
                &&& n.left.bounded_by(n.priority)
                &&& n.right.bounded_by(n.priority)
                &&& forall|k: i32| n.left.keys().contains(k) ==> k <= n.key
                &&& forall|k: i32| n.right.keys().contains(k) ==> n.key <= k
            },
        }
    }

    /// The position of the root's key among the keys in order.
    pub closed spec fn root_rank(self) -> nat {
        match self.inner {
            None => 0,
            Some(n) => n.left.keys().len(),
        }
    }

    /// The empty treap.
    pub fn new() -> (r: Treap)
        ensures
            r.well_formed(),
            r@ == Seq::<i32>::empty(),
    {
        Treap { inner: None }
    }

    /// Number of keys stored.
    pub fn size(&self) -> (r: u32)
        requires
            self.well_formed(),
        ensures
            r == self@.len(),
    {
        match &self.inner {
            Some(n) => n.size,
            None => 0,
        }
    }
}

impl Treap {
    closed spec fn is_node_spec(self) -> bool {
        self.inner is Some
    }

    closed spec fn root(self) -> Node {
        *self.inner.unwrap()
    }

    closed spec fn side(n: Node, d: Dir) -> Treap {
        match d {
            Dir::Left => n.left,
            Dir::Right => n.right,
        }
    }

    closed spec fn sub(self, d: Dir) -> Treap {
        Treap::side(self.root(), d)
    }

    /// The size counter of the root, or zero for the empty tree.
    closed spec fn count(self) -> nat {
        match self.inner {
            None => 0,
            Some(n) => n.size as nat,
        }
    }

    /// `n` with `on_d` on side `d` and `on_flip` on the other side.
    closed spec fn with_sides(n: Node, d: Dir, on_d: Treap, on_flip: Treap) -> Node {
        match d {
            Dir::Left => Node { left: on_d, right: on_flip, ..n },
            Dir::Right => Node { left: on_flip, right: on_d, ..n },
        }
    }

    /// `n` with its size counter recomputed from its children's.
    closed spec fn resized(n: Node) -> Node {
        Node { size: (n.left.count() + n.right.count() + 1) as u32, ..n }
    }

    /// The tree after a rotation in direction `d`: the child on the other
    /// side of `d` rises to the root, and the old root goes down on side `d`.
    closed spec fn rotated(t: Treap, d: Dir) -> Treap {
        let x = t.root();
        let y = Treap::side(x, d.spec_flip()).root();
        let x2 = Treap::resized(Treap::with_sides(x, d, Treap::side(x, d), Treap::side(y, d)));
        let y2 = Treap::with_sides(y, d, Treap::of(x2), Treap::side(y, d.spec_flip()));
        Treap::of(Treap::resized(y2))
    }

    /// The node with the subtree on side `d` replaced by `t`.
    closed spec fn with_sub(n: Node, d: Dir, t: Treap) -> Node {
        match d {
            Dir::Left => Node { left: t, ..n },
            Dir::Right => Node { right: t, ..n },
        }
    }

    /// The tree whose root is `n`.
    closed spec fn of(n: Node) -> Treap {
        Treap { inner: Some(Box::new(n)) }
    }

    /// The subtree on side `dir` of the root, to be changed in place.
    fn child(&mut self, dir: Dir) -> (r: &mut Treap)
        requires
            old(self).is_node_spec(),
        ensures
            *r == old(self).sub(dir),
            *final(self) == Treap::of(Treap::with_sub(old(self).root(), dir, *final(r))),
    {
        let n = self.inner.as_mut().unwrap();
        match dir {
            Dir::Left => &mut n.left,
            Dir::Right => &mut n.right,
        }
    }
}

impl Treap {
    fn take(&mut self) -> (r: Treap)
        ensures
            r == *old(self),
            final(self).inner is None,
    {
        Treap { inner: self.inner.take() }
    }

    /// The size counter of the root, whether or not the tree is well formed.
    fn count_exec(&self) -> (r: u32)
        ensures
            r == self.count(),
    {
        match &self.inner {
            Some(n) => n.size,
            None => 0,
        }
    }

    /// Recomputes the root's size counter from its children's.
    fn fix_size(&mut self)
        requires
            old(self).is_node_spec(),
            old(self).root().left.count() + old(self).root().right.count() + 1 <= u32::MAX,
        ensures
            *final(self) == Treap::of(Treap::resized(old(self).root())),
    {
        let n = self.inner.as_mut().unwrap();
        n.size = n.left.count_exec() + n.right.count_exec() + 1;
    }

    /// Rotates in direction `dir`: the child on the other side becomes the
    /// root, and the old root its child on side `dir`. The two nodes that
    /// move hold other subtrees afterwards, so their counters are recomputed.
    fn rotate(&mut self, dir: Dir)
        requires
            old(self).is_node_spec(),
            old(self).sub(dir.spec_flip()).is_node_spec(),
            old(self).sub(dir).count() + old(self).sub(dir.spec_flip()).root().left.count()
                + old(self).sub(dir.spec_flip()).root().right.count() + 2 <= u32::MAX,
        ensures
            *final(self) == Treap::rotated(*old(self), dir),
    {
        let mut x = self.take();
        let mut y = x.child(dir.flip()).take();
        *x.child(dir.flip()) = y.child(dir).take();
        x.fix_size();
        *y.child(dir) = x;
        y.fix_size();
        *self = y;
    }
}

impl Treap {
    /// The keys of a tree split at its root.
    proof fn lemma_keys_of(n: Node)
        ensures
            Treap::of(n).keys() == n.left.keys() + seq![n.key] + n.right.keys(),
            Treap::of(n).keys().to_multiset() =~= n.left.keys().to_multiset().insert(n.key).add(
                n.right.keys().to_multiset(),
            ),
            forall|k: i32|
                Treap::of(n).keys().contains(k) <==> (n.left.keys().contains(k) || k == n.key
                    || n.right.keys().contains(k)),
    {
        broadcast use group_to_multiset_ensures, group_multiset_axioms;

        let l = n.left.keys();
        let r = n.right.keys();
        lemma_multiset_commutative(l + seq![n.key], r);
        lemma_multiset_commutative(l, seq![n.key]);
        assert(seq![n.key].to_multiset() =~= Multiset::empty().insert(n.key)) by {
            assert(seq![n.key] =~= Seq::<i32>::empty().push(n.key));
        }
        assert forall|k: i32|
            Treap::of(n).keys().contains(k) <==> (l.contains(k) || k == n.key || r.contains(
                k,
            )) by {
            assert(Treap::of(n).keys().to_multiset().count(k) == l.to_multiset().count(k) + (
            if k == n.key {
                1int
            } else {
                0
            }) + r.to_multiset().count(k));
        }
    }

    /// A bound on every priority holds of any larger bound.
    proof fn lemma_bounded_mono(t: Treap, a: u32, b: u32)
        requires
            t.bounded_by(a),
            a <= b,
        ensures
            t.bounded_by(b),
        decreases t,
    {
        if let Some(n) = t.inner {
            Treap::lemma_bounded_mono(n.left, a, b);
            Treap::lemma_bounded_mono(n.right, a, b);
        }
    }

    /// A rotation keeps the keys in the same order.
    proof fn lemma_rotated_keys(t: Treap, d: Dir)
        requires
            t.is_node_spec(),
            t.sub(d.spec_flip()).is_node_spec(),
        ensures
            Treap::rotated(t, d).keys() == t.keys(),
    {
        let x = t.root();
        let y = Treap::side(x, d.spec_flip()).root();
        let x2 = Treap::resized(Treap::with_sides(x, d, Treap::side(x, d), Treap::side(y, d)));
        let y2 = Treap::resized(
            Treap::with_sides(y, d, Treap::of(x2), Treap::side(y, d.spec_flip())),
        );
        Treap::lemma_keys_of(x);
        Treap::lemma_keys_of(y);
        Treap::lemma_keys_of(x2);
        Treap::lemma_keys_of(y2);
        assert(Treap::of(x) == t);
        assert(Treap::of(y) == Treap::side(x, d.spec_flip()));
        assert(Treap::rotated(t, d).keys() =~= t.keys());
    }

    /// What well-formedness says of a node and its two children.
    proof fn lemma_wf_node(t: Treap)
        requires
            t.well_formed(),
            t.is_node_spec(),
        ensures
            t == Treap::of(t.root()),
            t.root().left.well_formed(),
            t.root().right.well_formed(),
            t.root().left.bounded_by(t.root().priority),
            t.root().right.bounded_by(t.root().priority),
            t.bounded_by(t.root().priority),
            t.count() == t.keys().len(),
            t.root().left.count() == t.root().left.keys().len(),
            t.root().right.count() == t.root().right.keys().len(),
            t.keys() == t.root().left.keys() + seq![t.root().key] + t.root().right.keys(),
            forall|k: i32|
                t.keys().contains(k) <==> (t.root().left.keys().contains(k) || k == t.root().key
                    || t.root().right.keys().contains(k)),
            forall|k: i32| t.root().left.keys().contains(k) ==> k <= t.root().key,
            forall|k: i32| t.root().right.keys().contains(k) ==> t.root().key <= k,
    {
        Treap::lemma_keys_of(t.root());
        Treap::lemma_count(t);
        Treap::lemma_count(t.root().left);
        Treap::lemma_count(t.root().right);
    }

    /// A size counter of a well-formed tree counts its keys.
    proof fn lemma_count(t: Treap)
        requires
            t.well_formed(),
        ensures
            t.count() == t.keys().len(),
    {
        if let Some(n) = t.inner {
            Treap::lemma_keys_of(*n);
            assert(Treap::of(*n) == t);
        }
    }

    /// After an insertion below the root raised a child above the root's
    /// priority, the rotation that lifts that child gives a well-formed tree.
    proof fn lemma_insert_rotation(mid: Treap, dir: Dir, x: Node, c: Treap, key: i32)
        requires
            mid.is_node_spec(),
            mid.root().key == x.key,
            mid.root().priority == x.priority,
            Treap::of(x).well_formed(),
            c == Treap::side(x, dir),
            Treap::side(mid.root(), dir.spec_flip()) == Treap::side(x, dir.spec_flip()),
            Treap::side(mid.root(), dir).well_formed(),
            Treap::side(mid.root(), dir).is_node_spec(),
            Treap::side(mid.root(), dir).root().priority > x.priority,
            Treap::side(mid.root(), dir).children_bounded_by(x.priority),
            forall|k: i32| #[trigger]
                Treap::side(mid.root(), dir).keys().contains(k) ==> (c.keys().contains(k) || k
                    == key),
            dir == Dir::Left ==> key < x.key,
            dir == Dir::Right ==> x.key <= key,
            mid.count() == mid.keys().len(),
            mid.keys().len() <= u32::MAX,
        ensures
            Treap::rotated(mid, dir.spec_flip()).well_formed(),
            forall|b: u32|
                Treap::side(mid.root(), dir).bounded_by(b) && x.priority <= b
                    ==> #[trigger] Treap::rotated(mid, dir.spec_flip()).bounded_by(b),
            forall|b: u32|
                x.priority <= b ==> #[trigger] Treap::rotated(mid, dir.spec_flip()).children_bounded_by(b),
    {
        let f = dir.spec_flip();
        let m = mid.root();
        let c2 = Treap::side(m, dir);
        let other = Treap::side(m, f);
        let y = c2.root();
        let a = Treap::side(y, dir);
        let bb = Treap::side(y, f);
        let x2 = Treap::resized(Treap::with_sides(m, f, other, bb));
        let y2 = Treap::resized(Treap::with_sides(y, f, Treap::of(x2), a));
        assert(f.spec_flip() == dir);
        assert(Treap::rotated(mid, f) == Treap::of(y2));
        assert(Treap::of(y) == c2);
        Treap::lemma_keys_of(x);
        Treap::lemma_keys_of(y);
        Treap::lemma_keys_of(x2);
        Treap::lemma_keys_of(y2);
        Treap::lemma_keys_of(m);
        Treap::lemma_count(other);
        Treap::lemma_count(a);
        Treap::lemma_count(bb);
        Treap::lemma_count(c2);
        Treap::lemma_bounded_mono(a, x.priority, y.priority);
        Treap::lemma_bounded_mono(bb, x.priority, y.priority);
        Treap::lemma_bounded_mono(other, x.priority, y.priority);
        assert(Treap::of(x2).well_formed());
        Treap::lemma_bounded_mono(Treap::of(x2), x.priority, y.priority);
        assert(c2.keys().contains(y.key));
        assert(y.key == key || c.keys().contains(y.key));
        assert(a.well_formed());
        assert(a.bounded_by(y.priority));
        assert(Treap::of(x2).bounded_by(y.priority));
        assert(y2.size as int == y2.left.keys().len() + y2.right.keys().len() + 1);
        if dir == Dir::Left {
            assert(forall|k: i32| y2.left.keys().contains(k) ==> k <= y2.key);
            assert(forall|k: i32| y2.right.keys().contains(k) ==> y2.key <= k);
        } else {
            assert(forall|k: i32| y2.left.keys().contains(k) ==> k <= y2.key);
            assert(forall|k: i32| y2.right.keys().contains(k) ==> y2.key <= k);
        }
        assert(Treap::of(y2).well_formed());
        assert forall|b: u32|
            c2.bounded_by(b) && x.priority <= b implies #[trigger] Treap::of(y2).bounded_by(b) by {
            Treap::lemma_bounded_mono(other, x.priority, b);
            assert(y.priority <= b && a.bounded_by(b) && bb.bounded_by(b));
            assert(Treap::of(x2).bounded_by(b));
        }
        assert forall|b: u32| x.priority <= b implies #[trigger] Treap::of(y2).children_bounded_by(b) by {
            Treap::lemma_bounded_mono(other, x.priority, b);
            Treap::lemma_bounded_mono(bb, x.priority, b);
            Treap::lemma_bounded_mono(a, x.priority, b);
        }
    }

    /// Inserts `key` in a new node of the given priority, and rotates it up
    /// until the priorities are in heap order again. A key already present
    /// is stored once more, to the right of its equals.
    pub fn insert_with_priority(&mut self, key: i32, priority: u32)
        requires
            old(self).well_formed(),
            old(self)@.len() < u32::MAX,
        ensures
            final(self).well_formed(),
            sorted(final(self)@),
            final(self)@.to_multiset() == old(self)@.to_multiset().insert(key),
            final(self)@.len() == old(self)@.len() + 1,
    {
        self.insert_at(key, priority);
        proof {
            Treap::lemma_sorted(*self);
        }
    }

    /// Insertion below `self`. Whatever bounds the old priorities and
    /// `priority` bounds the new ones; whatever bounds the old ones bounds
    /// all but the root's, where the new node may have risen.
    fn insert_at(&mut self, key: i32, priority: u32)
        requires
            old(self).well_formed(),
            old(self)@.len() < u32::MAX,
        ensures
            final(self).well_formed(),
            final(self)@.to_multiset() == old(self)@.to_multiset().insert(key),
            final(self)@.len() == old(self)@.len() + 1,
            forall|b: u32|
                old(self).bounded_by(b) && priority <= b ==> #[trigger] final(self).bounded_by(b),
            forall|b: u32|
                old(self).bounded_by(b) ==> #[trigger] final(self).children_bounded_by(b),
        decreases *old(self),
    {
        if self.inner.is_some() {
            let ghost x = self.root();
            proof {
                Treap::lemma_keys_of(x);
                assert(Treap::of(x) == *self);
                Treap::lemma_count(x.left);
                Treap::lemma_count(x.right);
            }
            let dir = Dir::smaller(&key, self.key());
            let ghost c = self.sub(dir);
            let ghost other = self.sub(dir.spec_flip());
            self.child(dir).insert_at(key, priority);
            let ghost c2 = self.sub(dir);
            proof {
                Treap::lemma_count(c2);
            }
            self.fix_size();
            let ghost mid = *self;
            proof {
                broadcast use group_multiset_axioms;

                let m = mid.root();
                Treap::lemma_keys_of(m);
                assert(Treap::side(m, dir) == c2);
                assert(Treap::side(m, dir.spec_flip()) == other);
                assert forall|k: i32| c2.keys().contains(k) implies (c.keys().contains(k) || k == key) by {
                    broadcast use group_to_multiset_ensures;

                    assert(c2.keys().to_multiset().count(k) > 0);
                }
                assert(mid@.to_multiset() =~= old(self)@.to_multiset().insert(key));
                assert forall|b: u32| old(self).bounded_by(b) implies c.bounded_by(b)
                    && other.bounded_by(b) && x.priority <= b by {}
                Treap::lemma_bounded_mono(other, x.priority, u32::MAX);
            }
            if self.child(dir).priority() > self.priority() {
                proof {
                    Treap::lemma_keys_of(c2.root());
                    assert(Treap::of(c2.root()) == c2);
                    Treap::lemma_count(c2.root().left);
                    Treap::lemma_count(c2.root().right);
                    Treap::lemma_rotated_keys(mid, dir.spec_flip());
                    Treap::lemma_insert_rotation(mid, dir, x, c, key);
                }
                self.rotate(dir.flip());
                proof {
                    assert(self@.to_multiset() == old(self)@.to_multiset().insert(key));
                    assert forall|b: u32| old(self).bounded_by(b) && priority <= b implies #[trigger] self.bounded_by(b) by {
                        assert(c2.bounded_by(b));
                    }
                }
            } else {
                proof {
                    let y = c2.root();
                    Treap::lemma_bounded_mono(c2, y.priority, x.priority);
                    assert forall|b: u32| old(self).bounded_by(b) implies mid.children_bounded_by(b) by {
                        Treap::lemma_bounded_mono(c2, x.priority, b);
                        Treap::lemma_bounded_mono(other, x.priority, b);
                    }
                    assert forall|b: u32| old(self).bounded_by(b) && priority <= b implies #[trigger] self.bounded_by(b) by {
                        assert(c2.bounded_by(b));
                    }
                }
            }
        } else {
            let node = Node {
                key: key,
                priority: priority,
                size: 1,
                left: Treap::new(),
                right: Treap::new(),
            };
            *self = Treap { inner: Some(Box::new(node)) };
            proof {
                broadcast use group_multiset_axioms;

                Treap::lemma_keys_of(node);
                assert(old(self)@ =~= Seq::<i32>::empty());
                assert(old(self)@.to_multiset() =~= Multiset::empty()) by {
                    broadcast use group_to_multiset_ensures;
                }
                assert(self@.to_multiset() =~= old(self)@.to_multiset().insert(key));
            }
        }
    }
}

impl Treap {
    fn is_node(&self) -> (r: bool)
        ensures
            r == self.is_node_spec(),
    {
        self.inner.is_some()
    }

    fn is_empty(&self) -> (r: bool)
        ensures
            r == !self.is_node_spec(),
    {
        self.inner.is_none()
    }

    fn key(&self) -> (r: &i32)
        requires
            self.is_node_spec(),
        ensures
            *r == self.root().key,
    {
        &self.inner.as_ref().unwrap().key
    }

    fn priority(&self) -> (r: u32)
        requires
            self.is_node_spec(),
        ensures
            r == self.root().priority,
    {
        self.inner.as_ref().unwrap().priority
    }

    /// What is left of a sequence after one occurrence of a key is removed
    /// holds nothing that the sequence did not.
    proof fn lemma_removed_contains(s1: Seq<i32>, s2: Seq<i32>, key: i32)
        requires
            s1.to_multiset() == s2.to_multiset().remove(key),
        ensures
            forall|k: i32| s1.contains(k) ==> s2.contains(k),
    {
        broadcast use group_to_multiset_ensures, group_multiset_axioms;

        assert forall|k: i32| s1.contains(k) implies s2.contains(k) by {
            assert(s1.to_multiset().count(k) > 0);
        }
    }

    /// Removes one occurrence of `key`, if there is one. A node with two
    /// children is first rotated down, below the child of higher priority,
    /// until it has at most one child and can be spliced out.
    pub fn delete(&mut self, key: &i32)
        requires
            old(self).well_formed(),
        ensures
            final(self).well_formed(),
            sorted(final(self)@),
            final(self)@.to_multiset() == old(self)@.to_multiset().remove(*key),
            old(self)@.contains(*key) ==> final(self)@.len() == old(self)@.len() - 1,
            !old(self)@.contains(*key) ==> *final(self) == *old(self),
    {
        self.remove(key);
        proof {
            Treap::lemma_sorted(*self);
        }
    }

    fn remove(&mut self, key: &i32)
        requires
            old(self).well_formed(),
        ensures
            final(self).well_formed(),
            final(self)@.to_multiset() == old(self)@.to_multiset().remove(*key),
            old(self)@.contains(*key) ==> final(self)@.len() == old(self)@.len() - 1,
            !old(self)@.contains(*key) ==> *final(self) == *old(self),
            forall|b: u32| old(self).bounded_by(b) ==> #[trigger] final(self).bounded_by(b),
            old(self).is_node_spec() && old(self).root().key == *key ==> forall|b: u32|
                old(self).children_bounded_by(b) ==> #[trigger] final(self).bounded_by(b),
        decreases old(self)@.len(),
    {
        broadcast use group_to_multiset_ensures, group_multiset_axioms;

        if self.is_node() {
            let ghost x = self.root();
            proof {
                Treap::lemma_keys_of(x);
                assert(Treap::of(x) == *self);
                Treap::lemma_count(*self);
                Treap::lemma_count(x.left);
                Treap::lemma_count(x.right);
            }
            let k = *self.key();
            if *key < k || k < *key {
                let dir = if *key < k { Dir::Left } else { Dir::Right };
                let ghost c = self.sub(dir);
                let ghost other = self.sub(dir.spec_flip());
                proof {
                    assert(!other.keys().contains(*key));
                }
                self.child(dir).remove(key);
                let ghost c2 = self.sub(dir);
                proof {
                    Treap::lemma_count(c2);
                    Treap::lemma_removed_contains(c2.keys(), c.keys(), *key);
                }
                self.fix_size();
                proof {
                    let m = self.root();
                    Treap::lemma_keys_of(m);
                    assert(Treap::side(m, dir) == c2);
                    assert(Treap::side(m, dir.spec_flip()) == other);
                    assert(self@.to_multiset() =~= old(self)@.to_multiset().remove(*key));
                    if !old(self)@.contains(*key) {
                        assert(m == x);
                    }
                    assert(c.bounded_by(x.priority));
                    assert(c2.bounded_by(x.priority));
                    assert(self.well_formed());
                    assert forall|b: u32| old(self).bounded_by(b) implies #[trigger] self.bounded_by(b) by {
                        assert(c.bounded_by(b));
                        assert(c2.bounded_by(b));
                        assert(other.bounded_by(b));
                    }
                }
            } else if self.child(Dir::Left).is_empty() {
                let r = self.child(Dir::Right).take();
                *self = r;
                proof {
                    assert(x.left.keys() =~= Seq::<i32>::empty());
                    assert(self@.to_multiset() =~= old(self)@.to_multiset().remove(*key));
                }
            } else if self.child(Dir::Right).is_empty() {
                let l = self.child(Dir::Left).take();
                *self = l;
                proof {
                    assert(x.right.keys() =~= Seq::<i32>::empty());
                    assert(self@.to_multiset() =~= old(self)@.to_multiset().remove(*key));
                }
            } else {
                let dir = Dir::smaller(&self.child(Dir::Left).priority(), &self.child(Dir::Right).priority());
                proof {
                    Treap::lemma_wf_node(x.left);
                    Treap::lemma_wf_node(x.right);
                    Treap::lemma_rotated_keys(*self, dir);
                    Treap::lemma_delete_rotation(x, dir);
                }
                self.rotate(dir);
                let ghost y2 = self.root();
                proof {
                    assert(Treap::of(y2) == *self);
                    Treap::lemma_keys_of(y2);
                    assert(self@ == old(self)@);
                    Treap::lemma_wf_node(Treap::side(y2, dir));
                }
                let ghost x2 = Treap::side(y2, dir);
                let ghost y = Treap::side(x, dir.spec_flip()).root();
                self.child(dir).remove(key);
                let ghost x3 = self.sub(dir);
                proof {
                    Treap::lemma_count(x3);
                    Treap::lemma_removed_contains(x3.keys(), x2.keys(), *key);
                    Treap::lemma_bounded_mono(Treap::side(x, dir), Treap::side(x, dir).root().priority, y.priority);
                }
                self.fix_size();
                proof {
                    let m = self.root();
                    Treap::lemma_keys_of(m);
                    Treap::lemma_keys_of(y2);
                    assert(Treap::side(m, dir) == x3);
                    assert(Treap::side(m, dir.spec_flip()) == Treap::side(y2, dir.spec_flip()));
                    assert(x2.keys().contains(*key));
                    assert(self@.to_multiset() =~= old(self)@.to_multiset().remove(*key));
                    assert forall|b: u32| old(self).children_bounded_by(b) implies #[trigger] self.bounded_by(b) by {
                        Treap::lemma_wf_node(Treap::side(x, dir.spec_flip()));
                        assert(x.left.bounded_by(b) && x.right.bounded_by(b));
                        assert(Treap::side(x, dir.spec_flip()).bounded_by(b));
                        assert(Treap::side(x, dir).bounded_by(b));
                        assert(y.priority <= b);
                        assert(Treap::side(y, dir).bounded_by(b));
                        assert(Treap::side(y, dir.spec_flip()).bounded_by(b));
                        assert(x2.children_bounded_by(b));
                        assert(x3.bounded_by(b));
                    }
                    assert forall|b: u32| old(self).bounded_by(b) implies #[trigger] self.bounded_by(b) by {
                        assert(old(self).children_bounded_by(b));
                    }
                    Treap::lemma_wf_node(Treap::side(x, dir.spec_flip()));
                    Treap::lemma_wf_node(x2);
                    assert(x2.children_bounded_by(y.priority));
                    assert(x3.bounded_by(y.priority));
                    assert forall|k: i32| x2.keys().contains(k) implies (if dir == Dir::Left { k <= y.key } else { y.key <= k }) by {
                        assert(Treap::side(x, dir.spec_flip()).keys().contains(y.key));
                    }
                    assert(self.well_formed());
                }
            }
        }
    }

    /// Rotating a node with two children below the child of higher priority
    /// leaves the lowered node well formed, with the same keys in order.
    proof fn lemma_delete_rotation(x: Node, dir: Dir)
        requires
            Treap::of(x).well_formed(),
            x.left.is_node_spec(),
            x.right.is_node_spec(),
            dir == Dir::Left <==> x.left.root().priority < x.right.root().priority,
        ensures
            ({
                let y = Treap::side(x, dir.spec_flip()).root();
                let x2 = Treap::resized(Treap::with_sides(x, dir, Treap::side(x, dir), Treap::side(y, dir)));
                &&& Treap::rotated(Treap::of(x), dir).root().key == y.key
                &&& Treap::rotated(Treap::of(x), dir).root().priority == y.priority
                &&& Treap::side(Treap::rotated(Treap::of(x), dir).root(), dir) == Treap::of(x2)
                &&& Treap::side(Treap::rotated(Treap::of(x), dir).root(), dir.spec_flip()) == Treap::side(y, dir.spec_flip())
                &&& Treap::of(x2).well_formed()
                &&& Treap::of(x2).children_bounded_by(y.priority)
                &&& x2.key == x.key
                &&& Treap::of(x2).keys().len() < Treap::of(x).keys().len()
            }),
    {
        let f = dir.spec_flip();
        let y = Treap::side(x, f).root();
        let x2 = Treap::resized(Treap::with_sides(x, dir, Treap::side(x, dir), Treap::side(y, dir)));
        Treap::lemma_wf_node(Treap::of(x));
        Treap::lemma_wf_node(Treap::side(x, f));
        Treap::lemma_wf_node(Treap::side(x, dir));
        Treap::lemma_keys_of(x2);
        Treap::lemma_bounded_mono(Treap::side(y, dir), y.priority, x.priority);
        let o = Treap::side(x, dir);
        Treap::lemma_bounded_mono(o, o.root().priority, y.priority);
        assert(x2.left.well_formed() && x2.right.well_formed());
        assert(x2.size as int == x2.left.keys().len() + x2.right.keys().len() + 1);
        assert(x2.left.bounded_by(x2.priority) && x2.right.bounded_by(x2.priority));
        if dir == Dir::Left {
            assert forall|k: i32| x2.right.keys().contains(k) implies x2.key <= k by {
                assert(x.right.keys().contains(k));
            }
        } else {
            assert forall|k: i32| x2.left.keys().contains(k) implies k <= x2.key by {
                assert(x.left.keys().contains(k));
            }
        }
        assert(Treap::of(x2).well_formed());
    }
}

/// Relies on rand::random: a `u32` drawn from the thread-local generator.
/// Nothing is known of its value.
#[verifier::external_body]
fn random_priority() -> (r: u32) {
    rand::random::<u32>()
}

impl Treap {
    /// The keys of a well-formed treap come in non-decreasing order.
    pub proof fn lemma_sorted(t: Treap)
        requires
            t.well_formed(),
        ensures
            sorted(t@),
        decreases t,
    {
        if let Some(n) = t.inner {
            Treap::lemma_wf_node(t);
            Treap::lemma_sorted(n.left);
            Treap::lemma_sorted(n.right);
            lemma_sorted_join(n.left.keys(), n.key, n.right.keys());
        }
    }

    /// A one-node treap holding `key`, with a random priority.
    pub fn leaf(key: i32) -> (r: Treap)
        ensures
            r.well_formed(),
            r@ == seq![key],
    {
        let node = Node {
            key: key,
            priority: random_priority(),
            size: 1,
            left: Treap::new(),
            right: Treap::new(),
        };
        proof {
            Treap::lemma_keys_of(node);
        }
        Treap { inner: Some(Box::new(node)) }
    }

    /// Inserts `key` with a random priority. A key already present is
    /// stored once more, to the right of its equals.
    pub fn insert(&mut self, key: i32)
        requires
            old(self).well_formed(),
            old(self)@.len() < u32::MAX,
        ensures
            final(self).well_formed(),
            sorted(final(self)@),
            final(self)@.to_multiset() == old(self)@.to_multiset().insert(key),
            final(self)@.len() == old(self)@.len() + 1,
    {
        let priority = random_priority();
        self.insert_with_priority(key, priority);
    }

    /// Whether `key` is stored.
    pub fn has(&self, key: &i32) -> (r: bool)
        requires
            self.well_formed(),
        ensures
            r == self@.contains(*key),
        decreases self,
    {
        match &self.inner {
            None => false,
            Some(n) => {
                proof {
                    Treap::lemma_wf_node(*self);
                }
                if *key < n.key {
                    n.left.has(key)
                } else if n.key < *key {
                    n.right.has(key)
                } else {
                    true
                }
            },
        }
    }

    /// The key at position `index` among the keys in order.
    pub fn select(&self, index: u32) -> (r: &i32)
        requires
            self.well_formed(),
            index < self@.len(),
        ensures
            *r == self@[index as int],
        decreases self,
    {
        proof {
            Treap::lemma_wf_node(*self);
        }
        let n = self.inner.as_ref().unwrap();
        let i = n.left.count_exec();
        if index == i {
            &n.key
        } else if index < i {
            n.left.select(index)
        } else {
            n.right.select(index - i - 1)
        }
    }

    /// The position of one occurrence of `key` among the keys in order, or
    /// `None` where `key` is absent. Where no key is stored twice this is
    /// the number of keys smaller than `key`.
    pub fn order(&self, key: &i32) -> (r: Option<u32>)
        requires
            self.well_formed(),
        ensures
            r is None <==> !self@.contains(*key),
            r matches Some(i) ==> i < self@.len() && self@[i as int] == *key,
            r matches Some(i) ==> self@.no_duplicates() ==> i == count_less(self@, *key),
    {
        let r = self.find_rank(key);
        proof {
            if let Some(i) = r {
                if self@.no_duplicates() {
                    Treap::lemma_sorted(*self);
                    law_rank_of_select(self@, i as int);
                }
            }
        }
        r
    }

    fn find_rank(&self, key: &i32) -> (r: Option<u32>)
        requires
            self.well_formed(),
        ensures
            r is None <==> !self@.contains(*key),
            r matches Some(i) ==> i < self@.len() && self@[i as int] == *key,
        decreases self,
    {
        match &self.inner {
            None => None,
            Some(n) => {
                proof {
                    Treap::lemma_wf_node(*self);
                    Treap::lemma_sorted(*self);
                }
                if *key < n.key {
                    n.left.find_rank(key)
                } else if n.key < *key {
                    match n.right.find_rank(key) {
                        Some(o) => Some(1 + n.left.count_exec() + o),
                        None => None,
                    }
                } else {
                    Some(n.left.count_exec())
                }
            },
        }
    }

    /// The position of the root's key among the keys in order; zero for the
    /// empty treap.
    pub fn index(&self) -> (r: u32)
        requires
            self.well_formed(),
        ensures
            r == self.root_rank(),
            self@.len() == 0 ==> r == 0,
            self@.len() > 0 ==> r < self@.len(),
    {
        match &self.inner {
            Some(n) => {
                proof {
                    Treap::lemma_wf_node(*self);
                }
                n.left.count_exec()
            },
            None => 0,
        }
    }
}

impl View for Treap {
    type V = Seq<i32>;

    open spec fn view(&self) -> Seq<i32> {
        self.keys()
    }
}

} // verus!
