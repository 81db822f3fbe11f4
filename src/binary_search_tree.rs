use vstd::prelude::*;
use vstd::multiset::group_multiset_axioms;
use vstd::seq_lib::group_to_multiset_ensures;
use vstd::seq_lib::lemma_multiset_commutative;
use crate::order::lemma_sorted_join;
use crate::order::sorted;

verus! {

/// A node of the plain search tree.
#[derive(Debug)]
struct Node {
    key: i32,
    left: Tree,
    right: Tree,
}

/// An unbalanced binary search tree of `i32` keys, possibly empty. Keys
/// equal to a node's key go to its right.
#[derive(Debug)]
pub struct Tree {
    inner: Option<Box<Node>>,
}

impl Tree {
    /// The keys in order, from the leftmost node to the rightmost.
    pub closed spec fn keys(self) -> Seq<i32>
        decreases self,
    {
        match self.inner {
            None => Seq::empty(),
            Some(n) => n.left.keys() + seq![n.key] + n.right.keys(),
        }
    }

    /// Every key on the left of a node is at most its key, every key on its
    /// right at least its key.
    pub closed spec fn well_formed(self) -> bool
        decreases self,
    {
        match self.inner {
            None => true,
            Some(n) => {
                &&& n.left.well_formed()
                &&& n.right.well_formed()
                &&& forall|k: i32| n.left.keys().contains(k) ==> k <= n.key
                &&& forall|k: i32| n.right.keys().contains(k) ==> n.key <= k
            },
        }
    }

    closed spec fn root(self) -> Node {
        *self.inner.unwrap()
    }

    closed spec fn of(n: Node) -> Tree {
        Tree { inner: Some(Box::new(n)) }
    }

    proof fn lemma_keys_of(n: Node)
        ensures
            Tree::of(n).keys() == n.left.keys() + seq![n.key] + n.right.keys(),
            Tree::of(n).keys().to_multiset() =~= n.left.keys().to_multiset().insert(n.key).add(
                n.right.keys().to_multiset(),
            ),
            forall|k: i32|
                Tree::of(n).keys().contains(k) <==> (n.left.keys().contains(k) || k == n.key
                    || n.right.keys().contains(k)),
    {
        broadcast use group_to_multiset_ensures, group_multiset_axioms;

        let l = n.left.keys();
        let r = n.right.keys();
        lemma_multiset_commutative(l + seq![n.key], r);
        lemma_multiset_commutative(l, seq![n.key]);
        assert(seq![n.key] =~= Seq::<i32>::empty().push(n.key));
        assert forall|k: i32|
            Tree::of(n).keys().contains(k) <==> (l.contains(k) || k == n.key || r.contains(k)) by {
            assert(Tree::of(n).keys().to_multiset().count(k) == l.to_multiset().count(k) + (if k
                == n.key {
                1int
            } else {
                0
            }) + r.to_multiset().count(k));
        }
    }

    proof fn lemma_wf_node(t: Tree)
        requires
            t.well_formed(),
            t.inner is Some,
        ensures
            t == Tree::of(t.root()),
            t.root().left.well_formed(),
            t.root().right.well_formed(),
            t.keys() == t.root().left.keys() + seq![t.root().key] + t.root().right.keys(),
            t.keys().to_multiset() =~= t.root().left.keys().to_multiset().insert(t.root().key).add(
                t.root().right.keys().to_multiset(),
            ),
            forall|k: i32|
                t.keys().contains(k) <==> (t.root().left.keys().contains(k) || k == t.root().key
                    || t.root().right.keys().contains(k)),
            forall|k: i32| t.root().left.keys().contains(k) ==> k <= t.root().key,
            forall|k: i32| t.root().right.keys().contains(k) ==> t.root().key <= k,
    {
        Tree::lemma_keys_of(t.root());
    }

    proof fn lemma_removed_contains(s1: Seq<i32>, s2: Seq<i32>, key: i32)
        requires
            s1.to_multiset() == s2.to_multiset().remove(key),
        ensures
            forall|k: i32| s1.contains(k) ==> s2.contains(k),
    {
        broadcast use group_to_multiset_ensures, group_multiset_axioms;

        assert forall|k: i32| s1.contains(k) implies s2.contains(k) by {
            assert(s1.to_multiset().count(k) > 0);
        }
    }

    /// The keys of a well-formed tree come in non-decreasing order.
    pub proof fn lemma_sorted(t: Tree)
        requires
            t.well_formed(),
        ensures
            sorted(t@),
        decreases t,
    {
        if let Some(n) = t.inner {
            Tree::lemma_wf_node(t);
            Tree::lemma_sorted(n.left);
            Tree::lemma_sorted(n.right);
            lemma_sorted_join(n.left.keys(), n.key, n.right.keys());
        }
    }

    /// The empty tree.
    pub fn new() -> (r: Tree)
        ensures
            r.well_formed(),
            r@ == Seq::<i32>::empty(),
    {
        Tree { inner: None }
    }

    /// A one-node tree holding `key`.
    pub fn leaf(key: i32) -> (r: Tree)
        ensures
            r.well_formed(),
            r@ == seq![key],
    {
        let node = Node { key: key, left: Tree::new(), right: Tree::new() };
        proof {
            Tree::lemma_keys_of(node);
        }
        Tree { inner: Some(Box::new(node)) }
    }

    fn is_node(&self) -> (r: bool)
        ensures
            r == (self.inner is Some),
    {
        self.inner.is_some()
    }

    fn take(&mut self) -> (r: Tree)
        ensures
            r == *old(self),
            final(self).inner is None,
    {
        Tree { inner: self.inner.take() }
    }

    /// Whether `key` is stored.
    pub fn has(&self, key: i32) -> (r: bool)
        requires
            self.well_formed(),
        ensures
            r == self@.contains(key),
        decreases self,
    {
        match &self.inner {
            None => false,
            Some(n) => {
                proof {
                    Tree::lemma_wf_node(*self);
                }
                if n.key < key {
                    n.right.has(key)
                } else if key < n.key {
                    n.left.has(key)
                } else {
                    true
                }
            },
        }
    }

    /// Adds `key` at the frontier: left of smaller keys' nodes, right of
    /// nodes whose key is at most `key`. A key already present is stored
    /// once more.
    pub fn insert(&mut self, key: i32)
        requires
            old(self).well_formed(),
        ensures
            final(self).well_formed(),
            sorted(final(self)@),
            final(self)@.to_multiset() == old(self)@.to_multiset().insert(key),
        decreases *old(self),
    {
        broadcast use group_to_multiset_ensures, group_multiset_axioms;

        match self.inner.take() {
            None => {
                *self = Tree::leaf(key);
                proof {
                    assert(old(self)@ =~= Seq::<i32>::empty());
                    assert(seq![key] =~= Seq::<i32>::empty().push(key));
                    assert(self@.to_multiset() =~= old(self)@.to_multiset().insert(key));
                }
            },
            Some(mut n) => {
                proof {
                    Tree::lemma_wf_node(*old(self));
                }
                let ghost l = n.left;
                let ghost r = n.right;
                if n.key <= key {
                    n.right.insert(key);
                    proof {
                        assert forall|k: i32| n.right.keys().contains(k) implies n.key <= k by {
                            assert(n.right.keys().to_multiset().count(k) > 0);
                        }
                    }
                } else {
                    n.left.insert(key);
                    proof {
                        assert forall|k: i32| n.left.keys().contains(k) implies k <= n.key by {
                            assert(n.left.keys().to_multiset().count(k) > 0);
                        }
                    }
                }
                proof {
                    Tree::lemma_keys_of(*n);
                }
                *self = Tree { inner: Some(n) };
                proof {
                    assert(self@.to_multiset() =~= old(self)@.to_multiset().insert(key));
                }
            },
        }
        proof {
            Tree::lemma_sorted(*self);
        }
    }
}

impl Tree {
    /// Removes one occurrence of `key`, if there is one: the first node on
    /// the search path that holds it. Where that node has a right subtree,
    /// it takes the key of its successor, whose node is removed instead.
    pub fn delete(&mut self, key: i32)
        requires
            old(self).well_formed(),
        ensures
            final(self).well_formed(),
            sorted(final(self)@),
            final(self)@.to_multiset() == old(self)@.to_multiset().remove(key),
            !old(self)@.contains(key) ==> *final(self) == *old(self),
        decreases *old(self),
    {
        broadcast use group_to_multiset_ensures, group_multiset_axioms;

        match self.inner.take() {
            None => {
                proof {
                    assert(old(self)@ =~= Seq::<i32>::empty());
                    assert(old(self)@.to_multiset() =~= old(self)@.to_multiset().remove(key));
                }
            },
            Some(mut n) => {
                proof {
                    Tree::lemma_wf_node(*old(self));
                }
                let ghost l = n.left;
                let ghost r = n.right;
                if n.key < key {
                    proof {
                        assert(!l.keys().contains(key));
                    }
                    n.right.delete(key);
                    proof {
                        Tree::lemma_removed_contains(n.right.keys(), r.keys(), key);
                        Tree::lemma_keys_of(*n);
                    }
                    *self = Tree { inner: Some(n) };
                    proof {
                        assert(self@.to_multiset() =~= old(self)@.to_multiset().remove(key));
                    }
                } else if key < n.key {
                    proof {
                        assert(!r.keys().contains(key));
                    }
                    n.left.delete(key);
                    proof {
                        Tree::lemma_removed_contains(n.left.keys(), l.keys(), key);
                        Tree::lemma_keys_of(*n);
                    }
                    *self = Tree { inner: Some(n) };
                    proof {
                        assert(self@.to_multiset() =~= old(self)@.to_multiset().remove(key));
                    }
                } else if n.right.is_node() {
                    let succ = n.right.take_first();
                    proof {
                        assert(r.keys().contains(succ)) by {
                            assert(r.keys()[0] == succ);
                        }
                        let r1 = n.right.keys();
                        assert forall|k: i32| r1.contains(k) implies r.keys().contains(k) by {
                            let i = choose|i: int| 0 <= i < r1.len() && r1[i] == k;
                            assert(r.keys()[i + 1] == k);
                        }
                        assert(r.keys().to_multiset() =~= r1.to_multiset().insert(succ)) by {
                            lemma_multiset_commutative(seq![succ], r1);
                            assert(seq![succ] =~= Seq::<i32>::empty().push(succ));
                        }
                    }
                    n.key = succ;
                    proof {
                        Tree::lemma_keys_of(*n);
                    }
                    *self = Tree { inner: Some(n) };
                    proof {
                        assert(self@.to_multiset() =~= old(self)@.to_multiset().remove(key));
                    }
                } else {
                    proof {
                        assert(r.keys() =~= Seq::<i32>::empty());
                    }
                    *self = n.left;
                    proof {
                        assert(self@.to_multiset() =~= old(self)@.to_multiset().remove(key));
                    }
                }
            },
        }
        proof {
            Tree::lemma_sorted(*self);
        }
    }

    /// Removes the leftmost node, and returns its key: the smallest.
    fn take_first(&mut self) -> (r: i32)
        requires
            old(self).well_formed(),
            old(self).inner is Some,
        ensures
            final(self).well_formed(),
            old(self)@ == seq![r] + final(self)@,
            forall|k: i32| final(self)@.contains(k) ==> r <= k,
        decreases *old(self),
    {
        let mut n = self.inner.take().unwrap();
        proof {
            Tree::lemma_wf_node(*old(self));
        }
        if n.left.is_node() {
            let ghost l0 = n.left.keys();
            let r = n.left.take_first();
            proof {
                let l1 = n.left.keys();
                Tree::lemma_keys_of(*n);
                assert(l0[0] == r);
                assert(l0.contains(r));
                assert forall|k: i32| l1.contains(k) implies l0.contains(k) by {
                    let i = choose|i: int| 0 <= i < l1.len() && l1[i] == k;
                    assert(l0[i + 1] == k);
                }
            }
            *self = Tree { inner: Some(n) };
            proof {
                assert(old(self)@ =~= seq![r] + self@);
            }
            r
        } else {
            let r = n.key;
            proof {
                assert(n.left.keys() =~= Seq::<i32>::empty());
                assert(old(self)@ =~= seq![r] + n.right.keys());
            }
            *self = n.right;
            r
        }
    }
}

impl View for Tree {
    type V = Seq<i32>;

    open spec fn view(&self) -> Seq<i32> {
        self.keys()
    }
}

} // verus!
