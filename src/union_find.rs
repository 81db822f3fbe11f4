use vstd::prelude::*;
use vstd::set_lib::lemma_len_subset;

verus! {

/// Disjoint sets over `0..n`, with path compression and union by rank.
pub struct UnionFind {
    parents: Vec<usize>,
    ranks: Vec<u64>,
    /// How many unions have joined two distinct sets: a bound on every rank.
    merges: Ghost<nat>,
    /// The elements that are their own parent.
    roots: Ghost<Set<usize>>,
}

impl UnionFind {
    /// The number of elements.
    pub closed spec fn len(self) -> nat {
        self.parents@.len()
    }

    /// Parents in range, ranks strictly rising towards the roots and
    /// bounded by the number of merges, which with the number of roots
    /// makes up the number of elements.
    pub closed spec fn well_formed(self) -> bool {
        &&& self.ranks@.len() == self.parents@.len()
        &&& forall|i: int| 0 <= i < self.parents@.len() ==> #[trigger] self.parents@[i] < self.parents@.len()
        &&& forall|i: int|
            0 <= i < self.parents@.len() && #[trigger] self.parents@[i] != i ==> self.ranks@[i]
                < self.ranks@[self.parents@[i] as int]
        &&& forall|i: int| 0 <= i < self.parents@.len() ==> #[trigger] self.ranks@[i] <= self.merges@
        &&& forall|i: usize|
            #[trigger] self.roots@.contains(i) <==> (i < self.parents@.len() && self.parents@[i as int] == i)
        &&& self.roots@.finite()
        &&& self.merges@ + self.roots@.len() == self.parents@.len()
    }

    /// How far the rank of `i` is below its bound; it falls along parents.
    pub closed spec fn rank_gap(self, i: int) -> int {
        self.merges@ - self.ranks@[i]
    }

    /// The representative of the set that holds `i`: the root reached by
    /// following parents from `i`.
    pub closed spec fn root_of(self, i: int) -> int {
        self.walk(i)
    }

    spec fn walk(self, i: int) -> int
        decreases self.merges@ - self.ranks@[i],
        when self.well_formed() && 0 <= i < self.parents@.len()
    {
        if self.parents@[i] == i {
            i
        } else {
            self.walk(self.parents@[i] as int)
        }
    }

    proof fn lemma_root(self, i: int)
        requires
            self.well_formed(),
            0 <= i < self.len(),
        ensures
            0 <= self.root_of(i) < self.len(),
            self.parents@[self.root_of(i)] == self.root_of(i),
            self.ranks@[i] <= self.ranks@[self.root_of(i)],
            self.root_of(i) != i ==> self.ranks@[i] < self.ranks@[self.root_of(i)],
        decreases self.merges@ - self.ranks@[i],
    {
        if self.parents@[i] != i {
            self.lemma_root(self.parents@[i] as int);
        }
    }

    proof fn lemma_compress_walk(self, other: UnionFind, x: int, i: int)
        requires
            self.well_formed(),
            other.well_formed(),
            0 <= x < self.len(),
            0 <= i < self.len(),
            other.parents@ == self.parents@.update(x, self.root_of(x) as usize),
            other.ranks@ == self.ranks@,
            other.merges@ == self.merges@,
        ensures
            other.root_of(i) == self.root_of(i),
        decreases self.merges@ - self.ranks@[i],
    {
        self.lemma_root(i);
        self.lemma_root(x);
        if i == x {
            let r = self.root_of(x);
            if r != x {
                self.lemma_compress_walk(other, x, r);
            }
        } else if self.parents@[i] != i {
            self.lemma_compress_walk(other, x, self.parents@[i] as int);
        }
    }

    /// Pointing `x` straight at its root keeps every element's root.
    proof fn lemma_compress(self, other: UnionFind, x: int)
        requires
            self.well_formed(),
            0 <= x < self.len(),
            other.parents@ == self.parents@.update(x, self.root_of(x) as usize),
            other.ranks@ == self.ranks@,
            other.merges@ == self.merges@,
            other.roots@ == self.roots@,
        ensures
            other.well_formed(),
            forall|i: int| 0 <= i < self.len() ==> #[trigger] other.root_of(i) == self.root_of(i),
    {
        self.lemma_root(x);
        assert forall|i: usize| #[trigger] other.roots@.contains(i) <==> (i < other.parents@.len()
            && other.parents@[i as int] == i) by {
            if i as int == x {
                assert(self.parents@[x] == x ==> self.root_of(x) == x);
            }
        }
        assert(other.well_formed());
        assert forall|i: int| 0 <= i < self.len() implies #[trigger] other.root_of(i) == self.root_of(i) by {
            self.lemma_compress_walk(other, x, i);
        }
    }

    /// The representative of the set of `x`. Every element met on the way
    /// is pointed straight at it; no element's representative changes.
    pub fn find(&mut self, x: usize) -> (r: usize)
        requires
            old(self).well_formed(),
            x < old(self).len(),
        ensures
            final(self).well_formed(),
            final(self).len() == old(self).len(),
            r == old(self).root_of(x as int),
            forall|i: int|
                0 <= i < old(self).len() ==> #[trigger] final(self).root_of(i) == old(self).root_of(i),
        decreases old(self).rank_gap(x as int),
    {
        let parent = self.parents[x];
        if parent != x {
            proof {
                assert(self.ranks@[x as int] < self.ranks@[parent as int]);
                assert(self.ranks@[parent as int] <= self.merges@);
            }
            let r = self.find(parent);
            let ghost s1 = *self;
            proof {
                s1.lemma_root(x as int);
                assert(s1.root_of(x as int) == r);
            }
            self.parents.set(x, r);
            proof {
                s1.lemma_compress(*self, x as int);
            }
        }
        self.parents[x]
    }

    proof fn lemma_link_walk(self, other: UnionFind, a: int, b: int, i: int)
        requires
            self.well_formed(),
            other.well_formed(),
            0 <= a < self.len(),
            0 <= b < self.len(),
            0 <= i < self.len(),
            a != b,
            self.parents@[a] == a,
            self.parents@[b] == b,
            other.parents@ == self.parents@.update(a, b as usize),
        ensures
            other.root_of(i) == if self.root_of(i) == a {
                b
            } else {
                self.root_of(i)
            },
        decreases self.merges@ - self.ranks@[i],
    {
        self.lemma_root(i);
        if i != a && self.parents@[i] != i {
            self.lemma_link_walk(other, a, b, self.parents@[i] as int);
        }
        if i == a {
            assert(other.root_of(b) == b);
        }
    }

    /// After one more merge, in which root `a` was made a child of root `b`,
    /// whose rank is then above that of `a`.
    proof fn lemma_link(self, other: UnionFind, a: int, b: int)
        requires
            self.well_formed(),
            0 <= a < self.len(),
            0 <= b < self.len(),
            a != b,
            self.parents@[a] == a,
            self.parents@[b] == b,
            other.parents@ == self.parents@.update(a, b as usize),
            other.ranks@.len() == self.ranks@.len(),
            forall|i: int| 0 <= i < self.len() && i != b ==> other.ranks@[i] == self.ranks@[i],
            self.ranks@[b] <= other.ranks@[b] <= self.ranks@[b] + 1,
            other.ranks@[a] < other.ranks@[b],
            other.merges@ == self.merges@ + 1,
            other.roots@ == self.roots@.remove(a as usize),
        ensures
            other.well_formed(),
            forall|i: int|
                0 <= i < self.len() ==> #[trigger] other.root_of(i) == if self.root_of(i) == a {
                    b
                } else {
                    self.root_of(i)
                },
    {
        assert(self.roots@.contains(a as usize));
        assert forall|i: int|
            0 <= i < other.parents@.len() && #[trigger] other.parents@[i] != i implies other.ranks@[i]
            < other.ranks@[other.parents@[i] as int] by {
            if i != a {
                assert(self.parents@[i] != i);
            }
        }
        assert(other.well_formed());
        assert forall|i: int| 0 <= i < self.len() implies #[trigger] other.root_of(i) == if self.root_of(i) == a {
            b
        } else {
            self.root_of(i)
        } by {
            self.lemma_link_walk(other, a, b, i);
        }
    }

    /// Joins the sets of `x` and `y`: the root of lower rank goes below the
    /// other; between equal ranks the root of `y`'s set goes below that of
    /// `x`'s, whose rank grows by one.
    pub fn union(&mut self, x: usize, y: usize)
        requires
            old(self).well_formed(),
            x < old(self).len(),
            y < old(self).len(),
        ensures
            final(self).well_formed(),
            final(self).len() == old(self).len(),
            final(self).root_of(x as int) == old(self).root_of(x as int) || final(self).root_of(x as int)
                == old(self).root_of(y as int),
            forall|i: int|
                0 <= i < old(self).len() ==> #[trigger] final(self).root_of(i) == if old(self).root_of(i)
                    == old(self).root_of(x as int) || old(self).root_of(i) == old(self).root_of(y as int) {
                    final(self).root_of(x as int)
                } else {
                    old(self).root_of(i)
                },
    {
        let xr = self.find(x);
        let yr = self.find(y);
        if xr == yr {
            return;
        }
        let ghost s0 = *self;
        proof {
            s0.lemma_root(x as int);
            s0.lemma_root(y as int);
            assert(s0.roots@.contains(xr) && s0.roots@.contains(yr));
            let two = Set::<usize>::empty().insert(xr).insert(yr);
            assert(two.len() == 2);
            lemma_len_subset(two, s0.roots@);
            assert(s0.ranks@[xr as int] <= s0.merges@);
        }
        if self.ranks[xr] < self.ranks[yr] {
            self.parents.set(xr, yr);
            self.merges = Ghost(self.merges@ + 1);
            self.roots = Ghost(self.roots@.remove(xr));
            proof {
                s0.lemma_link(*self, xr as int, yr as int);
            }
        } else if self.ranks[xr] > self.ranks[yr] {
            self.parents.set(yr, xr);
            self.merges = Ghost(self.merges@ + 1);
            self.roots = Ghost(self.roots@.remove(yr));
            proof {
                s0.lemma_link(*self, yr as int, xr as int);
            }
        } else {
            let n = self.parents.len();
            proof {
                assert(self.ranks@[xr as int] + 2 <= n);
            }
            self.parents.set(yr, xr);
            let bumped = self.ranks[xr] + 1;
            self.ranks.set(xr, bumped);
            self.merges = Ghost(self.merges@ + 1);
            self.roots = Ghost(self.roots@.remove(yr));
            proof {
                s0.lemma_link(*self, yr as int, xr as int);
            }
        }
    }

    /// `n` singleton sets.
    pub fn new(size: usize) -> (r: UnionFind)
        ensures
            r.well_formed(),
            r.len() == size,
            forall|i: int| 0 <= i < size ==> #[trigger] r.root_of(i) == i,
    {
        let mut parents: Vec<usize> = Vec::new();
        let mut ranks: Vec<u64> = Vec::new();
        let ghost mut roots: Set<usize> = Set::empty();
        let mut i: usize = 0;
        while i < size
            invariant
                i <= size,
                parents@.len() == i,
                ranks@.len() == i,
                forall|j: int| 0 <= j < i ==> #[trigger] parents@[j] == j,
                forall|j: int| 0 <= j < i ==> #[trigger] ranks@[j] == 0,
                forall|j: usize| #[trigger] roots.contains(j) <==> j < i,
                roots.finite(),
                roots.len() == i,
            decreases size - i,
        {
            proof {
                assert(!roots.contains(i));
                roots = roots.insert(i);
            }
            parents.push(i);
            ranks.push(0);
            i = i + 1;
        }
        let r = UnionFind { parents, ranks, merges: Ghost(0), roots: Ghost(roots) };
        proof {
            assert forall|j: int| 0 <= j < size implies #[trigger] r.root_of(j) == j by {
                assert(r.parents@[j] == j);
            }
        }
        r
    }
}

} // verus!
