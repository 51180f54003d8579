//! A union-find (disjoint-set) forest with union by size. The partition is
//! modelled by the `root_in` function over the parent array; a ghost rank
//! labelling, strictly increasing along parent edges, witnesses that the
//! parent pointers are acyclic and gives every walk to a root a measure.

use vstd::prelude::*;

verus! {

/// Parent pointers are in bounds and ranks strictly increase along them.
pub open spec fn forest_wf(p: Seq<usize>, rank: Seq<int>, maxr: int) -> bool {
    &&& maxr >= 0
    &&& p.len() == rank.len()
    &&& forall|i: int| 0 <= i < p.len() ==> (#[trigger] p[i]) < p.len()
    &&& forall|i: int|
        0 <= i < p.len() && p[i] != i ==> (#[trigger] rank[i]) < rank[p[i] as int]
    &&& forall|i: int| 0 <= i < p.len() ==> 0 <= (#[trigger] rank[i]) <= maxr
}

/// The representative of `i`: follow parent pointers to the root.
pub open spec fn root_in(p: Seq<usize>, rank: Seq<int>, maxr: int, i: int) -> int
    decreases maxr - rank[i],
        when forest_wf(p, rank, maxr) && 0 <= i < p.len()
{
    if p[i] == i {
        i
    } else {
        root_in(p, rank, maxr, p[i] as int)
    }
}

/// The representative is itself a root and stays within bounds.
pub proof fn lemma_root_in(p: Seq<usize>, rank: Seq<int>, maxr: int, i: int)
    requires
        forest_wf(p, rank, maxr),
        0 <= i < p.len(),
    ensures
        0 <= root_in(p, rank, maxr, i) < p.len(),
        p[root_in(p, rank, maxr, i)] == root_in(p, rank, maxr, i),
        p[i] == i ==> root_in(p, rank, maxr, i) == i,
    decreases maxr - rank[i],
{
    if p[i] != i {
        lemma_root_in(p, rank, maxr, p[i] as int);
    }
}

/// Linking the root `rl` under the root `rw` redirects exactly the members
/// of `rl`'s class to `rw` and leaves every other class untouched.
pub proof fn lemma_union_roots(
    p: Seq<usize>,
    rank: Seq<int>,
    maxr: int,
    p2: Seq<usize>,
    rank2: Seq<int>,
    maxr2: int,
    rl: int,
    rw: int,
    k: int,
)
    requires
        forest_wf(p, rank, maxr),
        0 <= rl < p.len(),
        0 <= rw < p.len(),
        rl != rw,
        p[rl] == rl,
        p[rw] == rw,
        p2 == p.update(rl, rw as usize),
        rank2 == rank.update(rw, if rank[rw] >= rank[rl] + 1 {
            rank[rw]
        } else {
            rank[rl] + 1
        }),
        maxr2 == if maxr >= rank2[rw] {
            maxr
        } else {
            rank2[rw]
        },
        0 <= k < p.len(),
    ensures
        forest_wf(p2, rank2, maxr2),
        root_in(p2, rank2, maxr2, k) == if root_in(p, rank, maxr, k) == rl {
            rw as int
        } else {
            root_in(p, rank, maxr, k)
        },
    decreases maxr - rank[k],
{
    assert(forest_wf(p2, rank2, maxr2));
    if p[k] == k {
        if k == rl {
            assert(p2[rl] == rw);
            assert(p2[rw] == rw);
            assert(root_in(p2, rank2, maxr2, rw as int) == rw);
            assert(root_in(p2, rank2, maxr2, rl) == rw);
            assert(root_in(p, rank, maxr, rl) == rl);
        } else {
            assert(p2[k] == k);
            assert(root_in(p2, rank2, maxr2, k) == k);
            assert(root_in(p, rank, maxr, k) == k);
        }
    } else {
        lemma_union_roots(p, rank, maxr, p2, rank2, maxr2, rl, rw, p[k] as int);
        assert(p2[k] == p[k]);
        assert(root_in(p2, rank2, maxr2, k) == root_in(p2, rank2, maxr2, p[k] as int));
        assert(root_in(p, rank, maxr, k) == root_in(p, rank, maxr, p[k] as int));
    }
}

/// A disjoint-set forest over `0..len` with union by size.
pub struct UnionFind {
    parents: Vec<usize>,
    sizes: Vec<usize>,
    rank: Ghost<Seq<int>>,
    max_rank: Ghost<int>,
}

impl UnionFind {
    /// Structural well-formedness of the forest.
    pub closed spec fn wf(&self) -> bool {
        &&& forest_wf(self.parents@, self.rank@, self.max_rank@)
        &&& self.sizes@.len() == self.parents@.len()
    }

    /// Number of elements.
    pub closed spec fn spec_len(&self) -> int {
        self.parents@.len() as int
    }

    /// The representative of element `i`.
    pub closed spec fn spec_root(&self, i: int) -> int {
        root_in(self.parents@, self.rank@, self.max_rank@, i)
    }

    /// The stored size of element `i`'s slot.
    pub closed spec fn spec_size_at(&self, i: int) -> int {
        self.sizes@[i] as int
    }

    /// A forest of `size` singleton classes.
    #[verifier::loop_isolation(false)]
    pub fn new(size: usize) -> (r: Self)
        ensures
            r.wf(),
            r.spec_len() == size,
            forall|i: int| 0 <= i < size ==> r.spec_root(i) == i,
            forall|i: int| 0 <= i < size ==> r.spec_size_at(i) == 1,
    {
        let mut parents: Vec<usize> = Vec::new();
        let mut i: usize = 0;
        while i < size
            invariant
                i <= size,
                parents@.len() == i,
                forall|j: int| 0 <= j < i ==> parents@[j] == j,
            decreases size - i,
        {
            parents.push(i);
            i = i + 1;
        }
        let mut sizes: Vec<usize> = Vec::new();
        let mut j: usize = 0;
        while j < size
            invariant
                j <= size,
                sizes@.len() == j,
                forall|q: int| 0 <= q < j ==> sizes@[q] == 1,
            decreases size - j,
        {
            sizes.push(1);
            j = j + 1;
        }
        let r = UnionFind {
            parents,
            sizes,
            rank: Ghost(Seq::new(size as nat, |q: int| 0int)),
            max_rank: Ghost(0),
        };
        proof {
            assert(forest_wf(r.parents@, r.rank@, r.max_rank@));
            assert forall|i2: int| 0 <= i2 < size implies r.spec_root(i2) == i2 by {
                lemma_root_in(r.parents@, r.rank@, r.max_rank@, i2);
            }
        }
        r
    }

    /// Number of elements.
    pub fn len(&self) -> (r: usize)
        ensures
            r == self.spec_len(),
    {
        self.parents.len()
    }

    /// Add `additional` fresh elements, each its own class with stored
    /// size 0.
    #[verifier::loop_isolation(false)]
    pub fn increase_size(&mut self, additional: usize)
        requires
            old(self).wf(),
            old(self).spec_len() + additional <= usize::MAX,
        ensures
            final(self).wf(),
            final(self).spec_len() == old(self).spec_len() + additional,
            forall|i: int|
                0 <= i < old(self).spec_len() ==> final(self).spec_root(i) == old(
                    self,
                ).spec_root(i),
            forall|i: int|
                old(self).spec_len() <= i < final(self).spec_len() ==> final(self).spec_root(i)
                    == i,
            forall|i: int|
                0 <= i < old(self).spec_len() ==> final(self).spec_size_at(i) == old(
                    self,
                ).spec_size_at(i),
    {
        let len = self.parents.len();
        let new_len = len + additional;
        let ghost p0 = self.parents@;
        let ghost r0 = self.rank@;
        let ghost m0 = self.max_rank@;
        let mut i: usize = len;
        while i < new_len
            invariant
                len <= i <= new_len,
                self.parents@.len() == i,
                self.parents@.take(len as int) == p0,
                forall|j: int| len <= j < i ==> (#[trigger] self.parents@[j]) == j,
                self.sizes@.len() == len,
                self.rank@ == r0,
                self.max_rank@ == m0,
                self.sizes@ == old(self).sizes@,
            decreases new_len - i,
        {
            self.parents.push(i);
            proof {
                assert(self.parents@.take(len as int) =~= p0);
            }
            i = i + 1;
        }
        let mut j: usize = len;
        while j < new_len
            invariant
                len <= j <= new_len,
                self.sizes@.len() == j,
                self.sizes@.take(len as int) == old(self).sizes@,
                self.parents@.len() == new_len,
                self.parents@.take(len as int) == p0,
                forall|q: int| len <= q < new_len ==> (#[trigger] self.parents@[q]) == q,
                self.rank@ == r0,
                self.max_rank@ == m0,
            decreases new_len - j,
        {
            self.sizes.push(0);
            proof {
                assert(self.sizes@.take(len as int) =~= old(self).sizes@);
            }
            j = j + 1;
        }
        proof {
            self.rank@ = r0 + Seq::new(additional as nat, |q: int| 0int);
            assert(forest_wf(self.parents@, self.rank@, self.max_rank@)) by {
                assert forall|q: int| 0 <= q < new_len implies (#[trigger] self.parents@[q])
                    < new_len && 0 <= self.rank@[q] <= self.max_rank@ && (self.parents@[q] != q
                    ==> self.rank@[q] < self.rank@[self.parents@[q] as int]) by {
                    if q < len {
                        assert(self.parents@[q] == p0[q]);
                        assert(self.rank@[q] == r0[q]);
                        if self.parents@[q] != q {
                            assert(self.rank@[self.parents@[q] as int] == r0[p0[q] as int]);
                        }
                    }
                }
            }
            assert(self.rank@.take(r0.len() as int) =~= r0);
            assert forall|i2: int| 0 <= i2 < new_len implies #[trigger] self.spec_root(i2) == (
            if i2 < len {
                root_in(p0, r0, m0, i2)
            } else {
                i2
            }) by {
                lemma_extend_roots(p0, r0, m0, self.parents@, self.rank@, self.max_rank@, i2);
            }
        }
    }

    /// The representative of `i`'s class.
    #[verifier::loop_isolation(false)]
    pub fn find(&mut self, i: usize) -> (r: usize)
        requires
            old(self).wf(),
            i < old(self).spec_len(),
        ensures
            *final(self) == *old(self),
            r == old(self).spec_root(i as int),
    {
        let ghost p = self.parents@;
        let ghost rk = self.rank@;
        let ghost m = self.max_rank@;
        let mut root: usize = i;
        while self.parents[root] != root
            invariant
                *self == *old(self),
                0 <= root < p.len(),
                root_in(p, rk, m, root as int) == root_in(p, rk, m, i as int),
            decreases m - rk[root as int],
        {
            root = self.parents[root];
        }
        root
    }

    /// Whether `root` is the representative of its own class.
    pub fn is_root(&self, root: usize) -> (r: bool)
        requires
            self.wf(),
            root < self.spec_len(),
        ensures
            r == (self.spec_root(root as int) == root),
    {
        proof {
            lemma_root_in(self.parents@, self.rank@, self.max_rank@, root as int);
            if self.parents@[root as int] != root {
                if root_in(self.parents@, self.rank@, self.max_rank@, root as int) == root {
                    assert(false);
                }
            }
        }
        self.parents[root] == root
    }

    /// The stored size of `root`'s class, when `root` is a representative.
    pub fn size(&self, root: usize) -> (r: Option<usize>)
        requires
            self.wf(),
            root < self.spec_len(),
        ensures
            r == if self.spec_root(root as int) == root {
                Some(self.spec_size_at(root as int) as usize)
            } else {
                None::<usize>
            },
    {
        if self.is_root(root) {
            Some(self.sizes[root])
        } else {
            None
        }
    }

    /// The stored size of `root`'s slot, without checking that `root` is a
    /// representative (the value is only meaningful when it is).
    pub fn size_unchecked(&self, root: usize) -> (r: usize)
        requires
            self.wf(),
            root < self.spec_len(),
        ensures
            r == self.spec_size_at(root as int),
    {
        self.sizes[root]
    }

    /// The stored size of the class that `i` belongs to.
    pub fn size_find(&mut self, i: usize) -> (r: usize)
        requires
            old(self).wf(),
            i < old(self).spec_len(),
        ensures
            *final(self) == *old(self),
            r == old(self).spec_size_at(old(self).spec_root(i as int)),
    {
        let root = self.find(i);
        proof {
            lemma_root_in(self.parents@, self.rank@, self.max_rank@, i as int);
        }
        self.sizes[root]
    }

    /// Join the classes of `i` and `j`, attaching the smaller class under
    /// the larger: returns whether the two were previously distinct. The
    /// stored size of the surviving representative absorbs the other
    /// (saturating at the integer limit).
    #[verifier::loop_isolation(false)]
    pub fn union(&mut self, i: usize, j: usize) -> (r: bool)
        requires
            old(self).wf(),
            i < old(self).spec_len(),
            j < old(self).spec_len(),
        ensures
            final(self).wf(),
            final(self).spec_len() == old(self).spec_len(),
            ({
                let ri = old(self).spec_root(i as int);
                let rj = old(self).spec_root(j as int);
                if ri == rj {
                    &&& r == false
                    &&& *final(self) == *old(self)
                } else {
                    let w = if old(self).spec_size_at(ri) < old(self).spec_size_at(rj) {
                        rj
                    } else {
                        ri
                    };
                    &&& r == true
                    &&& forall|k: int|
                        0 <= k < old(self).spec_len() ==> #[trigger] final(self).spec_root(k)
                            == (if old(self).spec_root(k) == ri || old(self).spec_root(k) == rj {
                            w
                        } else {
                            old(self).spec_root(k)
                        })
                }
            }),
    {
        let ri = self.find(i);
        let rj = self.find(j);
        proof {
            lemma_root_in(self.parents@, self.rank@, self.max_rank@, i as int);
            lemma_root_in(self.parents@, self.rank@, self.max_rank@, j as int);
        }
        if ri == rj {
            return false;
        }
        let ghost p = self.parents@;
        let ghost rk = self.rank@;
        let ghost m = self.max_rank@;
        let (winner, loser) = if self.sizes[ri] < self.sizes[rj] {
            (rj, ri)
        } else {
            (ri, rj)
        };
        let merged = self.sizes[winner].saturating_add(self.sizes[loser]);
        self.parents.set(loser, winner);
        self.sizes.set(winner, merged);
        proof {
            let newrank = if rk[winner as int] >= rk[loser as int] + 1 {
                rk[winner as int]
            } else {
                rk[loser as int] + 1
            };
            self.rank@ = rk.update(winner as int, newrank);
            self.max_rank@ = if m >= newrank {
                m
            } else {
                newrank
            };
            assert forall|k: int| 0 <= k < p.len() implies #[trigger] root_in(
                self.parents@,
                self.rank@,
                self.max_rank@,
                k,
            ) == (if root_in(p, rk, m, k) == loser {
                winner as int
            } else {
                root_in(p, rk, m, k)
            }) by {
                lemma_union_roots(
                    p,
                    rk,
                    m,
                    self.parents@,
                    self.rank@,
                    self.max_rank@,
                    loser as int,
                    winner as int,
                    k,
                );
            }
        }
        true
    }
}

/// Appending fresh self-rooted elements does not change existing
/// representatives, and the fresh elements represent themselves.
proof fn lemma_extend_roots(
    p: Seq<usize>,
    rank: Seq<int>,
    maxr: int,
    p2: Seq<usize>,
    rank2: Seq<int>,
    maxr2: int,
    k: int,
)
    requires
        forest_wf(p, rank, maxr),
        forest_wf(p2, rank2, maxr2),
        p2.len() >= p.len(),
        p2.take(p.len() as int) == p,
        rank2.take(rank.len() as int) == rank,
        maxr2 == maxr,
        forall|q: int| p.len() <= q < p2.len() ==> (#[trigger] p2[q]) == q,
        0 <= k < p2.len(),
    ensures
        root_in(p2, rank2, maxr2, k) == if k < p.len() {
            root_in(p, rank, maxr, k)
        } else {
            k
        },
    decreases maxr2 - rank2[k],
{
    if k < p.len() {
        assert(p2[k] == p[k]);
        assert(rank2[k] == rank[k]);
        if p[k] != k {
            assert(rank2[p2[k] as int] == rank[p[k] as int]);
            lemma_extend_roots(p, rank, maxr, p2, rank2, maxr2, p[k] as int);
        }
    }
}

} // verus!
