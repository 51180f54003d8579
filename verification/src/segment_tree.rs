//! A segment tree over a commutative monoid, stored as one flat array of
//! `2 * n - 1` cells: the last `n` are the leaves, and each inner cell
//! holds the combination of its two children. Range sums walk the tree
//! bottom-up, absorbing whole subtrees.

use crate::groups::{Associativity, Commutativity, CommutativeMonoid, Identity, Magma};
use vstd::prelude::*;

verus! {

/// Folding a sequence of elements left to right, starting from identity.
pub open spec fn gfold<G: Magma + Identity>(g: G, s: Seq<G::Elem>) -> G::Elem
    decreases s.len(),
{
    if s.len() == 0 {
        g.spec_id()
    } else {
        g.spec_add(gfold(g, s.drop_last()), s.last())
    }
}

/// The fold distributes over concatenation (needs associativity and the
/// identity laws).
pub proof fn lemma_gfold_concat<G: Magma + Associativity + Identity>(
    g: G,
    a: Seq<G::Elem>,
    b: Seq<G::Elem>,
)
    ensures
        gfold(g, a + b) == g.spec_add(gfold(g, a), gfold(g, b)),
    decreases b.len(),
{
    if b.len() == 0 {
        assert(a + b =~= a);
        g.law_identity(gfold(g, a));
    } else {
        assert((a + b).drop_last() =~= a + b.drop_last());
        assert((a + b).last() == b.last());
        lemma_gfold_concat(g, a, b.drop_last());
        g.law_assoc(gfold(g, a), gfold(g, b.drop_last()), b.last());
    }
}

/// The fold of a single element is that element.
pub proof fn lemma_gfold_one<G: Magma + Identity>(g: G, x: G::Elem)
    ensures
        gfold(g, seq![x]) == x,
{
    assert(seq![x].drop_last() =~= Seq::<G::Elem>::empty());
    assert(seq![x].last() == x);
    assert(gfold(g, Seq::<G::Elem>::empty()) == g.spec_id());
    g.law_identity(x);
}

/// The leaf values under cell `x`, in left-to-right order.
pub open spec fn leafvals<E>(data: Seq<E>, x: int) -> Seq<E>
    decreases data.len() - x,
        when 0 <= x < data.len()
{
    if 2 * x + 2 >= data.len() {
        seq![data[x]]
    } else {
        leafvals(data, 2 * x + 1) + leafvals(data, 2 * x + 2)
    }
}

/// The leaf values under the cells `lo..hi`, concatenated.
pub open spec fn rngvals<E>(data: Seq<E>, lo: int, hi: int) -> Seq<E>
    decreases hi - lo,
        when 0 <= lo && hi <= data.len()
{
    if lo >= hi {
        Seq::empty()
    } else {
        leafvals(data, lo) + rngvals(data, lo + 1, hi)
    }
}

/// Every inner cell holds the combination of its two children.
pub open spec fn cells_wf<G: Magma>(g: G, data: Seq<G::Elem>) -> bool {
    forall|x: int|
        0 <= x && 2 * x + 2 < data.len() ==> (#[trigger] data[x]) == g.spec_add(
            data[2 * x + 1],
            data[2 * x + 2],
        )
}

/// Under the structural invariant, every cell holds the fold of the leaf
/// values beneath it.
pub proof fn lemma_cell_fold<G: Magma + Associativity + Identity>(
    g: G,
    data: Seq<G::Elem>,
    x: int,
)
    requires
        cells_wf(g, data),
        0 <= x < data.len(),
    ensures
        data[x] == gfold(g, leafvals(data, x)),
    decreases data.len() - x,
{
    if 2 * x + 2 >= data.len() {
        lemma_gfold_one(g, data[x]);
    } else {
        lemma_cell_fold(g, data, 2 * x + 1);
        lemma_cell_fold(g, data, 2 * x + 2);
        lemma_gfold_concat(g, leafvals(data, 2 * x + 1), leafvals(data, 2 * x + 2));
    }
}

/// Peeling the last cell off a range of cells.
pub proof fn lemma_rng_back<E>(data: Seq<E>, lo: int, hi: int)
    requires
        0 <= lo < hi,
        hi <= data.len(),
    ensures
        rngvals(data, lo, hi) == rngvals(data, lo, hi - 1) + leafvals(data, hi - 1),
    decreases hi - lo,
{
    if lo == hi - 1 {
        assert(rngvals(data, lo, hi) == leafvals(data, lo) + rngvals(data, lo + 1, hi));
        assert(rngvals(data, lo + 1, hi) == Seq::<E>::empty());
        assert(rngvals(data, lo, hi - 1) == Seq::<E>::empty());
        assert(rngvals(data, lo, hi) =~= rngvals(data, lo, hi - 1) + leafvals(data, hi - 1));
    } else {
        lemma_rng_back(data, lo + 1, hi);
        assert(rngvals(data, lo, hi) == leafvals(data, lo) + rngvals(data, lo + 1, hi));
        assert(rngvals(data, lo, hi - 1) == leafvals(data, lo) + rngvals(data, lo + 1, hi - 1));
        assert(rngvals(data, lo, hi) =~= rngvals(data, lo, hi - 1) + leafvals(data, hi - 1));
    }
}

/// A run of sibling pairs collapses to the run of their parents: cells
/// `2a+1 .. 2b+1` hold the same leaves as cells `a .. b`.
pub proof fn lemma_rng_pair<E>(data: Seq<E>, a: int, b: int)
    requires
        0 <= a <= b,
        2 * b < data.len(),
    ensures
        rngvals(data, 2 * a + 1, 2 * b + 1) == rngvals(data, a, b),
    decreases b - a,
{
    if a == b {
    } else {
        lemma_rng_pair(data, a + 1, b);
        assert(2 * a + 2 < data.len());
        assert(rngvals(data, 2 * a + 1, 2 * b + 1) == leafvals(data, 2 * a + 1) + rngvals(
            data,
            2 * a + 2,
            2 * b + 1,
        ));
        assert(rngvals(data, 2 * a + 2, 2 * b + 1) == leafvals(data, 2 * a + 2) + rngvals(
            data,
            2 * a + 3,
            2 * b + 1,
        ));
        assert(leafvals(data, a) == leafvals(data, 2 * a + 1) + leafvals(data, 2 * a + 2));
        assert(rngvals(data, a, b) == leafvals(data, a) + rngvals(data, a + 1, b));
        assert(rngvals(data, 2 * a + 1, 2 * b + 1) =~= rngvals(data, a, b));
    }
}

/// A range of leaf cells reads back the stored values directly.
pub proof fn lemma_rng_leaves<E>(data: Seq<E>, lo: int, hi: int)
    requires
        0 <= lo <= hi,
        hi <= data.len(),
        data.len() <= 2 * lo + 2,
    ensures
        rngvals(data, lo, hi) == data.subrange(lo, hi),
    decreases hi - lo,
{
    if lo == hi {
        assert(rngvals(data, lo, hi) =~= data.subrange(lo, hi));
    } else {
        lemma_rng_leaves(data, lo + 1, hi);
        assert(leafvals(data, lo) == seq![data[lo]]);
        assert(rngvals(data, lo, hi) =~= data.subrange(lo, hi));
    }
}

/// Arithmetic of halving an odd length: the cell count splits into the
/// inner cells and one more leaf than that.
pub proof fn lemma_odd_halves(n: int)
    requires
        n >= 0,
        n % 2 == 1,
    ensures
        n == 2 * (n / 2) + 1,
        (n + 1) / 2 == n / 2 + 1,
{
}

/// A segment tree: point updates and range folds over a commutative
/// monoid, both in logarithmic time.
pub struct SegmentTree<G: CommutativeMonoid> {
    group: G,
    data: Vec<G::Elem>,
}

impl<G: CommutativeMonoid> SegmentTree<G> {
    /// The number of leaves.
    pub closed spec fn spec_len(&self) -> int {
        self.data@.len() as int / 2 + 1
    }

    /// Index of the first leaf cell.
    pub closed spec fn spec_start(&self) -> int {
        self.data@.len() as int / 2
    }

    /// The group the tree folds with.
    pub closed spec fn spec_group(&self) -> G {
        self.group
    }

    /// The stored leaf values, in order.
    pub closed spec fn view(&self) -> Seq<G::Elem> {
        self.data@.subrange(self.spec_start(), self.data@.len() as int)
    }

    /// Structural well-formedness: an odd-length cell array whose inner
    /// cells combine their children.
    pub closed spec fn wf(&self) -> bool {
        &&& self.data@.len() % 2 == 1
        &&& cells_wf(self.group, self.data@)
    }

    /// A tree of `length` leaves, all holding the identity element.
    #[verifier::loop_isolation(false)]
    pub fn new(group: G, length: usize) -> (r: Self)
        requires
            1 <= length,
            2 * (length as int) - 1 <= usize::MAX,
        ensures
            r.wf(),
            r.spec_len() == length,
            r.spec_group() == group,
            forall|i: int| 0 <= i < length ==> r@[i] == group.spec_id(),
    {
        let n: usize = length - 1 + length;
        let mut data: Vec<G::Elem> = Vec::new();
        while data.len() < n
            invariant
                data@.len() <= n,
                forall|j: int| 0 <= j < data@.len() ==> (#[trigger] data@[j]) == group.spec_id(),
            decreases n - data@.len(),
        {
            let x = group.id();
            data.push(x);
        }
        let r = SegmentTree { group, data };
        proof {
            assert(cells_wf(r.group, r.data@)) by {
                assert forall|x: int| 0 <= x && 2 * x + 2 < r.data@.len() implies (
                #[trigger] r.data@[x]) == r.group.spec_add(
                    r.data@[2 * x + 1],
                    r.data@[2 * x + 2],
                ) by {
                    r.group.law_identity(r.group.spec_id());
                }
            }
        }
        r
    }

    /// The number of leaves.
    pub fn len(&self) -> (r: usize)
        requires
            self.wf(),
        ensures
            r == self.spec_len(),
    {
        proof {
            lemma_odd_halves(self.data@.len() as int);
        }
        self.data.len() / 2 + 1
    }

    /// Index of the first leaf cell.
    fn start(&self) -> (r: usize)
        ensures
            r == self.spec_start(),
    {
        self.data.len() / 2
    }

    /// Read leaf `i`.
    pub fn get(&self, i: usize) -> (r: &G::Elem)
        requires
            self.wf(),
            i < self.spec_len(),
        ensures
            *r == self@[i as int],
    {
        let n = self.data.len();
        proof {
            lemma_odd_halves(n as int);
        }
        let start = n / 2;
        &self.data[start + i]
    }

    /// Set leaf `i` to `x` and recombine the cells on the path to the
    /// root.
    #[verifier::loop_isolation(false)]
    pub fn update(&mut self, i: usize, x: G::Elem)
        requires
            old(self).wf(),
            i < old(self).spec_len(),
        ensures
            final(self).wf(),
            final(self)@ =~= old(self)@.update(i as int, x),
            final(self).spec_len() == old(self).spec_len(),
            final(self).spec_group() == old(self).spec_group(),
    {
        let n = self.data.len();
        proof {
            lemma_odd_halves(n as int);
        }
        let start = n / 2;
        let mut j = start + i;
        self.data.set(j, x);
        proof {
            assert forall|y: int|
                0 <= y && 2 * y + 2 < self.data@.len() && !(on_path(j as int, y) && y
                    != j) implies (#[trigger] self.data@[y]) == self.group.spec_add(
                self.data@[2 * y + 1],
                self.data@[2 * y + 2],
            ) by {
                if 2 * y + 1 == j || 2 * y + 2 == j {
                    lemma_on_path_parent(j as int, y);
                    assert(false);
                }
            }
        }
        while j != 0
            invariant
                j < self.data@.len(),
                self.data@.len() == old(self).data@.len(),
                self.group == old(self).group,
                self.data@.subrange(start as int, self.data@.len() as int) =~= old(
                    self,
                ).data@.subrange(start as int, self.data@.len() as int).update(i as int, x),
                forall|y: int|
                    0 <= y && 2 * y + 2 < self.data@.len() && !(on_path(j as int, y) && y != j)
                        ==> (#[trigger] self.data@[y]) == self.group.spec_add(
                        self.data@[2 * y + 1],
                        self.data@[2 * y + 2],
                    ),
            decreases j,
        {
            let parent = (j - 1) / 2;
            let ghost pre = self.data@;
            let combined = self.group.add(&self.data[2 * parent + 1], &self.data[2 * parent + 2]);
            self.data.set(parent, combined);
            proof {
                assert(2 * parent + 1 < self.data@.len());
                assert(parent < start) by {
                    assert(2 * parent + 2 < self.data@.len());
                }
                assert(self.data@.subrange(start as int, self.data@.len() as int) =~= pre.subrange(
                    start as int,
                    pre.len() as int,
                ));
                assert forall|y: int|
                    0 <= y && 2 * y + 2 < self.data@.len() && !(on_path(parent as int, y) && y
                        != parent) implies (#[trigger] self.data@[y]) == self.group.spec_add(
                    self.data@[2 * y + 1],
                    self.data@[2 * y + 2],
                ) by {
                    if y != parent {
                        assert(!on_path(j as int, y) || y == j as int);
                        assert(2 * y + 1 != parent && 2 * y + 2 != parent) by {
                            if 2 * y + 1 == parent || 2 * y + 2 == parent {
                                lemma_on_path_parent(parent as int, y);
                                assert(on_path(j as int, y));
                                assert(y != j);
                            }
                        }
                    }
                }
            }
            j = parent;
        }
        proof {
            assert forall|y: int| 0 <= y && 2 * y + 2 < self.data@.len() implies (
            #[trigger] self.data@[y]) == self.group.spec_add(
                self.data@[2 * y + 1],
                self.data@[2 * y + 2],
            ) by {
                assert(on_path(0, y) <==> y == 0);
            }
        }
    }

    /// Fill the first leaves from `values` (later leaves keep their old
    /// contents) and rebuild every inner cell.
    #[verifier::loop_isolation(false)]
    pub fn build(&mut self, values: Vec<G::Elem>)
        requires
            old(self).wf(),
            values@.len() <= old(self).spec_len(),
        ensures
            final(self).wf(),
            final(self)@ =~= values@ + old(self)@.skip(values@.len() as int),
            final(self).spec_len() == old(self).spec_len(),
            final(self).spec_group() == old(self).spec_group(),
    {
        let n = self.data.len();
        proof {
            lemma_odd_halves(n as int);
        }
        let start = n / 2;
        let mut vals = values;
        while vals.len() > 0
            invariant
                self.data@.len() == old(self).data@.len(),
                self.group == old(self).group,
                vals@.len() <= values@.len(),
                vals@ =~= values@.take(vals@.len() as int),
                forall|q: int|
                    vals@.len() <= q < values@.len() ==> self.data@[start + q] == (
                    #[trigger] values@[q]),
                forall|q: int|
                    0 <= q < vals@.len() ==> (#[trigger] self.data@[start + q]) == old(
                        self,
                    ).data@[start + q],
                forall|q: int|
                    start + values@.len() <= q < self.data@.len() ==> (#[trigger] self.data@[q])
                        == old(self).data@[q],
            decreases vals@.len(),
        {
            let idx = vals.len() - 1;
            let x = match vals.pop() {
                Some(x) => x,
                None => vstd::pervasive::unreached(),
            };
            self.data.set(start + idx, x);
            proof {
                assert(vals@ =~= values@.take(vals@.len() as int));
                assert(x == values@[idx as int]);
            }
        }
        proof {
            assert(self.data@.subrange(start as int, self.data@.len() as int) =~= values@ + old(
                self,
            ).data@.subrange(start as int + values@.len() as int, self.data@.len() as int));
        }
        let mut k = start;
        while k > 0
            invariant
                k <= start,
                self.data@.len() == old(self).data@.len(),
                self.group == old(self).group,
                self.data@.subrange(start as int, self.data@.len() as int) =~= values@ + old(
                    self,
                ).data@.subrange(start as int + values@.len() as int, self.data@.len() as int),
                forall|y: int|
                    k <= y && 2 * y + 2 < self.data@.len() ==> (#[trigger] self.data@[y])
                        == self.group.spec_add(self.data@[2 * y + 1], self.data@[2 * y + 2]),
            decreases k,
        {
            let y = k - 1;
            let combined = self.group.add(&self.data[2 * y + 1], &self.data[2 * y + 2]);
            let ghost pre = self.data@;
            self.data.set(y, combined);
            proof {
                assert(y < start) by {
                    assert(2 * y + 2 < self.data@.len());
                }
                assert(self.data@.subrange(start as int, self.data@.len() as int) =~= pre.subrange(
                    start as int,
                    pre.len() as int,
                ));
            }
            k = y;
        }
    }

    /// Fold the leaves `l..r` with the group operation.
    #[verifier::loop_isolation(false)]
    pub fn sum(&self, l: usize, r: usize) -> (out: G::Elem)
        requires
            self.wf(),
            l <= r,
            r <= self.spec_len(),
        ensures
            out == gfold(self.spec_group(), self@.subrange(l as int, r as int)),
    {
        let n = self.data.len();
        proof {
            lemma_odd_halves(n as int);
        }
        let ghost g = self.group;
        let ghost target = gfold(g, self@.subrange(l as int, r as int));
        let start = n / 2;
        let mut lo = l + start;
        let mut hi = r + start;
        let mut s = self.group.id();
        proof {
            lemma_rng_leaves(self.data@, lo as int, hi as int);
            assert(self.data@.subrange(lo as int, hi as int) =~= self@.subrange(
                l as int,
                r as int,
            ));
            g.law_identity(gfold(g, rngvals(self.data@, lo as int, hi as int)));
        }
        while lo < hi
            invariant
                0 <= lo <= hi,
                hi <= self.data@.len(),
                target == g.spec_add(s, gfold(g, rngvals(self.data@, lo as int, hi as int))),
            decreases hi,
        {
            let ghost data = self.data@;
            let ghost lo0 = lo as int;
            let ghost hi0 = hi as int;
            if lo % 2 == 0 {
                proof {
                    lemma_cell_fold(g, data, lo0);
                    lemma_gfold_concat(g, leafvals(data, lo0), rngvals(data, lo0 + 1, hi0));
                    g.law_assoc(s, data[lo0], gfold(g, rngvals(data, lo0 + 1, hi0)));
                }
                s = self.group.add(&s, &self.data[lo]);
                lo = lo + 1;
            }
            if hi % 2 == 0 {
                proof {
                    lemma_rng_back(data, lo as int, hi0);
                    lemma_cell_fold(g, data, hi0 - 1);
                    lemma_gfold_concat(g, rngvals(data, lo as int, hi0 - 1), leafvals(
                        data,
                        hi0 - 1,
                    ));
                    g.law_comm(gfold(g, rngvals(data, lo as int, hi0 - 1)), data[hi0 - 1]);
                    g.law_assoc(s, data[hi0 - 1], gfold(g, rngvals(data, lo as int, hi0 - 1)));
                    g.law_assoc(s, gfold(g, rngvals(data, lo as int, hi0 - 1)), data[hi0 - 1]);
                }
                hi = hi - 1;
                s = self.group.add(&s, &self.data[hi]);
            }
            proof {
                // both cursors now sit on odd cells (or the range is empty):
                // one level up covers the same leaves
                if lo < hi {
                    assert(lo % 2 == 1 && hi % 2 == 1);
                    lemma_rng_pair(self.data@, lo as int / 2, hi as int / 2);
                    assert(2 * (lo as int / 2) + 1 == lo as int);
                    assert(2 * (hi as int / 2) + 1 == hi as int);
                } else {
                    assert(lo == hi);
                }
            }
            lo = lo / 2;
            hi = hi / 2;
        }
        proof {
            assert(rngvals(self.data@, lo as int, hi as int) =~= Seq::<G::Elem>::empty());
            g.law_identity(s);
        }
        s
    }
}

/// The parent of a cell lies on its path to the root.
pub proof fn lemma_on_path_parent(j: int, y: int)
    requires
        j >= 1,
        y == (j - 1) / 2,
    ensures
        on_path(j, y),
{
    assert(on_path(y, y));
}

/// Whether inner cell `y` lies on the parent path from cell `j` to the
/// root.
pub open spec fn on_path(j: int, y: int) -> bool
    decreases j,
        when j >= 0
{
    if y == j {
        true
    } else if j == 0 {
        false
    } else {
        on_path((j - 1) / 2, y)
    }
}

} // verus!
