//! A Fenwick (binary indexed) tree over a commutative monoid: cell `c`
//! caches the fold of the logical values over `[c + 1 - lsb(c + 1), c + 1)`,
//! where `lsb` keeps only the lowest set bit. The logical sequence itself is
//! ghost; prefix folds and point updates run in logarithmic time.

use crate::groups::{AbelianGroup, Associativity, Commutativity, CommutativeMonoid, Identity,
    Invertibillity, Magma};
use crate::segment_tree::{gfold, lemma_gfold_concat, lemma_gfold_one};
use vstd::prelude::*;

verus! {

/// Relies on std's `Vec::capacity`: how many elements fit without
/// reallocating, which is at least the current length; the exact value
/// depends on the allocator.
#[verifier::external_body]
fn vec_capacity<T>(v: &Vec<T>) -> (r: usize)
    ensures
        r >= v@.len(),
{
    v.capacity()
}

/// The lowest set bit of `m` (0 for 0).
pub open spec fn spec_lsb(m: usize) -> usize {
    if m == 0 {
        0
    } else {
        m & (!((m - 1) as usize))
    }
}

/// The lowest set bit, computed.
fn lsb(m: usize) -> (r: usize)
    ensures
        r == spec_lsb(m),
{
    if m == 0 {
        0
    } else {
        m & !(m - 1)
    }
}

/// Basic facts about the lowest set bit of a positive number.
pub proof fn lemma_lsb_bounds(m: usize)
    requires
        m >= 1,
    ensures
        1 <= spec_lsb(m) <= m,
{
    assert(1 <= spec_lsb(m) <= m) by (bit_vector)
        requires
            m >= 1,
    ;
}

/// The interval start of cell `c`: `c + 1` minus its lowest set bit.
pub open spec fn cell_start(c: int) -> int
    recommends
        0 <= c < usize::MAX,
{
    c + 1 - spec_lsb((c + 1) as usize)
}

/// Inside the half-open block that ends at `m`, stepping any position down
/// by its lowest set bit never leaves the block.
proof fn lemma_chain_stays(m: usize, i: usize)
    requires
        m >= 1,
        m - spec_lsb(m) < i < m,
    ensures
        i >= 1,
        i - spec_lsb(i) >= m - spec_lsb(m),
{
    lemma_lsb_bounds(m);
    assert(i - spec_lsb(i) >= m - spec_lsb(m)) by (bit_vector)
        requires
            m >= 1,
            m - spec_lsb(m) < i,
            i < m,
    ;
}

/// A position inside cell `m - 1`'s interval is still inside the interval
/// of cell `m2 - 1`, the next cell the update walk visits.
proof fn lemma_chain_up(m: usize, m2: usize, i0: usize)
    requires
        m >= 1,
        m - spec_lsb(m) <= i0 <= m - 1,
        m + spec_lsb(m) <= usize::MAX,
        m2 == m + spec_lsb(m),
    ensures
        m2 - spec_lsb(m2) <= i0 <= m2 - 1,
{
    lemma_lsb_bounds(m);
    assert(m2 - spec_lsb(m2) <= i0 && i0 <= m2 - 1) by (bit_vector)
        requires
            m >= 1,
            m - spec_lsb(m) <= i0,
            i0 <= m - 1,
            m2 == m + spec_lsb(m),
    ;
}

/// No cell strictly between an update-walk cell and its successor contains
/// the updated position.
proof fn lemma_chain_gap(m: usize, i0: usize, c: usize)
    requires
        m >= 1,
        m - spec_lsb(m) <= i0 <= m - 1,
        m - 1 < c,
        c < m - 1 + spec_lsb(m),
        c < usize::MAX,
    ensures
        !(c + 1 - spec_lsb((c + 1) as usize) <= i0 && i0 <= c),
{
    lemma_lsb_bounds(m);
    let c2 = (c + 1) as usize;
    assert(!(c2 - spec_lsb(c2) <= i0 && i0 <= c)) by (bit_vector)
        requires
            m >= 1,
            m - spec_lsb(m) <= i0,
            i0 <= m - 1,
            m - 1 < c,
            c < m - 1 + spec_lsb(m),
            c2 == c + 1,
    ;
}

/// A Fenwick tree: prefix folds of a logical sequence of monoid elements.
pub struct FenwickTree<G: CommutativeMonoid> {
    group: G,
    data: Vec<G::Elem>,
    logical: Ghost<Seq<G::Elem>>,
}

impl<G: CommutativeMonoid> FenwickTree<G> {
    /// The logical sequence of stored values.
    pub closed spec fn view(&self) -> Seq<G::Elem> {
        self.logical@
    }

    /// The group the tree folds with.
    pub closed spec fn spec_group(&self) -> G {
        self.group
    }

    /// Every cell caches the fold of its half-open interval of logical
    /// values.
    pub closed spec fn wf(&self) -> bool {
        &&& self.data@.len() == self.logical@.len()
        &&& forall|c: int|
            0 <= c < self.data@.len() ==> (#[trigger] self.data@[c]) == gfold(
                self.group,
                self.logical@.subrange(cell_start(c), c + 1),
            )
        &&& forall|c: int| 0 <= c < self.data@.len() ==> 0 <= #[trigger] cell_start(c) <= c
    }

    /// An empty tree.
    pub fn new(group: G) -> (r: Self)
        ensures
            r.wf(),
            r@ =~= Seq::<G::Elem>::empty(),
            r.spec_group() == group,
    {
        FenwickTree { group, data: Vec::new(), logical: Ghost(Seq::empty()) }
    }

    /// An empty tree with room reserved for `capacity` elements.
    pub fn with_capacity(group: G, capacity: usize) -> (r: Self)
        ensures
            r.wf(),
            r@ =~= Seq::<G::Elem>::empty(),
            r.spec_group() == group,
    {
        FenwickTree { group, data: Vec::with_capacity(capacity), logical: Ghost(Seq::empty()) }
    }

    /// The number of stored values.
    pub fn len(&self) -> (r: usize)
        requires
            self.wf(),
        ensures
            r == self@.len(),
    {
        self.data.len()
    }

    /// How many values fit without reallocation.
    pub fn capacity(&self) -> (r: usize)
        ensures
            r >= self@.len() || !self.wf(),
    {
        vec_capacity(&self.data)
    }

    /// Reserve room for `additional` more values.
    pub fn reserve(&mut self, additional: usize)
        requires
            old(self).wf(),
            old(self)@.len() + additional <= usize::MAX,
        ensures
            final(self).wf(),
            final(self)@ == old(self)@,
            final(self).spec_group() == old(self).spec_group(),
    {
        self.data.reserve(additional);
    }

    /// Drop the last value, if any.
    pub fn pop(&mut self)
        requires
            old(self).wf(),
        ensures
            final(self).wf(),
            final(self)@ =~= if old(self)@.len() == 0 {
                old(self)@
            } else {
                old(self)@.drop_last()
            },
            final(self).spec_group() == old(self).spec_group(),
    {
        let popped = self.data.pop();
        proof {
            if self.logical@.len() > 0 {
                self.logical@ = self.logical@.drop_last();
            }
            assert forall|c: int| 0 <= c < self.data@.len() implies (#[trigger] self.data@[c])
                == gfold(self.group, self.logical@.subrange(cell_start(c), c + 1)) by {
                assert(self.data@[c] == old(self).data@[c]);
                assert(self.logical@.subrange(cell_start(c), c + 1) =~= old(
                    self,
                ).logical@.subrange(cell_start(c), c + 1));
            }
        }
    }

    /// The fold of the first `i` values.
    #[verifier::loop_isolation(false)]
    pub fn prefix_sum(&self, i: usize) -> (r: G::Elem)
        requires
            self.wf(),
            i <= self@.len(),
        ensures
            r == gfold(self.spec_group(), self@.take(i as int)),
    {
        let ghost g = self.group;
        let mut ps = self.group.id();
        let mut k = i;
        proof {
            assert(self@.subrange(i as int, i as int) =~= Seq::<G::Elem>::empty());
            g.law_identity(gfold(g, self@.take(i as int)));
        }
        while k != 0
            invariant
                k <= i,
                gfold(g, self@.take(i as int)) == g.spec_add(
                    gfold(g, self@.take(k as int)),
                    ps,
                ),
            decreases k,
        {
            proof {
                lemma_lsb_bounds(k);
                let cs = cell_start(k as int - 1);
                assert(cs == k - spec_lsb(k));
                assert(self@.take(k as int) =~= self@.take(cs) + self@.subrange(cs, k as int));
                lemma_gfold_concat(g, self@.take(cs), self@.subrange(cs, k as int));
                g.law_assoc(gfold(g, self@.take(cs)), self.data@[k - 1], ps);
            }
            let cell = &self.data[k - 1];
            ps = self.group.add(cell, &ps);
            let step = lsb(k);
            k = k - step;
        }
        proof {
            assert(self@.take(0) =~= Seq::<G::Elem>::empty());
            g.law_identity(ps);
            assert(gfold(g, Seq::<G::Elem>::empty()) == g.spec_id());
            g.law_identity(gfold(g, self@.take(i as int)));
        }
        ps
    }

    /// Append the identity element.
    pub fn push_id(&mut self)
        requires
            old(self).wf(),
            old(self)@.len() < usize::MAX,
        ensures
            final(self).wf(),
            final(self)@ =~= old(self)@.push(old(self).spec_group().spec_id()),
            final(self).spec_group() == old(self).spec_group(),
    {
        let x = self.group.id();
        self.push(x);
    }

    /// Append values (or drop them) until the length is `size`; new values
    /// are the identity element.
    #[verifier::loop_isolation(false)]
    pub fn resize_id(&mut self, size: usize)
        requires
            old(self).wf(),
            size < usize::MAX,
        ensures
            final(self).wf(),
            final(self)@.len() == size,
            final(self)@.take(vstd::math::min(size as int, old(self)@.len() as int)) =~= old(
                self,
            )@.take(vstd::math::min(size as int, old(self)@.len() as int)),
            forall|q: int|
                old(self)@.len() <= q < size ==> final(self)@[q] == old(
                    self,
                ).spec_group().spec_id(),
            final(self).spec_group() == old(self).spec_group(),
    {
        while self.data.len() > size
            invariant
                self.wf(),
                self.group == old(self).group,
                self@.len() >= size ==> self@.take(size as int) =~= old(self)@.take(size as int),
                self@.len() < size ==> self@ =~= old(self)@,
                self@.len() <= old(self)@.len(),
            decreases self@.len(),
        {
            proof {
                assert(self@.drop_last().take(size as int) =~= self@.take(size as int));
            }
            self.pop();
        }
        while self.data.len() < size
            invariant
                self.wf(),
                self.group == old(self).group,
                self@.len() <= size,
                self@.take(vstd::math::min(size as int, old(self)@.len() as int)) =~= old(
                    self,
                )@.take(vstd::math::min(size as int, old(self)@.len() as int)),
                forall|q: int|
                    old(self)@.len() <= q < self@.len() ==> self@[q] == old(
                        self,
                    ).spec_group().spec_id(),
                self@.len() >= vstd::math::min(size as int, old(self)@.len() as int),
            decreases size - self@.len(),
        {
            let ghost pre = self@;
            self.push_id();
            proof {
                assert(self@.take(vstd::math::min(size as int, old(self)@.len() as int))
                    =~= pre.take(vstd::math::min(size as int, old(self)@.len() as int)));
            }
        }
    }

    /// Append a value.
    #[verifier::loop_isolation(false)]
    pub fn push(&mut self, x: G::Elem)
        requires
            old(self).wf(),
            old(self)@.len() < usize::MAX,
        ensures
            final(self).wf(),
            final(self)@ =~= old(self)@.push(x),
            final(self).spec_group() == old(self).spec_group(),
    {
        let ghost g = self.group;
        let len = self.data.len();
        let ghost m = (len + 1) as usize;
        let bottom_step = lsb(len + 1);
        let ghost bt = (m - spec_lsb(m)) as usize;
        let mut acc = x;
        let mut k = len;
        proof {
            lemma_lsb_bounds((len + 1) as usize);
            assert(self@.subrange(len as int, len as int) =~= Seq::<G::Elem>::empty());
            g.law_identity(acc);
            assert(gfold(g, Seq::<G::Elem>::empty()) == g.spec_id());
        }
        let bottom = len + 1 - bottom_step;
        while bottom < k
            invariant
                bottom == bt,
                bt <= k <= len,
                acc == g.spec_add(gfold(g, self@.subrange(k as int, len as int)), x),
            decreases k,
        {
            proof {
                lemma_lsb_bounds(k);
                lemma_chain_stays(m, k);
                let cs = cell_start(k as int - 1);
                assert(cs == k - spec_lsb(k));
                assert(self@.subrange(cs, len as int) =~= self@.subrange(cs, k as int)
                    + self@.subrange(k as int, len as int));
                lemma_gfold_concat(g, self@.subrange(cs, k as int), self@.subrange(
                    k as int,
                    len as int,
                ));
                g.law_assoc(
                    self.data@[k - 1],
                    gfold(g, self@.subrange(k as int, len as int)),
                    x,
                );
            }
            let cell = &self.data[k - 1];
            acc = self.group.add(cell, &acc);
            let step = lsb(k);
            k = k - step;
        }
        self.data.push(acc);
        proof {
            self.logical@ = self.logical@.push(x);
            assert forall|c: int| 0 <= c < self.data@.len() implies (#[trigger] self.data@[c])
                == gfold(self.group, self.logical@.subrange(cell_start(c), c + 1)) && 0
                <= cell_start(c) <= c by {
                if c < len {
                    assert(self.data@[c] == old(self).data@[c]);
                    assert(self.logical@.subrange(cell_start(c), c + 1) =~= old(
                        self,
                    ).logical@.subrange(cell_start(c), c + 1));
                } else {
                    assert(c == len);
                    assert(cell_start(c) == bt);
                    assert(self.logical@.subrange(bt as int, c + 1)
                        =~= old(self).logical@.subrange(bt as int, len as int).push(x));
                    lemma_gfold_concat(
                        g,
                        old(self).logical@.subrange(bt as int, len as int),
                        seq![x],
                    );
                    lemma_gfold_one(g, x);
                    assert(old(self).logical@.subrange(bt as int, len as int).push(x) =~= old(
                        self,
                    ).logical@.subrange(bt as int, len as int) + seq![x]);
                    assert(self@.subrange(bt as int, len as int) =~= old(self)@.subrange(
                        bt as int,
                        len as int,
                    ));
                }
            }
        }
    }
}

/// Adding a delta to one value inside a range adds it to the range's fold.
proof fn lemma_gfold_update<G: Magma + Associativity + Commutativity + Identity>(
    g: G,
    s: Seq<G::Elem>,
    lo: int,
    hi: int,
    k: int,
    dx: G::Elem,
)
    requires
        0 <= lo <= k < hi <= s.len(),
    ensures
        gfold(g, s.update(k, g.spec_add(s[k], dx)).subrange(lo, hi)) == g.spec_add(
            gfold(g, s.subrange(lo, hi)),
            dx,
        ),
{
    let s2 = s.update(k, g.spec_add(s[k], dx));
    let a = s.subrange(lo, k);
    let b = s.subrange(k + 1, hi);
    assert(s.subrange(lo, hi) =~= a + (seq![s[k]] + b));
    assert(s2.subrange(lo, hi) =~= a + (seq![g.spec_add(s[k], dx)] + b));
    lemma_gfold_concat(g, a, seq![s[k]] + b);
    lemma_gfold_concat(g, seq![s[k]], b);
    lemma_gfold_concat(g, a, seq![g.spec_add(s[k], dx)] + b);
    lemma_gfold_concat(g, seq![g.spec_add(s[k], dx)], b);
    lemma_gfold_one(g, s[k]);
    lemma_gfold_one(g, g.spec_add(s[k], dx));
    let fa = gfold(g, a);
    let fb = gfold(g, b);
    // shuffle the delta out of the middle with commutativity and
    // associativity
    g.law_assoc(fa, s[k], fb);
    g.law_assoc(fa, g.spec_add(s[k], dx), fb);
    g.law_comm(s[k], dx);
    g.law_assoc(dx, s[k], fb);
    g.law_comm(dx, g.spec_add(s[k], fb));
    g.law_assoc(fa, g.spec_add(s[k], fb), dx);
}

/// An element combined with its inverse yields the identity.
proof fn lemma_add_inv<G: Magma + Identity + Invertibillity>(g: G, c: G::Elem)
    ensures
        g.spec_add(c, g.spec_inv(c)) == g.spec_id(),
{
    g.law_cancel(g.spec_id(), c);
    g.law_identity(c);
}

/// Cancelling a common left operand under a commutative operation.
proof fn lemma_cancel_left<G: Magma + Associativity + Commutativity + Identity + Invertibillity>(
    g: G,
    p: G::Elem,
    x: G::Elem,
    y: G::Elem,
)
    requires
        g.spec_add(x, p) == g.spec_add(y, p),
    ensures
        x == y,
{
    g.law_cancel(x, p);
    g.law_cancel(y, p);
}

impl<G: CommutativeMonoid> FenwickTree<G> {
    /// Combine `dx` onto the value at `i`.
    #[verifier::loop_isolation(false)]
    pub fn update_add(&mut self, i: usize, dx: G::Elem)
        requires
            old(self).wf(),
            i < old(self)@.len(),
        ensures
            final(self).wf(),
            final(self)@ =~= old(self)@.update(
                i as int,
                old(self).spec_group().spec_add(old(self)@[i as int], dx),
            ),
            final(self).spec_group() == old(self).spec_group(),
    {
        let ghost g = self.group;
        let ghost v0 = self.logical@;
        let ghost v1 = v0.update(i as int, g.spec_add(v0[i as int], dx));
        let len = self.data.len();
        proof {
            self.logical@ = v1;
            assert forall|c: int| 0 <= c < len implies (#[trigger] self.data@[c]) == gfold(
                g,
                (if cell_start(c) <= i && i <= c && c >= i {
                    v0
                } else {
                    v1
                }).subrange(cell_start(c), c + 1),
            ) by {
                if !(cell_start(c) <= i && i <= c) {
                    assert(v1.subrange(cell_start(c), c + 1) =~= v0.subrange(
                        cell_start(c),
                        c + 1,
                    ));
                }
            }
        }
        let mut j = i;
        while j < len
            invariant
                i <= j,
                self.logical@ == v1,
                self.data@.len() == len,
                self.group == g,
                j < len ==> cell_start(j as int) <= i <= j,
                forall|c: int|
                    0 <= c < len ==> (#[trigger] self.data@[c]) == gfold(
                        g,
                        (if cell_start(c) <= i && i <= c && c >= j {
                            v0
                        } else {
                            v1
                        }).subrange(cell_start(c), c + 1),
                    ),
            decreases len - j,
        {
            let ghost pre = self.data@;
            let cell = self.group.add(&self.data[j], &dx);
            self.data.set(j, cell);
            proof {
                lemma_gfold_update(g, v0, cell_start(j as int), j + 1, i as int, dx);
                assert(v1 == v0.update(i as int, g.spec_add(v0[i as int], dx)));
            }
            let step = lsb(j + 1);
            proof {
                lemma_lsb_bounds((j + 1) as usize);
            }
            let next = match j.checked_add(step) {
                Some(n) => n,
                None => {
                    proof {
                        assert forall|c: int| 0 <= c < len implies (#[trigger] self.data@[c])
                            == gfold(
                            g,
                            (if cell_start(c) <= i && i <= c && c >= len {
                                v0
                            } else {
                                v1
                            }).subrange(cell_start(c), c + 1),
                        ) by {
                            if c > j && cell_start(c) <= i <= c {
                                lemma_chain_gap((j + 1) as usize, i, c as usize);
                                assert(false);
                            }
                        }
                    }
                    return ;
                },
            };
            proof {
                assert forall|c: int| 0 <= c < len implies (#[trigger] self.data@[c]) == gfold(
                    g,
                    (if cell_start(c) <= i && i <= c && c >= next {
                        v0
                    } else {
                        v1
                    }).subrange(cell_start(c), c + 1),
                ) by {
                    if j < c < next && cell_start(c) <= i <= c {
                        lemma_chain_gap((j + 1) as usize, i, c as usize);
                        assert(false);
                    }
                }
                if next < len {
                    lemma_chain_up((j + 1) as usize, (next + 1) as usize, i);
                }
            }
            if next > len {
                proof {
                    assert forall|c: int| 0 <= c < len implies (#[trigger] self.data@[c])
                        == gfold(
                        g,
                        (if cell_start(c) <= i && i <= c && c >= len {
                            v0
                        } else {
                            v1
                        }).subrange(cell_start(c), c + 1),
                    ) by {
                        if j < c && cell_start(c) <= i <= c {
                            lemma_chain_gap((j + 1) as usize, i, c as usize);
                            assert(false);
                        }
                    }
                }
                j = len;
            } else {
                j = next;
            }
        }
    }

    /// Append values (or drop them) until the length is `size`; new values
    /// equal `x`.
    #[verifier::loop_isolation(false)]
    pub fn resize(&mut self, size: usize, x: G::Elem)
        requires
            old(self).wf(),
            size < usize::MAX,
        ensures
            final(self).wf(),
            final(self)@.len() == size,
            final(self)@.take(vstd::math::min(size as int, old(self)@.len() as int)) =~= old(
                self,
            )@.take(vstd::math::min(size as int, old(self)@.len() as int)),
            forall|q: int| old(self)@.len() <= q < size ==> final(self)@[q] == x,
            final(self).spec_group() == old(self).spec_group(),
    {
        while self.data.len() > size
            invariant
                self.wf(),
                self.group == old(self).group,
                self@.len() >= size ==> self@.take(size as int) =~= old(self)@.take(size as int),
                self@.len() < size ==> self@ =~= old(self)@,
                self@.len() <= old(self)@.len(),
            decreases self@.len(),
        {
            proof {
                assert(self@.drop_last().take(size as int) =~= self@.take(size as int));
            }
            self.pop();
        }
        while self.data.len() < size
            invariant
                self.wf(),
                self.group == old(self).group,
                self@.len() <= size,
                self@.take(vstd::math::min(size as int, old(self)@.len() as int)) =~= old(
                    self,
                )@.take(vstd::math::min(size as int, old(self)@.len() as int)),
                forall|q: int| old(self)@.len() <= q < self@.len() ==> self@[q] == x,
                self@.len() >= vstd::math::min(size as int, old(self)@.len() as int),
            decreases size - self@.len(),
        {
            let ghost pre = self@;
            let id = self.group.id();
            let xi = self.group.add(&x, &id);
            proof {
                self.group.law_identity(x);
            }
            self.push(xi);
            proof {
                assert(self@.take(vstd::math::min(size as int, old(self)@.len() as int))
                    =~= pre.take(vstd::math::min(size as int, old(self)@.len() as int)));
            }
        }
    }
}

impl<G: AbelianGroup> FenwickTree<G> {
    /// Read the value at `i` back out of the cached cell folds.
    #[verifier::loop_isolation(false)]
    pub fn get(&self, i: usize) -> (r: G::Elem)
        requires
            self.wf(),
            i < self@.len(),
        ensures
            r == self@[i as int],
    {
        let n = self.data.len();
        let ghost g = self.group;
        let ghost b = cell_start(i as int);
        let total_cell = &self.data[i];
        let mut x = self.group.add(total_cell, &self.group.id());
        proof {
            g.law_identity(self.data@[i as int]);
            assert(self@.subrange(i as int, i as int) =~= Seq::<G::Elem>::empty());
            g.law_identity(x);
            lemma_gfold_concat(g, self@.subrange(b, i as int), Seq::<G::Elem>::empty());
            assert(self@.subrange(b, i as int) + Seq::<G::Elem>::empty() =~= self@.subrange(
                b,
                i as int,
            ));
        }
        let bottom = cell_start_exec(i);
        let mut k = i;
        while bottom < k
            invariant
                b <= k <= i,
                g.spec_add(x, gfold(g, self@.subrange(k as int, i as int))) == gfold(
                    g,
                    self@.subrange(b, i as int + 1),
                ),
            decreases k,
        {
            proof {
                lemma_lsb_bounds(k);
                lemma_chain_stays((i + 1) as usize, k);
                let cs = cell_start(k as int - 1);
                assert(cs == k - spec_lsb(k));
                assert(self@.subrange(cs, i as int) =~= self@.subrange(cs, k as int)
                    + self@.subrange(k as int, i as int));
                lemma_gfold_concat(g, self@.subrange(cs, k as int), self@.subrange(
                    k as int,
                    i as int,
                ));
                let cellv = self.data@[k - 1];
                let restv = gfold(g, self@.subrange(k as int, i as int));
                lemma_add_inv(g, cellv);
                g.law_comm(g.spec_inv(cellv), cellv);
                g.law_assoc(g.spec_inv(cellv), cellv, restv);
                g.law_assoc(x, g.spec_inv(cellv), g.spec_add(cellv, restv));
                g.law_identity(restv);
            }
            let cell = &self.data[k - 1];
            x = self.group.sub(&x, cell);
            let step = lsb(k);
            k = k - step;
        }
        proof {
            assert(k == b);
            assert(self@.subrange(b, i as int + 1) =~= self@.subrange(b, i as int) + seq![self@[i as int]]);
            lemma_gfold_concat(g, self@.subrange(b, i as int), seq![self@[i as int]]);
            lemma_gfold_one(g, self@[i as int]);
            g.law_comm(x, gfold(g, self@.subrange(b, i as int)));
            g.law_comm(self@[i as int], gfold(g, self@.subrange(b, i as int)));
            lemma_cancel_left(g, gfold(g, self@.subrange(b, i as int)), x, self@[i as int]);
        }
        x
    }

    /// Overwrite the value at `i` with `x`.
    pub fn update_set(&mut self, i: usize, x: G::Elem)
        requires
            old(self).wf(),
            i < old(self)@.len(),
        ensures
            final(self).wf(),
            final(self)@ =~= old(self)@.update(i as int, x),
            final(self).spec_group() == old(self).spec_group(),
    {
        let ghost g = self.group;
        let cur = self.get(i);
        let dx = self.group.sub(&x, &cur);
        proof {
            let vi = old(self)@[i as int];
            g.law_comm(x, g.spec_inv(vi));
            g.law_assoc(vi, g.spec_inv(vi), x);
            lemma_add_inv(g, vi);
            g.law_identity(x);
        }
        self.update_add(i, dx);
    }
}

/// The interval start of cell `c`, computed.
fn cell_start_exec(c: usize) -> (r: usize)
    requires
        c < usize::MAX,
    ensures
        r == cell_start(c as int),
{
    proof {
        lemma_lsb_bounds((c + 1) as usize);
    }
    c + 1 - lsb(c + 1)
}

} // verus!
