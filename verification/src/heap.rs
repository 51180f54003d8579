//! A binary max-heap in one flat array: the parent of cell `c` is cell
//! `(c - 1) / 2`, and every cell compares at most its parent. The contents
//! are modelled as a multiset; `pop` returns a greatest element.

use vstd::multiset::Multiset;
use vstd::std_specs::cmp::PartialOrdSpec;
use vstd::prelude::*;
use vstd::seq_lib::lemma_multiset_commutative;

verus! {

/// `a <= b` under the type's comparison.
pub open spec fn spec_le<T: PartialOrd>(a: T, b: T) -> bool {
    a.partial_cmp_spec(&b) matches Some(
        core::cmp::Ordering::Less
        | core::cmp::Ordering::Equal,
    )
}

/// The type's comparison is a genuine total order that its executable
/// comparison operators follow: every pair is ordered, the order is
/// antisymmetric in the two argument orders, and `<=` is transitive.
pub open spec fn total_order_on<T: PartialOrd>() -> bool {
    &&& T::obeys_partial_cmp_spec()
    &&& forall|a: T, b: T| (#[trigger] a.partial_cmp_spec(&b)) is Some
    &&& forall|a: T, b: T|
        (#[trigger] a.partial_cmp_spec(&b)) == Some(core::cmp::Ordering::Less)
            <==> b.partial_cmp_spec(&a) == Some(core::cmp::Ordering::Greater)
    &&& forall|a: T, b: T|
        (#[trigger] a.partial_cmp_spec(&b)) == Some(core::cmp::Ordering::Equal)
            <==> b.partial_cmp_spec(&a) == Some(core::cmp::Ordering::Equal)
    &&& forall|a: T, b: T, c: T|
        #[trigger] spec_le(a, b) && #[trigger] spec_le(b, c) ==> spec_le(a, c)
}

/// The machine integers satisfy the total-order obligations, so the heap
/// contracts are available for them.
pub proof fn lemma_u64_total_order()
    ensures
        total_order_on::<u64>(),
{
    assert forall|a: u64, b: u64| (#[trigger] a.partial_cmp_spec(&b)) is Some by {}
    assert forall|a: u64, b: u64|
        (#[trigger] a.partial_cmp_spec(&b)) == Some(core::cmp::Ordering::Less)
            <==> b.partial_cmp_spec(&a) == Some(core::cmp::Ordering::Greater) by {}
    assert forall|a: u64, b: u64|
        (#[trigger] a.partial_cmp_spec(&b)) == Some(core::cmp::Ordering::Equal)
            <==> b.partial_cmp_spec(&a) == Some(core::cmp::Ordering::Equal) by {}
    assert forall|a: u64, b: u64, c: u64|
        #[trigger] spec_le(a, b) && #[trigger] spec_le(b, c) implies spec_le(a, c) by {}
}

/// The heap shape: every cell below the root compares at most its parent.
pub open spec fn heap_shape<T: PartialOrd>(s: Seq<T>) -> bool {
    forall|c: int| 1 <= c < s.len() ==> spec_le(#[trigger] s[c], s[(c - 1) / 2])
}

/// In a heap, the root is a greatest element.
pub proof fn lemma_root_max<T: PartialOrd>(s: Seq<T>, c: int)
    requires
        total_order_on::<T>(),
        heap_shape(s),
        0 <= c < s.len(),
    ensures
        spec_le(s[c], s[0]),
    decreases c,
{
    if c == 0 {
        assert(s[0].partial_cmp_spec(&s[0]) is Some);
        assert(spec_le(s[0], s[0])) by {
            if s[0].partial_cmp_spec(&s[0]) == Some(core::cmp::Ordering::Greater) {
                assert(s[0].partial_cmp_spec(&s[0]) == Some(core::cmp::Ordering::Less));
            }
        }
    } else {
        lemma_root_max(s, (c - 1) / 2);
        assert(spec_le(s[c], s[(c - 1) / 2]));
    }
}

/// Inserting an element anywhere inserts it into the multiset.
pub proof fn lemma_insert_multiset<T>(s: Seq<T>, i: int, x: T)
    requires
        0 <= i <= s.len(),
    ensures
        s.insert(i, x).to_multiset() =~= s.to_multiset().insert(x),
{
    assert(s.insert(i, x) =~= s.take(i) + (seq![x] + s.skip(i)));
    assert(s =~= s.take(i) + s.skip(i));
    lemma_multiset_commutative(s.take(i), seq![x] + s.skip(i));
    lemma_multiset_commutative(seq![x], s.skip(i));
    lemma_multiset_commutative(s.take(i), s.skip(i));
    seq![x].to_multiset_ensures();
    assert(seq![x] =~= Seq::<T>::empty().push(x));
    Seq::<T>::empty().to_multiset_ensures();
    assert(Seq::<T>::empty().to_multiset() =~= Multiset::<T>::empty());
}

/// A binary max-heap.
pub struct MaxHeap<T: Ord> {
    data: Vec<T>,
}

/// A min-heap: a max-heap over reversed comparisons.
pub type MinHeap<T> = MaxHeap<core::cmp::Reverse<T>>;

impl<T: Ord> MaxHeap<T> {
    /// The stored elements as a multiset.
    pub closed spec fn ms(&self) -> Multiset<T> {
        self.data@.to_multiset()
    }

    /// The stored elements in array order.
    pub closed spec fn view(&self) -> Seq<T> {
        self.data@
    }

    /// The heap invariant.
    pub closed spec fn wf(&self) -> bool {
        heap_shape(self.data@)
    }

    /// An empty heap.
    pub fn new() -> (r: Self)
        ensures
            r.wf(),
            r@ =~= Seq::<T>::empty(),
            r.ms() =~= Multiset::<T>::empty(),
    {
        let r = MaxHeap { data: Vec::new() };
        proof {
            r.data@.to_multiset_ensures();
        }
        r
    }

    /// An empty heap with room reserved for `capacity` elements.
    pub fn with_capacity(capacity: usize) -> (r: Self)
        ensures
            r.wf(),
            r@ =~= Seq::<T>::empty(),
            r.ms() =~= Multiset::<T>::empty(),
    {
        let r = MaxHeap { data: Vec::with_capacity(capacity) };
        proof {
            r.data@.to_multiset_ensures();
        }
        r
    }

    /// Number of stored elements.
    pub fn len(&self) -> (r: usize)
        ensures
            r == self@.len(),
            r == self.ms().len(),
    {
        proof {
            self.data@.to_multiset_ensures();
        }
        self.data.len()
    }

    /// Reserve room for `additional` more elements.
    pub fn reserve(&mut self, additional: usize)
        requires
            old(self)@.len() + additional <= usize::MAX,
        ensures
            final(self)@ == old(self)@,
            final(self).ms() == old(self).ms(),
            final(self).wf() == old(self).wf(),
    {
        self.data.reserve(additional);
    }

    /// A greatest element, or nothing when the heap is empty.
    pub fn peek(&self) -> (r: Option<&T>)
        requires
            self.wf(),
            total_order_on::<T>(),
        ensures
            match r {
                Some(x) => {
                    &&& self@.len() > 0
                    &&& *x == self@[0]
                    &&& forall|y: T| #[trigger] self.ms().contains(y) ==> spec_le(y, *x)
                },
                None => self@.len() == 0,
            },
    {
        if self.data.len() == 0 {
            None
        } else {
            proof {
                self.data@.to_multiset_ensures();
                assert forall|y: T| #[trigger] self.ms().contains(y) implies spec_le(
                    y,
                    self.data@[0],
                ) by {
                    let c = choose|c: int| 0 <= c < self.data@.len() && self.data@[c] == y;
                    lemma_root_max(self.data@, c);
                }
            }
            Some(&self.data[0])
        }
    }

    /// Swap the cells `i` and `j`.
    fn swap_cells(&mut self, i: usize, j: usize)
        requires
            i < j < old(self).data@.len(),
        ensures
            final(self).data@ =~= old(self).data@.update(i as int, old(self).data@[j as int]).update(
                j as int,
                old(self).data@[i as int],
            ),
            final(self).ms() =~= old(self).ms(),
    {
        let ghost s = self.data@;
        let x = self.data.remove(j);
        let y = self.data.remove(i);
        self.data.insert(i, x);
        self.data.insert(j, y);
        proof {
            assert(self.data@ =~= s.update(i as int, s[j as int]).update(j as int, s[i as int]));
            s.to_multiset_ensures();
            s.remove(j as int).to_multiset_ensures();
            lemma_insert_multiset(s.remove(j as int).remove(i as int), i as int, s[j as int]);
            lemma_insert_multiset(
                s.remove(j as int).remove(i as int).insert(i as int, s[j as int]),
                j as int,
                s[i as int],
            );
            let m0 = s.to_multiset();
            assert(self.ms() =~= m0) by {
                assert(m0.contains(s[j as int]));
                assert(m0.remove(s[j as int]).contains(s[i as int])) by {
                    s.remove(j as int).to_multiset_ensures();
                    assert(s.remove(j as int)[i as int] == s[i as int]);
                    assert(s.remove(j as int).contains(s[i as int]));
                }
            }
        }
    }

    /// Add an element to the heap.
    #[verifier::loop_isolation(false)]
    pub fn push(&mut self, value: T)
        requires
            old(self).wf(),
            total_order_on::<T>(),
        ensures
            final(self).wf(),
            final(self).ms() =~= old(self).ms().insert(value),
            final(self)@.len() == old(self)@.len() + 1,
    {
        proof {
            self.data@.to_multiset_ensures();
        }
        self.data.push(value);
        let mut node = self.data.len() - 1;
        proof {
            self.data@.to_multiset_ensures();
            assert(self.data@ =~= old(self).data@.push(value));
        }
        while node != 0
            invariant
                node < self.data@.len(),
                self.data@.len() == old(self)@.len() + 1,
                self.ms() =~= old(self).ms().insert(value),
                // the heap shape may be broken only at `node`'s own link
                forall|c: int|
                    1 <= c < self.data@.len() && c != node ==> spec_le(
                        #[trigger] self.data@[c],
                        self.data@[(c - 1) / 2],
                    ),
                // and `node`'s children already compare at most its parent
                node >= 1 ==> forall|c: int|
                    1 <= c < self.data@.len() && (c - 1) / 2 == node ==> spec_le(
                        #[trigger] self.data@[c],
                        self.data@[(node - 1) / 2],
                    ),
            decreases node,
        {
            let parent = (node - 1) / 2;
            let go_up = self.data[parent].lt(&self.data[node]);
            if !go_up {
                proof {
                    let s = self.data@;
                    assert(s[parent as int].partial_cmp_spec(&s[node as int]) is Some);
                    assert(spec_le(s[node as int], s[parent as int]));
                }
                return ;
            }
            let ghost s = self.data@;
            self.swap_cells(parent, node);
            proof {
                let s2 = self.data@;
                let p = parent as int;
                let nd = node as int;
                assert(s2 == s.update(p, s[nd]).update(nd, s[p]));
                assert forall|c: int| 1 <= c < s2.len() && c != p implies spec_le(
                    #[trigger] s2[c],
                    s2[(c - 1) / 2],
                ) by {
                    if c == nd {
                    } else if (c - 1) / 2 == nd {
                        assert(spec_le(s[c], s[(nd - 1) / 2]));
                    } else if (c - 1) / 2 == p {
                        assert(spec_le(s[c], s[p]));
                        assert(spec_le(s[p], s[nd]));
                    } else {
                        assert(s2[c] == s[c]);
                        assert(s2[(c - 1) / 2] == s[(c - 1) / 2]);
                    }
                }
                if p >= 1 {
                    assert forall|c: int|
                        1 <= c < s2.len() && (c - 1) / 2 == p implies spec_le(
                        #[trigger] s2[c],
                        s2[(p - 1) / 2],
                    ) by {
                        if c == nd {
                            assert(s2[c] == s[p]);
                            assert(spec_le(s[p], s[(p - 1) / 2]));
                        } else {
                            assert(spec_le(s[c], s[p]));
                            assert(spec_le(s[p], s[(p - 1) / 2]));
                        }
                    }
                }
            }
            node = parent;
        }
    }

    /// Remove and return a greatest element, or nothing when the heap is
    /// empty.
    pub fn pop(&mut self) -> (r: Option<T>)
        requires
            old(self).wf(),
            total_order_on::<T>(),
        ensures
            final(self).wf(),
            match r {
                Some(m) => {
                    &&& old(self)@.len() > 0
                    &&& m == old(self)@[0]
                    &&& final(self).ms() =~= old(self).ms().remove(m)
                    &&& forall|y: T| #[trigger] old(self).ms().contains(y) ==> spec_le(y, m)
                },
                None => {
                    &&& old(self)@.len() == 0
                    &&& *final(self) == *old(self)
                },
            },
    {
        proof {
            self.data@.to_multiset_ensures();
            if self.data@.len() > 0 {
                assert forall|y: T| #[trigger] self.ms().contains(y) implies spec_le(
                    y,
                    self.data@[0],
                ) by {
                    let c = choose|c: int| 0 <= c < self.data@.len() && self.data@[c] == y;
                    lemma_root_max(self.data@, c);
                }
            }
        }
        if self.data.len() == 0 {
            return None;
        }
        let ghost s0 = self.data@;
        if self.data.len() == 1 {
            let x = match self.data.pop() {
                Some(x) => x,
                None => vstd::pervasive::unreached(),
            };
            proof {
                s0.to_multiset_ensures();
                assert(s0 =~= s0.drop_last().push(x));
                s0.drop_last().to_multiset_ensures();
                assert(s0.drop_last() =~= Seq::<T>::empty());
                Seq::<T>::empty().to_multiset_ensures();
            }
            return Some(x);
        }
        let mut last = match self.data.pop() {
            Some(x) => x,
            None => vstd::pervasive::unreached(),
        };
        self.data.set_and_swap(0, &mut last);
        proof {
            let s1 = self.data@;
            s0.to_multiset_ensures();
            assert(s0 =~= s0.drop_last().push(s0.last()));
            s0.drop_last().to_multiset_ensures();
            assert(s1 =~= s0.drop_last().update(0, s0.last()));
            assert(s0.drop_last().update(0, s0.last()) =~= s0.drop_last().remove(0).insert(
                0,
                s0.last(),
            ));
            s0.drop_last().to_multiset_ensures();
            lemma_insert_multiset(s0.drop_last().remove(0), 0, s0.last());
            s1.to_multiset_ensures();
            assert(self.ms() =~= s0.to_multiset().remove(s0[0])) by {
                assert(s0.drop_last().to_multiset().contains(s0[0])) by {
                    assert(s0.drop_last()[0] == s0[0]);
                    assert(s0.drop_last().contains(s0[0]));
                }
            }
        }
        self.sift_down(0);
        Some(last)
    }

    /// Restore the heap shape from `node` downward, assuming it holds
    /// everywhere except possibly at `node`'s links to its children.
    #[verifier::loop_isolation(false)]
    #[verifier::rlimit(60)]
    fn sift_down(&mut self, node: usize)
        requires
            total_order_on::<T>(),
            node < old(self).data@.len() || old(self).data@.len() == 0,
            forall|c: int|
                1 <= c < old(self).data@.len() && (c - 1) / 2 != node ==> spec_le(
                    #[trigger] old(self).data@[c],
                    old(self).data@[(c - 1) / 2],
                ),
            forall|c: int|
                1 <= c < old(self).data@.len() && (c - 1) / 2 == node && node >= 1 ==> spec_le(
                    #[trigger] old(self).data@[c],
                    old(self).data@[(node as int - 1) / 2],
                ),
        ensures
            final(self).wf(),
            final(self).ms() =~= old(self).ms(),
            final(self).data@.len() == old(self).data@.len(),
    {
        if self.data.len() == 0 {
            return ;
        }
        let mut nd = node;
        while nd < self.data.len() / 2
            invariant
                nd < self.data@.len(),
                self.data@.len() == old(self).data@.len(),
                self.ms() =~= old(self).ms(),
                forall|c: int|
                    1 <= c < self.data@.len() && (c - 1) / 2 != nd ==> spec_le(
                        #[trigger] self.data@[c],
                        self.data@[(c - 1) / 2],
                    ),
                forall|c: int|
                    1 <= c < self.data@.len() && (c - 1) / 2 == nd && nd >= 1 ==> spec_le(
                        #[trigger] self.data@[c],
                        self.data@[(nd as int - 1) / 2],
                    ),
            decreases self.data@.len() - nd,
        {
            proof {
                assert(2 * nd + 1 < self.data@.len());
            }
            let left = 2 * nd + 1;
            let right = left + 1;
            let big = if right < self.data.len() {
                if self.data[left].lt(&self.data[right]) {
                    right
                } else {
                    left
                }
            } else {
                left
            };
            let stop = !self.data[nd].lt(&self.data[big]);
            if stop {
                proof {
                    let s = self.data@;
                    assert(s[nd as int].partial_cmp_spec(&s[big as int]) is Some);
                    assert(spec_le(s[big as int], s[nd as int]));
                    assert forall|c: int| 1 <= c < s.len() implies spec_le(
                        #[trigger] s[c],
                        s[(c - 1) / 2],
                    ) by {
                        if (c - 1) / 2 == nd {
                            assert(c == left || c == right);
                            if c != big {
                                assert(spec_le(s[c], s[big as int]));
                            }
                        }
                    }
                }
                return ;
            }
            let ghost s = self.data@;
            self.swap_cells(nd, big);
            proof {
                let s2 = self.data@;
                let n0 = nd as int;
                let b0 = big as int;
                assert(s2 == s.update(n0, s[b0]).update(b0, s[n0]));
                assert(spec_le(s[b0], s[b0]) && spec_le(s[n0], s[n0])) by {
                    assert(s[b0].partial_cmp_spec(&s[b0]) is Some);
                    assert(s[n0].partial_cmp_spec(&s[n0]) is Some);
                }
                assert forall|c: int| 1 <= c < s2.len() && (c - 1) / 2 != b0 implies spec_le(
                    #[trigger] s2[c],
                    s2[(c - 1) / 2],
                ) by {
                    if c == b0 {
                        assert(s2[c] == s[n0]);
                        assert(spec_le(s[n0], s[b0]));
                        assert(s2[(c - 1) / 2] == s[b0]);
                    } else if (c - 1) / 2 == n0 {
                        assert(c == 2 * n0 + 1 || c == 2 * n0 + 2);
                        assert(spec_le(s[c], s[b0]));
                        assert(s2[(c - 1) / 2] == s[b0]);
                    } else if c == n0 {
                        assert(s2[c] == s[b0]);
                        assert((n0 - 1) / 2 != n0 && (n0 - 1) / 2 != b0);
                        assert(s2[(c - 1) / 2] == s[(n0 - 1) / 2]);
                        assert(spec_le(s[b0], s[(n0 - 1) / 2]));
                    } else {
                        assert(s2[c] == s[c]);
                        assert(s2[(c - 1) / 2] == s[(c - 1) / 2]);
                    }
                }
                assert forall|c: int|
                    1 <= c < s2.len() && (c - 1) / 2 == b0 && b0 >= 1 implies spec_le(
                    #[trigger] s2[c],
                    s2[(b0 - 1) / 2],
                ) by {
                    assert(s2[c] == s[c]);
                    assert(spec_le(s[c], s[b0]));
                    assert(s2[(b0 - 1) / 2] == s[b0]);
                }
            }
            nd = big;
        }
        proof {
            let s = self.data@;
            assert forall|c: int| 1 <= c < s.len() implies spec_le(
                #[trigger] s[c],
                s[(c - 1) / 2],
            ) by {
                if (c - 1) / 2 == nd {
                    assert(c >= 2 * nd + 1);
                    assert(2 * nd + 1 >= s.len());
                    assert(false);
                }
            }
        }
    }
}

} // verus!
