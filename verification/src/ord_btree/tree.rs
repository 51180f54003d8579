//! The top-level positional tree: a single root edge, a total element
//! count, and the tree depth. Operations descend from the root using
//! cumulative weights, and mutations resolve overflow and underflow on the
//! way back up, growing or shrinking the root as needed.

use super::model::{
    find_at, find_boundary, lemma_weight_sum_nonneg, offset_of, weight_sum, weights_pos,
};
use super::node::{
    children_ok, interleave, lemma_children_ok_iff, lemma_cwf_weight, lemma_interleave_snoc_child,
    lemma_interleave_snoc_elem, lemma_interleave_split, lemma_interleave_weight, Child, Children,
    Node,
};
use super::store::{NodeElements, B, MAX_NUM_ELEMENTS, MIN_NUM_ELEMENTS};
use super::OrdSize;
use vstd::prelude::*;

verus! {

/// A positional (order-statistics) balanced tree: an ordered container
/// addressed by cumulative element weight rather than by key comparison.
pub struct OrdBTree<K: OrdSize, V> {
    root: Child<K, V>,
    len: usize,
    depth: usize,
}

impl<K: OrdSize, V> OrdBTree<K, V> {
    /// The elements of the tree, in offset order.
    pub closed spec fn view(&self) -> Seq<(K, V)> {
        self.root.cseq(self.depth as int)
    }

    /// Well-formedness: the root subtree is well-formed at exactly `depth`
    /// (so all leaves sit at the same depth), a root node keeps at least
    /// one element, and the element counter matches.
    pub closed spec fn well_formed(&self) -> bool {
        &&& self.root.cwf(self.depth as int)
        &&& (self.root is Node ==> self.root.num_elems() >= 1)
        &&& self.len == self.view().len()
        &&& self.depth >= 1
    }

    /// A fresh empty tree: a single empty leaf at depth 1.
    pub fn new() -> (r: Self)
        ensures
            r.well_formed(),
            r@ =~= Seq::<(K, V)>::empty(),
            r.spec_depth() == 1,
    {
        let r = OrdBTree { root: Child::Leaf(Box::new(NodeElements::new())), len: 0, depth: 1 };
        proof {
            assert(r.view() =~= Seq::<(K, V)>::empty());
        }
        r
    }

    /// The total weight of the tree: the offset just past its last element.
    pub fn size(&self) -> (r: usize)
        requires
            self.well_formed(),
        ensures
            r == weight_sum(self@),
    {
        proof {
            lemma_cwf_weight(self.root, self.depth as int);
        }
        match &self.root {
            Child::Node(n) => n.elements.size,
            Child::Leaf(l) => l.size,
        }
    }

    /// The number of elements.
    pub fn len(&self) -> (r: usize)
        requires
            self.well_formed(),
        ensures
            r == self@.len(),
    {
        self.len
    }

    /// The number of edges from the root to any leaf; 1 for a tree that is
    /// a single leaf.
    pub fn depth(&self) -> (r: usize)
        requires
            self.well_formed(),
        ensures
            r == self.spec_depth(),
            1 <= r,
            2 * (r - 1) <= self@.len(),
    {
        proof {
            if self.root is Node {
                lemma_height_len(self.root, self.depth as int);
            }
        }
        self.depth
    }

    /// The stored depth.
    pub closed spec fn spec_depth(&self) -> usize {
        self.depth
    }
}

/// Containment lookup within one leaf: scan the elements left to right,
/// accumulating weights, until the offset range containing `pos` is found.
#[verifier::loop_isolation(false)]
fn leaf_get<'a, K: OrdSize, V>(l: &'a NodeElements<K, V>, pos: usize) -> (r: (usize, &'a K, &'a V))
    requires
        l.seq_inv(),
        (pos as int) < weight_sum(l.seq()),
        weight_sum(l.seq()) <= usize::MAX,
    ensures
        ({
            let s = l.seq();
            let i = find_at(s, pos as int);
            &&& 0 <= i < s.len()
            &&& r.0 == offset_of(s, i)
            &&& *r.1 == s[i].0
            &&& *r.2 == s[i].1
        }),
{
    let ghost s = l.seq();
    let mut i: usize = 0;
    let mut partial: usize = 0;
    proof {
        assert(s.take(0) =~= Seq::<(K, V)>::empty());
        lemma_weight_sum_nonneg(s);
        super::model::lemma_find_at(s, pos as int);
    }
    loop
        invariant
            i <= s.len(),
            partial == offset_of(s, i as int),
            pos >= partial,
        decreases s.len() - i,
    {
        proof {
            if i as int == s.len() {
                super::model::lemma_offset_total(s);
                assert(false);
            }
        }
        let w = l.keys[i].size();
        proof {
            assert(s[i as int].0 == l.keys@[i as int]);
            super::model::lemma_offset_of_succ(s, i as int);
            super::model::lemma_weight_sum_take_le(s, i as int + 1);
            super::model::lemma_offset_total(s);
        }
        if pos < partial + w {
            proof {
                super::model::lemma_find_at_unique(s, pos as int, i as int);
            }
            return (partial, &l.keys[i], &l.values[i]);
        }
        partial = partial + w;
        i = i + 1;
    }
}

/// Containment lookup within a node's subtree: scan children and separator
/// elements left to right, descending into the child whose range contains
/// `pos`, or returning the separator whose own range does.
#[verifier::loop_isolation(false)]
fn node_get<'a, K: OrdSize, V>(n: &'a Node<K, V>, pos: usize, Ghost(h): Ghost<int>) -> (r: (
    usize,
    &'a K,
    &'a V,
))
    requires
        n.node_wf(h),
        (pos as int) < n.elements.size,
    ensures
        ({
            let s = n.node_seq(h);
            let i = find_at(s, pos as int);
            &&& 0 <= i < s.len()
            &&& r.0 == offset_of(s, i)
            &&& *r.1 == s[i].0
            &&& *r.2 == s[i].1
        }),
    decreases h,
{
    let ghost s = n.node_seq(h);
    let ghost cs = n.cs();
    let ghost es = n.es();
    proof {
        lemma_interleave_weight(cs, es, h, MIN_NUM_ELEMENTS as int);
        lemma_children_ok_iff(cs, h, MIN_NUM_ELEMENTS as int);
        super::model::lemma_find_at(s, pos as int);
        assert(cs.take(0) =~= Seq::<Child<K, V>>::empty());
        assert(es.take(0) =~= Seq::<(K, V)>::empty());
    }
    let mut i: usize = 0;
    let mut partial: usize = 0;
    loop
        invariant
            i <= es.len(),
            partial == weight_sum(interleave(cs.take(i as int), es.take(i as int), h)),
            pos >= partial,
        decreases es.len() - i,
    {
        let ghost ii = i as int;
        let ghost a = interleave(cs.take(ii), es.take(ii), h);
        proof {
            lemma_interleave_split(cs, es, h, ii);
            lemma_cwf_weight(cs[ii], h - 1);
        }
        let ghost cseq_i = cs[ii].cseq(h - 1);
        let ghost tail = if ii < es.len() {
            seq![es[ii]] + interleave(cs.skip(ii + 1), es.skip(ii + 1), h)
        } else {
            Seq::<(K, V)>::empty()
        };
        proof {
            assert(s == a + cseq_i + tail);
            assert(s =~= a + (cseq_i + tail));
            super::model::lemma_weights_pos_concat(a, cseq_i + tail);
            super::model::lemma_weights_pos_concat(cseq_i, tail);
            super::model::lemma_weight_sum_nonneg(tail);
            super::model::lemma_weight_sum_concat(a, cseq_i + tail);
            super::model::lemma_weight_sum_concat(cseq_i, tail);
        }
        let csz = n.children.size_at(i);
        if pos < partial + csz {
            proof {
                super::model::lemma_find_at_concat(a, cseq_i + tail, pos as int);
                super::model::lemma_find_at_concat(cseq_i, tail, pos as int - partial);
                let j = find_at(cseq_i, pos as int - partial);
                super::model::lemma_find_at(cseq_i, pos as int - partial);
                super::model::lemma_offset_concat(a, cseq_i + tail, a.len() + j);
                super::model::lemma_offset_concat(cseq_i, tail, j);
                assert((cseq_i + tail)[j] == cseq_i[j]);
                super::model::lemma_weight_sum_take_le(cseq_i, j);
            }
            proof {
                let j = find_at(cseq_i, pos as int - partial);
                super::model::lemma_offset_total(a);
                super::model::lemma_offset_zero(cseq_i);
                super::model::lemma_offset_zero(cseq_i + tail);
                assert(find_at(s, pos as int) == a.len() + j);
                assert(offset_of(s, a.len() + j) == partial + offset_of(cseq_i, j));
                assert(s[a.len() + j] == cseq_i[j]);
            }
            match &n.children {
                Children::Nodes(v) => {
                    proof {
                        assert(cs[ii] == Child::<K, V>::Node(v@[ii]));
                        assert(cseq_i == v@[ii].node_seq(h - 1));
                        assert(v@[ii].node_wf(h - 1));
                    }
                    let (off, rk, rv) = node_get(&v[i], pos - partial, Ghost(h - 1));
                    return (partial + off, rk, rv);
                },
                Children::Leafs(v) => {
                    proof {
                        assert(cs[ii] == Child::<K, V>::Leaf(v@[ii]));
                        assert(cseq_i == v@[ii].seq());
                    }
                    let (off, rk, rv) = leaf_get(&v[i], pos - partial);
                    return (partial + off, rk, rv);
                },
            }
        }
        proof {
            if ii == es.len() {
                assert(tail =~= Seq::<(K, V)>::empty());
                super::model::lemma_weight_sum_concat(a, cseq_i + tail);
                super::model::lemma_weight_sum_concat(cseq_i, tail);
                assert(false);
            }
        }
        let w = n.elements.keys[i].size();
        let ghost rest = interleave(cs.skip(ii + 1), es.skip(ii + 1), h);
        proof {
            assert(es[ii].0 == n.elements.keys@[ii]);
            super::model::lemma_weight_sum_concat(a, cseq_i);
            assert(weights_pos(a + cseq_i)) by {
                super::model::lemma_weights_pos_concat(a, cseq_i);
            }
            assert(tail == seq![es[ii]] + rest);
            super::model::lemma_weight_sum_concat(seq![es[ii]], rest);
            super::model::lemma_weight_sum_one(es[ii]);
            super::model::lemma_weights_pos_concat(seq![es[ii]], rest);
            super::model::lemma_weight_sum_nonneg(rest);
        }
        if pos < partial + csz + w {
            proof {
                let m = a.len() + cseq_i.len() as int;
                let rest2 = seq![es[ii]] + interleave(cs.skip(ii + 1), es.skip(ii + 1), h);
                assert(s =~= (a + cseq_i) + rest2);
                super::model::lemma_offset_concat(a + cseq_i, rest2, m);
                super::model::lemma_offset_total(a + cseq_i);
                assert(offset_of(s, m) == partial + csz) by {
                    assert((a + cseq_i).take(m) =~= a + cseq_i);
                }
                assert(s[m] == es[ii]);
                super::model::lemma_find_at_unique(s, pos as int, m);
            }
            return (partial + csz, &n.elements.keys[i], &n.elements.values[i]);
        }
        proof {
            lemma_interleave_snoc_child(cs.take(ii), es.take(ii), h, cs[ii]);
            assert(cs.take(ii).push(cs[ii]) =~= cs.take(ii + 1));
            lemma_interleave_snoc_elem(cs.take(ii + 1), es.take(ii), h, es[ii]);
            assert(es.take(ii).push(es[ii]) =~= es.take(ii + 1));
            assert(interleave(cs.take(ii + 1), es.take(ii + 1), h) == a + cseq_i + seq![es[ii]]);
            super::model::lemma_weight_sum_concat(a + cseq_i, seq![es[ii]]);
            super::model::lemma_weight_sum_one(es[ii]);
            // the grown prefix still weighs at most the whole subtree
            super::model::lemma_weight_sum_concat(
                a + cseq_i + seq![es[ii]],
                interleave(cs.skip(ii + 1), es.skip(ii + 1), h),
            );
            assert(s =~= (a + cseq_i + seq![es[ii]]) + interleave(
                cs.skip(ii + 1),
                es.skip(ii + 1),
                h,
            ));
            assert(weights_pos(interleave(cs.skip(ii + 1), es.skip(ii + 1), h))) by {
                super::model::lemma_weights_pos_concat(
                    a + cseq_i + seq![es[ii]],
                    interleave(cs.skip(ii + 1), es.skip(ii + 1), h),
                );
            }
            super::model::lemma_weight_sum_nonneg(
                interleave(cs.skip(ii + 1), es.skip(ii + 1), h),
            );
        }
        partial = partial + csz + w;
        i = i + 1;
    }
}

impl<K: OrdSize, V> OrdBTree<K, V> {
    /// Look up the element whose offset range contains `offset`: returns
    /// the element's start offset and its key and value, or nothing when
    /// `offset` lies at or past the total weight of the tree.
    pub fn get(&self, offset: usize) -> (r: Option<(usize, &K, &V)>)
        requires
            self.well_formed(),
        ensures
            match r {
                Some((start, k, v)) => {
                    let i = find_at(self@, offset as int);
                    &&& (offset as int) < weight_sum(self@)
                    &&& 0 <= i < self@.len()
                    &&& start == offset_of(self@, i)
                    &&& *k == self@[i].0
                    &&& *v == self@[i].1
                },
                None => (offset as int) >= weight_sum(self@),
            },
    {
        let total = self.size();
        if offset >= total {
            return None;
        }
        proof {
            lemma_cwf_weight(self.root, self.depth as int);
        }
        match &self.root {
            Child::Node(n) => {
                let (start, k, v) = node_get(n, offset, Ghost(self.depth as int));
                Some((start, k, v))
            },
            Child::Leaf(l) => {
                let (start, k, v) = leaf_get(l, offset);
                Some((start, k, v))
            },
        }
    }
}

/// A lazy, restartable, double-ended traversal of a tree. Two cursors walk
/// the tree by offset: the forward cursor sits at the start offset of the
/// next element, the backward cursor just past the last remaining element.
/// Each step looks the element up from the root, so the iterator borrows
/// the tree only immutably and can be recreated at will.
pub struct BTreeIter<'a, K: OrdSize, V> {
    tree: &'a OrdBTree<K, V>,
    front: usize,
    back: usize,
    remaining: usize,
    front_rank: Ghost<int>,
    back_rank: Ghost<int>,
}

impl<'a, K: OrdSize, V> BTreeIter<'a, K, V> {
    /// Well-formedness: both cursors sit on element boundaries of a
    /// well-formed tree and have not crossed.
    pub closed spec fn wf(&self) -> bool {
        &&& self.tree.well_formed()
        &&& 0 <= self.front_rank@ <= self.back_rank@ <= self.tree@.len()
        &&& self.front == offset_of(self.tree@, self.front_rank@)
        &&& self.back == offset_of(self.tree@, self.back_rank@)
        &&& self.remaining == self.back_rank@ - self.front_rank@
    }

    /// The whole sequence being traversed.
    pub closed spec fn full(&self) -> Seq<(K, V)> {
        self.tree@
    }

    /// The elements not yet yielded from either end.
    pub closed spec fn remaining_seq(&self) -> Seq<(K, V)> {
        self.tree@.subrange(self.front_rank@, self.back_rank@)
    }

    /// How many elements are left to yield.
    pub fn len(&self) -> (r: usize)
        requires
            self.wf(),
        ensures
            r == self.remaining_seq().len(),
    {
        self.remaining
    }

    /// Yield the next element from the front, or nothing when the cursors
    /// have met.
    pub fn next(&mut self) -> (r: Option<(&'a K, &'a V)>)
        requires
            old(self).wf(),
        ensures
            final(self).wf(),
            final(self).full() == old(self).full(),
            match r {
                Some((k, v)) => {
                    &&& old(self).remaining_seq().len() > 0
                    &&& *k == old(self).remaining_seq()[0].0
                    &&& *v == old(self).remaining_seq()[0].1
                    &&& final(self).remaining_seq() =~= old(self).remaining_seq().skip(1)
                },
                None => {
                    &&& old(self).remaining_seq().len() == 0
                    &&& final(self).remaining_seq() == old(self).remaining_seq()
                },
            },
    {
        if self.remaining == 0 {
            return None;
        }
        let ghost s = self.tree@;
        let ghost fr = self.front_rank@;
        proof {
            lemma_cwf_weight(self.tree.root, self.tree.depth as int);
            super::model::lemma_get_at_start_offset(s, fr);
        }
        match self.tree.get(self.front) {
            Some((start, k, v)) => {
                proof {
                    assert(find_at(s, self.front as int) == fr);
                    super::model::lemma_offset_of_succ(s, fr);
                    super::model::lemma_weight_sum_take_le(s, fr + 1);
                    super::model::lemma_offset_total(s);
                    if fr + 1 < self.back_rank@ {
                        super::model::lemma_offset_strict(s, fr + 1, self.back_rank@);
                    }
                    assert(s[fr] == self.remaining_seq()[0]);
                }
                let w = k.size();
                self.front = self.front + w;
                self.remaining = self.remaining - 1;
                proof {
                    self.front_rank@ = fr + 1;
                }
                Some((k, v))
            },
            None => {
                proof {
                    super::model::lemma_offset_strict(s, fr, self.back_rank@);
                    super::model::lemma_offset_total(s);
                    if self.back_rank@ < s.len() {
                        super::model::lemma_offset_strict(s, self.back_rank@, s.len() as int);
                    }
                    assert(false);
                }
                vstd::pervasive::unreached()
            },
        }
    }

    /// Yield the next element from the back, or nothing when the cursors
    /// have met.
    pub fn next_back(&mut self) -> (r: Option<(&'a K, &'a V)>)
        requires
            old(self).wf(),
        ensures
            final(self).wf(),
            final(self).full() == old(self).full(),
            match r {
                Some((k, v)) => {
                    &&& old(self).remaining_seq().len() > 0
                    &&& *k == old(self).remaining_seq().last().0
                    &&& *v == old(self).remaining_seq().last().1
                    &&& final(self).remaining_seq() =~= old(self).remaining_seq().drop_last()
                },
                None => {
                    &&& old(self).remaining_seq().len() == 0
                    &&& final(self).remaining_seq() == old(self).remaining_seq()
                },
            },
    {
        if self.remaining == 0 {
            return None;
        }
        let ghost s = self.tree@;
        let ghost br = self.back_rank@;
        proof {
            lemma_cwf_weight(self.tree.root, self.tree.depth as int);
            super::model::lemma_offset_of_succ(s, br - 1);
            super::model::lemma_offset_strict(s, self.front_rank@, br);
            super::model::lemma_offset_total(s);
            if br < s.len() {
                super::model::lemma_offset_strict(s, br, s.len() as int);
            }
            super::model::lemma_weight_sum_nonneg(s);
            super::model::lemma_find_at_unique(s, self.back as int - 1, br - 1);
            super::model::lemma_weight_sum_take_le(s, br - 1);
            if self.front_rank@ < br - 1 {
                super::model::lemma_offset_strict(s, self.front_rank@, br - 1);
            }
        }
        match self.tree.get(self.back - 1) {
            Some((start, k, v)) => {
                proof {
                    assert(find_at(s, self.back as int - 1) == br - 1);
                    assert(start == offset_of(s, br - 1));
                    assert(s[br - 1] == self.remaining_seq().last());
                }
                self.back = start;
                self.remaining = self.remaining - 1;
                proof {
                    self.back_rank@ = br - 1;
                }
                Some((k, v))
            },
            None => {
                proof {
                    assert(false);
                }
                vstd::pervasive::unreached()
            },
        }
    }
}

impl<K: OrdSize, V> OrdBTree<K, V> {
    /// A fresh double-ended traversal over the whole tree.
    pub fn iter<'a>(&'a self) -> (it: BTreeIter<'a, K, V>)
        requires
            self.well_formed(),
        ensures
            it.wf(),
            it.full() == self@,
            it.remaining_seq() =~= self@,
    {
        proof {
            super::model::lemma_offset_zero(self@);
            super::model::lemma_offset_total(self@);
        }
        let total = self.size();
        BTreeIter {
            tree: self,
            front: 0,
            back: total,
            remaining: self.len,
            front_rank: Ghost(0),
            back_rank: Ghost(self@.len() as int),
        }
    }
}

/// The outcome of an insertion into a subtree: either the subtree absorbed
/// the element, or it split, handing a promoted separator and a fresh right
/// sibling up to the caller.
enum InsertDown<K: OrdSize, V> {
    Done,
    Split(K, V, Child<K, V>),
}

/// Insert into a leaf at a boundary offset, splitting the leaf if it is at
/// capacity.
#[verifier::loop_isolation(false)]
fn leaf_insert<K: OrdSize, V>(l: &mut NodeElements<K, V>, pos: usize, key: K, value: V) -> (r:
    InsertDown<K, V>)
    requires
        old(l).leaf_wf(),
        find_boundary(old(l).seq(), pos as int) is Some,
        key.spec_size() >= 1,
        old(l).size + key.spec_size() <= usize::MAX,
    ensures
        ({
            let s = old(l).seq();
            let j = find_boundary(s, pos as int)->0;
            let grown = s.insert(j, (key, value));
            match r {
                InsertDown::Done => {
                    &&& grown.len() <= MAX_NUM_ELEMENTS
                    &&& final(l).seq() =~= grown
                    &&& final(l).leaf_wf()
                    &&& final(l).size == old(l).size + key.spec_size()
                },
                InsertDown::Split(k2, v2, rc) => {
                    &&& grown.len() > MAX_NUM_ELEMENTS
                    &&& rc is Leaf
                    &&& final(l).seq() + seq![(k2, v2)] + rc.cseq(1) == grown
                    &&& final(l).leaf_wf()
                    &&& rc.cwf(1)
                    &&& final(l).seq().len() == B
                    &&& rc.num_elems() == B - 1
                    &&& (k2, v2) == grown[B as int]
                    &&& k2.spec_size() >= 1
                    &&& final(l).size + k2.spec_size() + rc.csize() == old(l).size
                        + key.spec_size()
                },
            }
        }),
    decreases old(l).seq().len(),
{
    let ghost s = l.seq();
    proof {
        super::model::lemma_find_boundary(s, pos as int);
        lemma_weight_sum_nonneg(s);
        super::model::lemma_offset_total(s);
    }
    let ghost j = find_boundary(s, pos as int)->0;
    let mut i: usize = 0;
    let mut partial: usize = 0;
    loop
        invariant
            *l == *old(l),
            i <= s.len(),
            partial == offset_of(s, i as int),
            pos >= partial,
            i <= j,
        decreases s.len() - i,
    {
        if pos == partial {
            proof {
                super::model::lemma_boundary_at(s, i as int);
                assert(j == i);
            }
            let overflow = l.insert(i, key, value);
            proof {
                super::model::lemma_weight_sum_insert(s, i as int, (key, value));
                super::store::lemma_ins_weights_pos(s, i as int, (key, value));
            }
            match overflow {
                None => {
                    return InsertDown::Done;
                },
                Some((k2, v2)) => {
                    proof {
                        let grown = s.insert(j, (key, value));
                        assert(l.seq() =~= grown.drop_last());
                        assert((k2, v2) == grown.last());
                        assert(grown =~= grown.drop_last().push(grown.last()));
                        super::model::lemma_weight_sum_push(grown.drop_last(), grown.last());
                        super::model::lemma_elem_weight_le(grown, grown.len() - 1);
                    }
                    let mut right = NodeElements::new();
                    let sep = l.split(k2, v2, &mut right);
                    proof {
                        let grown = s.insert(j, (key, value));
                        assert(grown.drop_last().push(grown.last()) =~= grown);
                        assert(l.seq() + seq![sep] + right.seq() =~= grown);
                        assert(grown =~= grown.take(B as int) + (seq![grown[B as int]]
                            + grown.skip(B as int + 1)));
                        super::model::lemma_weight_sum_concat(
                            grown.take(B as int),
                            seq![grown[B as int]] + grown.skip(B as int + 1),
                        );
                        super::model::lemma_weight_sum_concat(
                            seq![grown[B as int]],
                            grown.skip(B as int + 1),
                        );
                        super::model::lemma_weight_sum_one(grown[B as int]);
                    }
                    let ghost rsnap = right;
                    let rc = Child::Leaf(Box::new(right));
                    proof {
                        assert(rc.cseq(1) == rsnap.seq());
                    }
                    return InsertDown::Split(sep.0, sep.1, rc);
                },
            }
        }
        proof {
            if i as int == s.len() {
                assert(false);
            }
            super::model::lemma_offset_of_succ(s, i as int);
            super::model::lemma_weight_sum_take_le(s, i as int + 1);
        }
        let w = l.keys[i].size();
        proof {
            assert(s[i as int].0 == l.keys@[i as int]);
            if pos < partial + w {
                super::model::lemma_find_boundary(s, pos as int);
                super::model::lemma_find_at_unique(s, pos as int, i as int);
                super::model::lemma_boundary_via_find_at(s, pos as int);
                assert(false);
            }
            if j <= i {
                assert(offset_of(s, j) == pos);
                if j < i {
                    super::model::lemma_offset_strict(s, j, i as int);
                }
                assert(false);
            }
        }
        partial = partial + w;
        i = i + 1;
    }
}

/// Insert into a node's subtree at a boundary offset, splitting this node
/// if the insertion overflows it.
#[verifier::loop_isolation(false)]
#[verifier::rlimit(100)]
fn node_insert<K: OrdSize, V>(
    n: &mut Node<K, V>,
    pos: usize,
    key: K,
    value: V,
    Ghost(h): Ghost<int>,
) -> (r: InsertDown<K, V>)
    requires
        old(n).node_wf(h),
        pos <= old(n).elements.size,
        find_boundary(old(n).node_seq(h), pos as int) is Some,
        key.spec_size() >= 1,
        old(n).elements.size + key.spec_size() <= usize::MAX,
    ensures
        ({
            let s = old(n).node_seq(h);
            let j = find_boundary(s, pos as int)->0;
            let grown = s.insert(j, (key, value));
            match r {
                InsertDown::Done => {
                    &&& final(n).node_seq(h) =~= grown
                    &&& final(n).node_wf(h)
                    &&& old(n).es().len() <= final(n).es().len() <= old(n).es().len() + 1
                    &&& final(n).elements.size == old(n).elements.size + key.spec_size()
                },
                InsertDown::Split(k2, v2, rc) => {
                    &&& rc is Node
                    &&& final(n).node_seq(h) + seq![(k2, v2)] + rc.cseq(h) == grown
                    &&& final(n).node_wf(h)
                    &&& rc.cwf(h)
                    &&& final(n).es().len() == B
                    &&& rc.num_elems() == B - 1
                    &&& k2.spec_size() >= 1
                    &&& final(n).elements.size + k2.spec_size() + rc.csize() == old(
                        n,
                    ).elements.size + key.spec_size()
                },
            }
        }),
    decreases h, 1int,
{
    let kw = key.size();
    let ghost s = n.node_seq(h);
    let ghost cs = n.cs();
    let ghost es = n.es();
    proof {
        lemma_interleave_weight(cs, es, h, MIN_NUM_ELEMENTS as int);
        lemma_children_ok_iff(cs, h, MIN_NUM_ELEMENTS as int);
        super::model::lemma_find_boundary(s, pos as int);
        assert(cs.take(0) =~= Seq::<Child<K, V>>::empty());
        assert(es.take(0) =~= Seq::<(K, V)>::empty());
    }
    let ghost jg = find_boundary(s, pos as int)->0;
    let mut i: usize = 0;
    let mut partial: usize = 0;
    loop
        invariant
            *n == *old(n),
            i <= es.len(),
            partial == weight_sum(interleave(cs.take(i as int), es.take(i as int), h)),
            pos >= partial,
        decreases es.len() - i,
    {
        let ghost ii = i as int;
        let ghost a = interleave(cs.take(ii), es.take(ii), h);
        proof {
            lemma_interleave_split(cs, es, h, ii);
            lemma_cwf_weight(cs[ii], h - 1);
        }
        let ghost cseq_i = cs[ii].cseq(h - 1);
        let ghost tail = if ii < es.len() {
            seq![es[ii]] + interleave(cs.skip(ii + 1), es.skip(ii + 1), h)
        } else {
            Seq::<(K, V)>::empty()
        };
        proof {
            assert(s == a + cseq_i + tail);
            assert(s =~= a + (cseq_i + tail));
            super::model::lemma_weights_pos_concat(a, cseq_i + tail);
            super::model::lemma_weights_pos_concat(cseq_i, tail);
            super::model::lemma_weight_sum_nonneg(tail);
            super::model::lemma_weight_sum_concat(a, cseq_i + tail);
            super::model::lemma_weight_sum_concat(cseq_i, tail);
        }
        let csz = n.children.size_at(i);
        if pos <= partial + csz {
            // the insertion point lies in (or at either edge of) child i
            proof {
                super::model::lemma_find_boundary_concat(a, cseq_i + tail, pos as int);
                super::model::lemma_find_boundary_concat(cseq_i, tail, pos as int - partial);
                if pos == partial {
                    super::model::lemma_boundary_at(a, a.len() as int);
                    super::model::lemma_offset_total(a);
                    assert(find_boundary(cseq_i, 0) == Some(0int));
                    assert(jg == a.len());
                } else {
                    assert(find_boundary(s, pos as int) == Some(
                        a.len() + find_boundary(cseq_i, pos as int - partial)->0,
                    ));
                }
                assert(find_boundary(cseq_i, pos as int - partial) is Some);
                assert(jg == a.len() + find_boundary(cseq_i, pos as int - partial)->0);
                super::model::lemma_find_boundary(cseq_i, pos as int - partial);
            }
            let ghost jc = find_boundary(cseq_i, pos as int - partial)->0;
            let down = node_insert_child(n, i, pos - partial, key, value, Ghost(h));
            let ghost grown_c = cseq_i.insert(jc, (key, value));
            proof {
                assert(s.insert(jg, (key, value)) =~= a + grown_c + tail);
            }
            match down {
                InsertDown::Done => {
                    proof {
                        assert(n.node_seq(h) =~= s.insert(jg, (key, value)));
                    }
                    return InsertDown::Done;
                },
                InsertDown::Split(k3, v3, rc2) => {
                    proof {
                        assert(n.node_seq(h) + seq![(k3, v3)] + rc2.cseq(h) =~= s.insert(
                            jg,
                            (key, value),
                        ));
                    }
                    return InsertDown::Split(k3, v3, rc2);
                },
            }
        }
        proof {
            if ii == es.len() {
                assert(tail =~= Seq::<(K, V)>::empty());
                assert(false);
            }
        }
        let w = n.elements.keys[i].size();
        let ghost rest = interleave(cs.skip(ii + 1), es.skip(ii + 1), h);
        proof {
            assert(es[ii].0 == n.elements.keys@[ii]);
            super::model::lemma_weight_sum_concat(a, cseq_i);
            assert(weights_pos(a + cseq_i)) by {
                super::model::lemma_weights_pos_concat(a, cseq_i);
            }
            assert(tail == seq![es[ii]] + rest);
            super::model::lemma_weight_sum_concat(seq![es[ii]], rest);
            super::model::lemma_weight_sum_one(es[ii]);
            super::model::lemma_weights_pos_concat(seq![es[ii]], rest);
            super::model::lemma_weight_sum_nonneg(rest);
        }
        proof {
            if pos < partial + csz + w {
                let m = a.len() + cseq_i.len() as int;
                let rest2 = seq![es[ii]] + rest;
                assert(s =~= (a + cseq_i) + rest2);
                super::model::lemma_offset_concat(a + cseq_i, rest2, m);
                super::model::lemma_offset_total(a + cseq_i);
                assert(offset_of(s, m) == partial + csz) by {
                    assert((a + cseq_i).take(m) =~= a + cseq_i);
                }
                assert(s[m] == es[ii]);
                super::model::lemma_find_at_unique(s, pos as int, m);
                super::model::lemma_boundary_via_find_at(s, pos as int);
                assert(false);
            }
        }
        proof {
            lemma_interleave_snoc_child(cs.take(ii), es.take(ii), h, cs[ii]);
            assert(cs.take(ii).push(cs[ii]) =~= cs.take(ii + 1));
            lemma_interleave_snoc_elem(cs.take(ii + 1), es.take(ii), h, es[ii]);
            assert(es.take(ii).push(es[ii]) =~= es.take(ii + 1));
            assert(interleave(cs.take(ii + 1), es.take(ii + 1), h) == a + cseq_i + seq![es[ii]]);
            super::model::lemma_weight_sum_concat(a + cseq_i, seq![es[ii]]);
            super::model::lemma_weight_sum_concat(a + cseq_i + seq![es[ii]], rest);
            assert(s =~= (a + cseq_i + seq![es[ii]]) + rest);
        }
        partial = partial + csz + w;
        i = i + 1;
    }
}



impl<K: OrdSize, V> OrdBTree<K, V> {
    /// Insert `(key, value)` at `offset`. The offset must align exactly
    /// with an existing element boundary (or the end of the tree): if it
    /// does, the element is inserted there and the call returns `Ok`;
    /// otherwise nothing changes and the rejected pair comes back in `Err`.
    #[verifier::rlimit(100)]
    pub fn insert(&mut self, offset: usize, key: K, value: V) -> (r: Result<(), (K, V)>)
        requires
            old(self).well_formed(),
            key.spec_size() >= 1,
            weight_sum(old(self)@) + key.spec_size() <= usize::MAX,
        ensures
            final(self).well_formed(),
            match find_boundary(old(self)@, offset as int) {
                Some(j) => r is Ok && final(self)@ =~= old(self)@.insert(j, (key, value)),
                None => {
                    &&& r == Err::<(), (K, V)>((key, value))
                    &&& final(self)@ == old(self)@
                    &&& final(self).spec_depth() == old(self).spec_depth()
                },
            },
    {
        let ghost s0 = self@;
        proof {
            lemma_cwf_weight(self.root, self.depth as int);
            lemma_weight_sum_nonneg(s0);
            super::model::lemma_weight_sum_len(s0);
        }
        let total = self.size();
        if offset > total {
            proof {
                super::model::lemma_boundary_via_find_at(s0, offset as int);
            }
            return Err((key, value));
        }
        if offset < total {
            let checked = self.get(offset);
            proof {
                super::model::lemma_boundary_via_find_at(s0, offset as int);
            }
            match checked {
                Some((start, _, _)) => {
                    if start != offset {
                        return Err((key, value));
                    }
                },
                None => {},
            }
        } else {
            proof {
                super::model::lemma_boundary_via_find_at(s0, offset as int);
            }
        }
        let ghost jg = find_boundary(s0, offset as int)->0;
        let ghost h0 = self.depth as int;
        let down: InsertDown<K, V> = match &mut self.root {
            Child::Node(n) => node_insert(n, offset, key, value, Ghost(h0)),
            Child::Leaf(l) => {
                proof {
                    assert(l.seq() == s0);
                }
                leaf_insert(l, offset, key, value)
            },
        };
        match down {
            InsertDown::Done => {
                self.len = self.len + 1;
                proof {
                    assert(self@ =~= s0.insert(jg, (key, value)));
                }
                Ok(())
            },
            InsertDown::Split(k2, v2, rc) => {
                proof {
                    if old(self).root is Node {
                        lemma_height_len(old(self).root, h0);
                    }
                }
                let mut left: Child<K, V> = Child::Leaf(Box::new(NodeElements::new()));
                core::mem::swap(&mut self.root, &mut left);
                let ghost gleft = left;
                let mut new_root = Node::new(left);
                proof {
                    lemma_cwf_weight(gleft, h0);
                    lemma_cwf_weight(rc, h0);
                }
                let overflow = new_root.push(k2, v2, rc);
                proof {
                    assert(overflow is None);
                }
                self.root = Child::Node(new_root);
                self.depth = self.depth + 1;
                self.len = self.len + 1;
                proof {
                    let d1 = h0 + 1;
                    let cs1 = seq![gleft].push(rc);
                    let es1 = Seq::<(K, V)>::empty().push((k2, v2));
                    assert(self.root->Node_0.cs() =~= cs1);
                    assert(self.root->Node_0.es() =~= es1);
                    // the new root's layout reads: left subtree, separator, right subtree
                    assert(cs1[0] == gleft && cs1[1] == rc);
                    assert(es1[0] == (k2, v2));
                    assert(cs1.skip(1) =~= seq![rc]);
                    assert(es1.skip(1) =~= Seq::<(K, V)>::empty());
                    assert(seq![rc].skip(1) =~= Seq::<Child<K, V>>::empty());
                    assert(interleave(cs1.skip(1), es1.skip(1), d1) == rc.cseq(h0));
                    assert(self.root->Node_0.node_seq(d1) == gleft.cseq(h0) + seq![(k2, v2)]
                        + rc.cseq(h0));
                    assert(self@ =~= s0.insert(jg, (key, value)));
                    // the new root is well-formed one level up
                    lemma_children_ok_iff(cs1, d1, MIN_NUM_ELEMENTS as int);
                    assert forall|q: int| 0 <= q < cs1.len() implies (#[trigger] cs1[q]).cwf(
                        d1 - 1,
                    ) && MIN_NUM_ELEMENTS <= cs1[q].num_elems() by {
                        if q == 0 {
                            assert(cs1[q] == gleft);
                        } else {
                            assert(cs1[q] == rc);
                        }
                    }
                }
                Ok(())
            },
        }
    }
}

/// Insert into child `i` of this node at child-relative boundary offset
/// `rel`, absorbing any split the child hands back up; if absorbing it
/// overflows this node too, split this node in turn.
#[verifier::rlimit(100)]
fn node_insert_child<K: OrdSize, V>(
    n: &mut Node<K, V>,
    i: usize,
    rel: usize,
    key: K,
    value: V,
    Ghost(h): Ghost<int>,
) -> (r: InsertDown<K, V>)
    requires
        h >= 2,
        old(n).node_wf(h),
        i < old(n).cs().len(),
        find_boundary(old(n).cs()[i as int].cseq(h - 1), rel as int) is Some,
        rel <= old(n).cs()[i as int].csize(),
        key.spec_size() >= 1,
        old(n).elements.size + key.spec_size() <= usize::MAX,
    ensures
        ({
            let cs = old(n).cs();
            let es = old(n).es();
            let cseq_i = cs[i as int].cseq(h - 1);
            let jc = find_boundary(cseq_i, rel as int)->0;
            let grown_c = cseq_i.insert(jc, (key, value));
            let a = interleave(cs.take(i as int), es.take(i as int), h);
            let tail = if (i as int) < es.len() {
                seq![es[i as int]] + interleave(cs.skip(i as int + 1), es.skip(i as int + 1), h)
            } else {
                Seq::<(K, V)>::empty()
            };
            match r {
                InsertDown::Done => {
                    &&& final(n).node_seq(h) =~= a + grown_c + tail
                    &&& final(n).node_wf(h)
                    &&& old(n).es().len() <= final(n).es().len() <= old(n).es().len() + 1
                    &&& final(n).elements.size == old(n).elements.size + key.spec_size()
                },
                InsertDown::Split(k2, v2, rc) => {
                    &&& rc is Node
                    &&& final(n).node_seq(h) + seq![(k2, v2)] + rc.cseq(h) =~= a + grown_c + tail
                    &&& final(n).node_wf(h)
                    &&& rc.cwf(h)
                    &&& final(n).es().len() == B
                    &&& rc.num_elems() == B - 1
                    &&& k2.spec_size() >= 1
                    &&& final(n).elements.size + k2.spec_size() + rc.csize() == old(
                        n,
                    ).elements.size + key.spec_size()
                },
            }
        }),
    decreases h, 0int,
{
    let kw = key.size();
    let ghost cs = n.cs();
    let ghost es = n.es();
    let ghost ii = i as int;
    let ghost cseq_i = cs[ii].cseq(h - 1);
    let ghost jc = find_boundary(cseq_i, rel as int)->0;
    let ghost a = interleave(cs.take(ii), es.take(ii), h);
    let ghost tail = if ii < es.len() {
        seq![es[ii]] + interleave(cs.skip(ii + 1), es.skip(ii + 1), h)
    } else {
        Seq::<(K, V)>::empty()
    };
    proof {
        lemma_children_ok_iff(cs, h, MIN_NUM_ELEMENTS as int);
        lemma_cwf_weight(cs[ii], h - 1);
        super::model::lemma_find_boundary(cseq_i, rel as int);
        super::node::lemma_children_weight_nonneg(cs);
        lemma_weight_sum_nonneg(es);
        super::node::lemma_children_weight_elem_le(cs, ii);
        super::model::lemma_weight_sum_insert(cseq_i, jc, (key, value));
    }
    let down: InsertDown<K, V> = match &mut n.children {
        Children::Nodes(v) => {
            proof {
                assert(cs[ii] == Child::<K, V>::Node(v@[ii]));
                assert(v@[ii].node_wf(h - 1));
            }
            let d = node_insert(&mut v[i], rel, key, value, Ghost(h - 1));
            proof {
                lemma_map_update_nodes(old(n).children->Nodes_0@, ii, v@[ii]);
            }
            d
        },
        Children::Leafs(v) => {
            proof {
                assert(cs[ii] == Child::<K, V>::Leaf(v@[ii]));
            }
            let d = leaf_insert(&mut v[i], rel, key, value);
            proof {
                lemma_map_update_leafs(old(n).children->Leafs_0@, ii, v@[ii]);
            }
            d
        },
    };
    let ghost fc = n.cs()[ii];
    proof {
        assert(n.cs() =~= cs.update(ii, fc));
        assert(n.es() == es);
        super::node::lemma_children_weight_update(cs, ii, fc);
    }
    match down {
        InsertDown::Done => {
            n.elements.size = n.elements.size + kw;
            proof {
                let grown_c = cseq_i.insert(jc, (key, value));
                assert(fc.cseq(h - 1) =~= grown_c);
                lemma_reassemble(cs, es, h, ii, fc, a, tail);
                assert(n.node_seq(h) == a + fc.cseq(h - 1) + tail);
                lemma_children_ok_iff(n.cs(), h, MIN_NUM_ELEMENTS as int);
                assert forall|q: int| 0 <= q < n.cs().len() implies (#[trigger] n.cs()[q]).cwf(
                    h - 1,
                ) && MIN_NUM_ELEMENTS <= n.cs()[q].num_elems() by {
                    if q != ii {
                        assert(n.cs()[q] == cs[q]);
                    }
                }
            }
            InsertDown::Done
        },
        InsertDown::Split(k2, v2, rc) => {
            let k2w = k2.size();
            let rcsz = rc.size();
            proof {
                lemma_cwf_weight(rc, h - 1);
                lemma_cwf_weight(fc, h - 1);
            }
            n.elements.size = n.elements.size + kw - k2w - rcsz;
            proof {
                assert(n.size_ok());
                assert(n.children.accepts(rc)) by {
                    match n.children {
                        Children::Nodes(_) => {
                            assert(cs[ii] is Node);
                            assert(rc is Node);
                        },
                        Children::Leafs(_) => {
                            assert(cs[ii] is Leaf);
                            assert(rc is Leaf);
                        },
                    }
                }
                lemma_children_ok_iff(n.cs(), h, MIN_NUM_ELEMENTS as int);
                assert forall|q: int| 0 <= q < n.cs().len() implies (#[trigger] n.cs()[q]).cwf(
                    h - 1,
                ) && MIN_NUM_ELEMENTS <= n.cs()[q].num_elems() by {
                    if q != ii {
                        assert(n.cs()[q] == cs[q]);
                    }
                }
            }
            let down2 = node_absorb(n, i, k2, v2, rc, Ghost(h));
            let ghost fe2 = es.insert(ii, (k2, v2));
            let ghost fcs2 = cs.update(ii, fc).insert(ii + 1, rc);
            proof {
                lemma_insert_reassemble_full(cs, es, h, ii, fc, rc, (k2, v2), a, tail, fcs2, fe2);
                let grown_c = cseq_i.insert(jc, (key, value));
                assert(interleave(fcs2, fe2, h) == a + (fc.cseq(h - 1) + seq![(k2, v2)] + rc.cseq(
                    h - 1,
                )) + tail);
                assert(fc.cseq(h - 1) + seq![(k2, v2)] + rc.cseq(h - 1) =~= grown_c);
                assert(interleave(fcs2, fe2, h) =~= a + grown_c + tail);
            }
            down2
        },
    }
}

/// Insert a promoted separator and its right-hand sibling (handed up by a
/// child that split) into this node at position `i`; if that overflows the
/// node, split the node in turn.
#[verifier::rlimit(60)]
fn node_absorb<K: OrdSize, V>(
    n: &mut Node<K, V>,
    i: usize,
    k2: K,
    v2: V,
    rc: Child<K, V>,
    Ghost(h): Ghost<int>,
) -> (r: InsertDown<K, V>)
    requires
        h >= 2,
        old(n).shape_inv(),
        old(n).size_ok(),
        children_ok(old(n).cs(), h, MIN_NUM_ELEMENTS as int),
        i <= old(n).es().len(),
        old(n).children.accepts(rc),
        rc.cwf(h - 1),
        rc.num_elems() >= MIN_NUM_ELEMENTS,
        rc.num_elems() <= MAX_NUM_ELEMENTS,
        k2.spec_size() >= 1,
        old(n).elements.size + k2.spec_size() + rc.csize() <= usize::MAX,
    ensures
        ({
            let fe = old(n).es().insert(i as int, (k2, v2));
            let fcs = old(n).cs().insert(i as int + 1, rc);
            match r {
                InsertDown::Done => {
                    &&& final(n).node_seq(h) =~= interleave(fcs, fe, h)
                    &&& final(n).node_wf(h)
                    &&& final(n).es().len() == old(n).es().len() + 1
                    &&& final(n).elements.size == old(n).elements.size + k2.spec_size()
                        + rc.csize()
                },
                InsertDown::Split(k3, v3, rc2) => {
                    &&& rc2 is Node
                    &&& final(n).node_seq(h) + seq![(k3, v3)] + rc2.cseq(h) == interleave(
                        fcs,
                        fe,
                        h,
                    )
                    &&& final(n).node_wf(h)
                    &&& rc2.cwf(h)
                    &&& final(n).es().len() == B
                    &&& rc2.num_elems() == B - 1
                    &&& k3.spec_size() >= 1
                    &&& final(n).elements.size + k3.spec_size() + rc2.csize() == old(
                        n,
                    ).elements.size + k2.spec_size() + rc.csize()
                },
            }
        }),
{
    let ghost cs = n.cs();
    let ghost es = n.es();
    let ghost ii = i as int;
    proof {
        lemma_children_ok_iff(cs, h, MIN_NUM_ELEMENTS as int);
        super::node::lemma_children_weight_nonneg(cs);
        lemma_weight_sum_nonneg(es);
        lemma_cwf_weight(rc, h - 1);
    }
    let ins = n.insert(i, k2, v2, rc);
    let ghost fe = es.insert(ii, (k2, v2));
    let ghost fcs = cs.insert(ii + 1, rc);
    proof {
        super::model::lemma_weight_sum_insert(es, ii, (k2, v2));
        super::node::lemma_children_weight_insert(cs, ii + 1, rc);
        lemma_children_ok_iff(fcs, h, MIN_NUM_ELEMENTS as int);
        assert forall|q: int| 0 <= q < fcs.len() implies (#[trigger] fcs[q]).cwf(h - 1)
            && MIN_NUM_ELEMENTS <= fcs[q].num_elems() by {
            if q < ii + 1 {
                assert(fcs[q] == cs[q]);
            } else if q == ii + 1 {
                assert(fcs[q] == rc);
            } else {
                assert(fcs[q] == cs[q - 1]);
            }
        }
    }
    match ins {
        None => {
            proof {
                lemma_children_ok_iff(n.cs(), h, MIN_NUM_ELEMENTS as int);
            }
            return InsertDown::Done;
        },
        Some((rk, rv, rchild)) => {
            proof {
                assert(n.es() =~= fe.drop_last());
                assert(n.cs() =~= fcs.drop_last());
                assert(weights_pos(fe)) by {
                    super::store::lemma_ins_weights_pos(es, ii, (k2, v2));
                }
                assert(fe =~= fe.drop_last().push(fe.last()));
                assert(fcs =~= fcs.drop_last().push(fcs.last()));
                super::model::lemma_weight_sum_push(fe.drop_last(), fe.last());
                super::node::lemma_children_weight_push(fcs.drop_last(), fcs.last());
                super::model::lemma_elem_weight_le(fe, fe.len() - 1);
                super::node::lemma_children_weight_elem_le(fcs, fcs.len() - 1);
                lemma_children_ok_iff(n.cs(), h, MIN_NUM_ELEMENTS as int);
                assert(rchild.cwf(h - 1) && MIN_NUM_ELEMENTS <= rchild.num_elems()) by {
                    assert(fcs.last() == rchild);
                }
            }
            let (sep, right) = n.split(rk, rv, rchild);
            proof {
                lemma_split_seq(fe, fcs, h, n.cs(), n.es(), right.cs(), right.es(), sep);
                lemma_children_ok_iff(n.cs(), h, MIN_NUM_ELEMENTS as int);
                lemma_children_ok_iff(right.cs(), h, MIN_NUM_ELEMENTS as int);
                assert forall|q: int| 0 <= q < n.cs().len() implies (#[trigger] n.cs()[q]).cwf(
                    h - 1,
                ) && MIN_NUM_ELEMENTS <= n.cs()[q].num_elems() by {
                    assert(n.cs()[q] == fcs.take(B as int + 1)[q]);
                    assert(fcs.take(B as int + 1)[q] == fcs[q]);
                }
                assert forall|q: int| 0 <= q < right.cs().len() implies (
                #[trigger] right.cs()[q]).cwf(h - 1) && MIN_NUM_ELEMENTS
                    <= right.cs()[q].num_elems() by {
                    assert(right.cs()[q] == fcs.skip(B as int + 1)[q]);
                    assert(fcs.skip(B as int + 1)[q] == fcs[q + B + 1]);
                }
                super::model::lemma_weight_sum_take_le(fe, B as int);
                super::node::lemma_children_weight_take_le(fcs, B as int + 1);
                super::model::lemma_elem_weight_le(fe, B as int);
                assert(fe.skip(B as int) =~= seq![fe[B as int]] + fe.skip(B as int + 1));
                super::model::lemma_weight_sum_concat(
                    seq![fe[B as int]],
                    fe.skip(B as int + 1),
                );
                super::model::lemma_weight_sum_one(fe[B as int]);
            }
            let ghost rsnap = *right;
            let rcout = Child::Node(right);
            proof {
                assert(rcout.cseq(h) == rsnap.node_seq(h));
                assert(rcout.cwf(h) == rsnap.node_wf(h));
            }
            return InsertDown::Split(sep.0, sep.1, rcout);
        },
    }
}

impl<K: OrdSize, V> OrdBTree<K, V> {
    /// Remove and return the element whose range starts exactly at
    /// `offset`. When `offset` is not the start offset of any element —
    /// it lies strictly inside an element's range, or at or past the end —
    /// nothing changes and nothing is returned.
    #[verifier::rlimit(100)]
    pub fn remove(&mut self, offset: usize) -> (r: Option<(K, V)>)
        requires
            old(self).well_formed(),
        ensures
            final(self).well_formed(),
            ({
                let fb = find_boundary(old(self)@, offset as int);
                if fb is Some && fb->0 < old(self)@.len() {
                    &&& r == Some(old(self)@[fb->0])
                    &&& final(self)@ =~= old(self)@.remove(fb->0)
                } else {
                    &&& r is None
                    &&& final(self)@ == old(self)@
                    &&& final(self).spec_depth() == old(self).spec_depth()
                }
            }),
    {
        let ghost s0 = self@;
        proof {
            lemma_cwf_weight(self.root, self.depth as int);
            lemma_weight_sum_nonneg(s0);
            super::model::lemma_boundary_via_find_at(s0, offset as int);
            super::model::lemma_find_boundary(s0, offset as int);
            if find_boundary(s0, offset as int) is Some && find_boundary(s0, offset as int)->0
                < s0.len() {
                super::model::lemma_offset_strict(
                    s0,
                    find_boundary(s0, offset as int)->0,
                    s0.len() as int,
                );
                super::model::lemma_offset_total(s0);
            }
        }
        let total = self.size();
        if offset >= total {
            return None;
        }
        match self.get(offset) {
            Some((start, _, _)) => {
                if start != offset {
                    return None;
                }
            },
            None => {},
        }
        let ghost jg = find_boundary(s0, offset as int)->0;
        let ghost h0 = self.depth as int;
        let removed = match &mut self.root {
            Child::Node(n) => node_remove(n, offset, Ghost(h0)),
            Child::Leaf(l) => {
                proof {
                    assert(l.seq() == s0);
                }
                leaf_remove(l, offset)
            },
        };
        self.len = self.len - 1;
        let shrink = match &self.root {
            Child::Node(n) => n.elements.keys.len() == 0,
            Child::Leaf(_) => false,
        };
        if shrink {
            let mut old_root: Child<K, V> = Child::Leaf(Box::new(NodeElements::new()));
            core::mem::swap(&mut self.root, &mut old_root);
            let ghost groot = old_root;
            match old_root {
                Child::Node(bn) => {
                    proof {
                        assert(groot->Node_0.cs().len() == 1);
                        assert(groot->Node_0.es().len() == 0);
                        assert(groot->Node_0.node_seq(h0) == interleave(
                            groot->Node_0.cs(),
                            groot->Node_0.es(),
                            h0,
                        ));
                        assert(interleave(groot->Node_0.cs(), groot->Node_0.es(), h0)
                            == groot->Node_0.cs()[0].cseq(h0 - 1));
                        lemma_children_ok_iff(groot->Node_0.cs(), h0, MIN_NUM_ELEMENTS as int);
                    }
                    let inner = *bn;
                    let (_discard, ch) = inner.separate();
                    match ch {
                        Children::Nodes(mut v) => {
                            let c = match v.pop() {
                                Some(c) => c,
                                None => vstd::pervasive::unreached(),
                            };
                            proof {
                                assert(groot->Node_0.cs()[0] == Child::<K, V>::Node(c));
                            }
                            self.root = Child::Node(c);
                        },
                        Children::Leafs(mut v) => {
                            let c = match v.pop() {
                                Some(c) => c,
                                None => vstd::pervasive::unreached(),
                            };
                            proof {
                                assert(groot->Node_0.cs()[0] == Child::<K, V>::Leaf(c));
                            }
                            self.root = Child::Leaf(c);
                        },
                    }
                },
                Child::Leaf(_) => {
                    proof {
                        assert(false);
                    }
                },
            }
            self.depth = self.depth - 1;
            proof {
                assert(self@ =~= s0.remove(jg));
            }
        } else {
            proof {
                assert(self@ =~= s0.remove(jg));
            }
        }
        Some(removed)
    }
}

/// Remove the element starting exactly at boundary offset `pos` from a
/// leaf.
#[verifier::loop_isolation(false)]
fn leaf_remove<K: OrdSize, V>(l: &mut NodeElements<K, V>, pos: usize) -> (r: (K, V))
    requires
        old(l).leaf_wf(),
        find_boundary(old(l).seq(), pos as int) is Some,
        find_boundary(old(l).seq(), pos as int)->0 < old(l).seq().len(),
    ensures
        ({
            let s = old(l).seq();
            let j = find_boundary(s, pos as int)->0;
            &&& r == s[j]
            &&& final(l).seq() =~= s.remove(j)
            &&& final(l).leaf_wf()
            &&& final(l).size == old(l).size - r.0.spec_size()
        }),
{
    let ghost s = l.seq();
    proof {
        super::model::lemma_find_boundary(s, pos as int);
        lemma_weight_sum_nonneg(s);
        super::model::lemma_offset_total(s);
    }
    let ghost j = find_boundary(s, pos as int)->0;
    let mut i: usize = 0;
    let mut partial: usize = 0;
    loop
        invariant
            *l == *old(l),
            i <= s.len(),
            partial == offset_of(s, i as int),
            pos >= partial,
            i <= j,
        decreases s.len() - i,
    {
        if pos == partial {
            proof {
                super::model::lemma_boundary_at(s, i as int);
                assert(j == i);
                super::model::lemma_weight_sum_remove(s, i as int);
            }
            let (rk, rv) = l.remove(i);
            return (rk, rv);
        }
        proof {
            if i as int == s.len() {
                assert(offset_of(s, j) == pos);
                if j < i {
                    super::model::lemma_offset_strict(s, j, i as int);
                }
                assert(false);
            }
            super::model::lemma_offset_of_succ(s, i as int);
            super::model::lemma_weight_sum_take_le(s, i as int + 1);
        }
        let w = l.keys[i].size();
        proof {
            assert(s[i as int].0 == l.keys@[i as int]);
            if pos < partial + w {
                assert(offset_of(s, j) == pos);
                if j <= i {
                    if j < i {
                        super::model::lemma_offset_strict(s, j, i as int);
                    }
                    assert(false);
                }
                super::model::lemma_offset_strict(s, i as int + 1, j);
                assert(false);
            }
            if j <= i {
                assert(offset_of(s, j) == pos);
                if j < i {
                    super::model::lemma_offset_strict(s, j, i as int);
                }
                assert(false);
            }
        }
        partial = partial + w;
        i = i + 1;
    }
}

/// Remove the last element of a node's subtree: descend along rightmost
/// children to the rightmost leaf, pop its last element, and repair any
/// underflow on the way back up.
#[verifier::rlimit(100)]
fn node_remove_last<K: OrdSize, V>(n: &mut Node<K, V>, Ghost(h): Ghost<int>) -> (r: (K, V))
    requires
        old(n).node_wf(h),
        old(n).es().len() >= 1,
    ensures
        old(n).node_seq(h).len() >= 1,
        r == old(n).node_seq(h).last(),
        final(n).node_seq(h) =~= old(n).node_seq(h).drop_last(),
        final(n).shape_inv(),
        final(n).size_ok(),
        children_ok(final(n).cs(), h, MIN_NUM_ELEMENTS as int),
        old(n).es().len() - 1 <= final(n).es().len() <= old(n).es().len(),
        final(n).elements.size == old(n).elements.size - r.0.spec_size(),
        final(n).children.is_nodes() == old(n).children.is_nodes(),
    decreases h,
{
    let ghost cs = n.cs();
    let ghost es = n.es();
    let ghost s = n.node_seq(h);
    let lc = n.elements.keys.len();
    let ghost li = lc as int;
    proof {
        lemma_children_ok_iff(cs, h, MIN_NUM_ELEMENTS as int);
        lemma_cwf_weight(cs[li], h - 1);
        lemma_interleave_split(cs, es, h, li);
        super::node::lemma_children_weight_elem_le(cs, li);
        super::node::lemma_children_weight_nonneg(cs);
        lemma_weight_sum_nonneg(es);
    }
    let ghost a = interleave(cs.take(li), es.take(li), h);
    let ghost cseq_l = cs[li].cseq(h - 1);
    proof {
        assert(s == a + cseq_l + Seq::<(K, V)>::empty());
        assert(s =~= a + cseq_l);
        assert(cseq_l.len() >= 1);
        assert(s.last() == cseq_l.last());
        assert(s.drop_last() =~= a + cseq_l.drop_last());
    }
    let (pk, pv) = match &mut n.children {
        Children::Nodes(v) => {
            proof {
                assert(cs[li] == Child::<K, V>::Node(v@[li]));
                assert(v@[li].node_wf(h - 1));
            }
            let p = node_remove_last(&mut v[lc], Ghost(h - 1));
            proof {
                lemma_map_update_nodes(old(n).children->Nodes_0@, li, v@[li]);
            }
            p
        },
        Children::Leafs(v) => {
            proof {
                assert(cs[li] == Child::<K, V>::Leaf(v@[li]));
            }
            let popped = v[lc].pop();
            proof {
                lemma_map_update_leafs(old(n).children->Leafs_0@, li, v@[li]);
            }
            match popped {
                Some(p) => p,
                None => vstd::pervasive::unreached(),
            }
        },
    };
    let ghost fc = n.cs()[li];
    let pw = pk.size();
    proof {
        assert(n.cs() =~= cs.update(li, fc));
        assert(n.es() == es);
        super::node::lemma_children_weight_update(cs, li, fc);
        assert(fc.cseq(h - 1) =~= cseq_l.drop_last());
        assert(cseq_l =~= cseq_l.drop_last().push(cseq_l.last()));
        super::model::lemma_weight_sum_push(cseq_l.drop_last(), cseq_l.last());
        lemma_cwf_weight_if(fc, h - 1);
    }
    n.elements.size = n.elements.size - pw;
    proof {
        lemma_reassemble(cs, es, h, li, fc, a, Seq::<(K, V)>::empty());
        assert(n.node_seq(h) == a + fc.cseq(h - 1) + Seq::<(K, V)>::empty());
        assert(n.node_seq(h) =~= s.drop_last());
        lemma_children_ok_iff(n.cs(), h, MIN_NUM_ELEMENTS as int);
    }
    let under = n.children.num_elements_at(lc);
    if under < MIN_NUM_ELEMENTS {
        proof {
            assert forall|q: int| 0 <= q < n.cs().len() && q != li implies (
            #[trigger] n.cs()[q]).cwf(h - 1) && MIN_NUM_ELEMENTS <= n.cs()[q].num_elems() by {
                assert(n.cs()[q] == cs[q]);
            }
            assert(n.cs()[li].cwf(h - 1));
            assert(n.cs()[li].num_elems() == MIN_NUM_ELEMENTS - 1);
        }
        let ghost pre = *n;
        n.resolve_underflow(lc, Ghost(h));
        proof {
            assert(n.node_seq(h) == interleave(pre.cs(), pre.es(), h));
            assert(n.node_seq(h) =~= s.drop_last());
        }
    }
    (pk, pv)
}

/// Well-formedness of a child transfers to exact weights; conditional form
/// used after a child was modified and is known well-formed again.
proof fn lemma_cwf_weight_if<K: OrdSize, V>(c: Child<K, V>, h: int)
    ensures
        c.cwf(h) ==> weights_pos(c.cseq(h)) && weight_sum(c.cseq(h)) == c.csize() && c.cseq(
            h,
        ).len() >= c.num_elems(),
{
    if c.cwf(h) {
        lemma_cwf_weight(c, h);
    }
}

/// Remove the element that starts exactly at child-relative offset `rel`
/// inside child `i`'s subtree, repairing any underflow of that child.
#[verifier::rlimit(100)]
fn node_remove_child<K: OrdSize, V>(
    n: &mut Node<K, V>,
    i: usize,
    rel: usize,
    Ghost(h): Ghost<int>,
) -> (r: (K, V))
    requires
        h >= 2,
        old(n).node_wf(h),
        old(n).es().len() >= 1,
        i < old(n).cs().len(),
        find_boundary(old(n).cs()[i as int].cseq(h - 1), rel as int) is Some,
        find_boundary(old(n).cs()[i as int].cseq(h - 1), rel as int)->0 < old(n).cs()[i
            as int].cseq(h - 1).len(),
    ensures
        ({
            let cs = old(n).cs();
            let es = old(n).es();
            let cseq_i = cs[i as int].cseq(h - 1);
            let jc = find_boundary(cseq_i, rel as int)->0;
            let a = interleave(cs.take(i as int), es.take(i as int), h);
            let tail = if (i as int) < es.len() {
                seq![es[i as int]] + interleave(cs.skip(i as int + 1), es.skip(i as int + 1), h)
            } else {
                Seq::<(K, V)>::empty()
            };
            &&& r == cseq_i[jc]
            &&& final(n).node_seq(h) =~= a + cseq_i.remove(jc) + tail
            &&& final(n).shape_inv()
            &&& final(n).size_ok()
            &&& children_ok(final(n).cs(), h, MIN_NUM_ELEMENTS as int)
            &&& old(n).es().len() - 1 <= final(n).es().len() <= old(n).es().len()
            &&& final(n).elements.size == old(n).elements.size - r.0.spec_size()
            &&& final(n).children.is_nodes() == old(n).children.is_nodes()
        }),
    decreases h, 0int,
{
    let ghost cs = n.cs();
    let ghost es = n.es();
    let ghost ii = i as int;
    let ghost cseq_i = cs[ii].cseq(h - 1);
    let ghost jc = find_boundary(cseq_i, rel as int)->0;
    let ghost a = interleave(cs.take(ii), es.take(ii), h);
    let ghost tail = if ii < es.len() {
        seq![es[ii]] + interleave(cs.skip(ii + 1), es.skip(ii + 1), h)
    } else {
        Seq::<(K, V)>::empty()
    };
    proof {
        lemma_children_ok_iff(cs, h, MIN_NUM_ELEMENTS as int);
        lemma_cwf_weight(cs[ii], h - 1);
        super::model::lemma_find_boundary(cseq_i, rel as int);
        super::node::lemma_children_weight_nonneg(cs);
        lemma_weight_sum_nonneg(es);
        super::node::lemma_children_weight_elem_le(cs, ii);
        super::model::lemma_weight_sum_remove(cseq_i, jc);
        super::model::lemma_elem_weight_le(cseq_i, jc);
    }
    let removed = match &mut n.children {
        Children::Nodes(v) => {
            proof {
                assert(cs[ii] == Child::<K, V>::Node(v@[ii]));
                assert(v@[ii].node_wf(h - 1));
            }
            let p = node_remove(&mut v[i], rel, Ghost(h - 1));
            proof {
                lemma_map_update_nodes(old(n).children->Nodes_0@, ii, v@[ii]);
            }
            p
        },
        Children::Leafs(v) => {
            proof {
                assert(cs[ii] == Child::<K, V>::Leaf(v@[ii]));
            }
            let p = leaf_remove(&mut v[i], rel);
            proof {
                lemma_map_update_leafs(old(n).children->Leafs_0@, ii, v@[ii]);
            }
            p
        },
    };
    let ghost fc = n.cs()[ii];
    let rw = removed.0.size();
    proof {
        assert(n.cs() =~= cs.update(ii, fc));
        assert(n.es() == es);
        super::node::lemma_children_weight_update(cs, ii, fc);
        assert(fc.cseq(h - 1) =~= cseq_i.remove(jc));
        lemma_cwf_weight_if(fc, h - 1);
    }
    n.elements.size = n.elements.size - rw;
    proof {
        lemma_reassemble(cs, es, h, ii, fc, a, tail);
        assert(n.node_seq(h) == a + fc.cseq(h - 1) + tail);
        assert(n.node_seq(h) =~= a + cseq_i.remove(jc) + tail);
        lemma_children_ok_iff(n.cs(), h, MIN_NUM_ELEMENTS as int);
    }
    let under = n.children.num_elements_at(i);
    if under < MIN_NUM_ELEMENTS {
        proof {
            assert forall|q: int| 0 <= q < n.cs().len() && q != ii implies (
            #[trigger] n.cs()[q]).cwf(h - 1) && MIN_NUM_ELEMENTS <= n.cs()[q].num_elems() by {
                assert(n.cs()[q] == cs[q]);
            }
            assert(n.cs()[ii].cwf(h - 1));
            assert(n.cs()[ii].num_elems() == MIN_NUM_ELEMENTS - 1);
        }
        let ghost pre = *n;
        n.resolve_underflow(i, Ghost(h));
        proof {
            assert(n.node_seq(h) == interleave(pre.cs(), pre.es(), h));
            assert(n.node_seq(h) =~= a + cseq_i.remove(jc) + tail);
        }
    }
    removed
}

/// Remove separator `i` of this node: swap it with its in-order
/// predecessor (the last element of child `i`), then repair any underflow
/// of that child.
#[verifier::rlimit(100)]
fn node_remove_sep<K: OrdSize, V>(n: &mut Node<K, V>, i: usize, Ghost(h): Ghost<int>) -> (r: (
    K,
    V,
))
    requires
        h >= 2,
        old(n).node_wf(h),
        old(n).es().len() >= 1,
        i < old(n).es().len(),
    ensures
        ({
            let cs = old(n).cs();
            let es = old(n).es();
            let cseq_i = cs[i as int].cseq(h - 1);
            let a = interleave(cs.take(i as int), es.take(i as int), h);
            let rest = interleave(cs.skip(i as int + 1), es.skip(i as int + 1), h);
            &&& r == es[i as int]
            &&& final(n).node_seq(h) =~= a + cseq_i + rest
            &&& final(n).shape_inv()
            &&& final(n).size_ok()
            &&& children_ok(final(n).cs(), h, MIN_NUM_ELEMENTS as int)
            &&& old(n).es().len() - 1 <= final(n).es().len() <= old(n).es().len()
            &&& final(n).elements.size == old(n).elements.size - r.0.spec_size()
            &&& final(n).children.is_nodes() == old(n).children.is_nodes()
        }),
    decreases h, 0int,
{
    let ghost cs = n.cs();
    let ghost es = n.es();
    let ghost ii = i as int;
    let ghost cseq_i = cs[ii].cseq(h - 1);
    let ghost a = interleave(cs.take(ii), es.take(ii), h);
    let ghost rest = interleave(cs.skip(ii + 1), es.skip(ii + 1), h);
    proof {
        lemma_children_ok_iff(cs, h, MIN_NUM_ELEMENTS as int);
        lemma_cwf_weight(cs[ii], h - 1);
        lemma_interleave_split(cs, es, h, ii);
        super::node::lemma_children_weight_nonneg(cs);
        lemma_weight_sum_nonneg(es);
        super::node::lemma_children_weight_elem_le(cs, ii);
        super::model::lemma_elem_weight_le(es, ii);
        assert(cseq_i.len() >= 1);
    }
    let (pk, pv) = match &mut n.children {
        Children::Nodes(v) => {
            proof {
                assert(cs[ii] == Child::<K, V>::Node(v@[ii]));
                assert(v@[ii].node_wf(h - 1));
            }
            let p = node_remove_last(&mut v[i], Ghost(h - 1));
            proof {
                lemma_map_update_nodes(old(n).children->Nodes_0@, ii, v@[ii]);
            }
            p
        },
        Children::Leafs(v) => {
            proof {
                assert(cs[ii] == Child::<K, V>::Leaf(v@[ii]));
            }
            let popped = v[i].pop();
            proof {
                lemma_map_update_leafs(old(n).children->Leafs_0@, ii, v@[ii]);
            }
            match popped {
                Some(p) => p,
                None => vstd::pervasive::unreached(),
            }
        },
    };
    let ghost fc = n.cs()[ii];
    let (rk, rv) = self_swap(n, i, pk, pv);
    let rw = rk.size();
    proof {
        assert(n.cs() =~= cs.update(ii, fc));
        assert(n.es() =~= es.update(ii, (pk, pv)));
        super::node::lemma_children_weight_update(cs, ii, fc);
        assert(fc.cseq(h - 1) =~= cseq_i.drop_last());
        assert(cseq_i =~= cseq_i.drop_last().push(cseq_i.last()));
        super::model::lemma_weight_sum_push(cseq_i.drop_last(), cseq_i.last());
        lemma_cwf_weight_if(fc, h - 1);
        super::model::lemma_weight_sum_update(es, ii, (pk, pv));
        assert((pk, pv) == cseq_i.last());
    }
    n.elements.size = n.elements.size - rw;
    proof {
        let es2 = es.update(ii, (pk, pv));
        let cs2 = cs.update(ii, fc);
        lemma_interleave_split(cs2, es2, h, ii);
        assert(cs2.take(ii) =~= cs.take(ii));
        assert(es2.take(ii) =~= es.take(ii));
        assert(cs2.skip(ii + 1) =~= cs.skip(ii + 1));
        assert(es2.skip(ii + 1) =~= es.skip(ii + 1));
        assert(es2[ii] == (pk, pv));
        assert(n.node_seq(h) == a + fc.cseq(h - 1) + (seq![(pk, pv)] + rest));
        assert(n.node_seq(h) =~= a + cseq_i + rest) by {
            assert(fc.cseq(h - 1) + (seq![(pk, pv)] + rest) =~= cseq_i + rest);
        }
        lemma_children_ok_iff(n.cs(), h, MIN_NUM_ELEMENTS as int);
    }
    let under = n.children.num_elements_at(i);
    if under < MIN_NUM_ELEMENTS {
        proof {
            assert forall|q: int| 0 <= q < n.cs().len() && q != ii implies (
            #[trigger] n.cs()[q]).cwf(h - 1) && MIN_NUM_ELEMENTS <= n.cs()[q].num_elems() by {
                assert(n.cs()[q] == cs[q]);
            }
            assert(n.cs()[ii].cwf(h - 1));
            assert(n.cs()[ii].num_elems() == MIN_NUM_ELEMENTS - 1);
        }
        let ghost pre = *n;
        n.resolve_underflow(i, Ghost(h));
        proof {
            assert(n.node_seq(h) == interleave(pre.cs(), pre.es(), h));
            assert(n.node_seq(h) =~= a + cseq_i + rest);
        }
    }
    (rk, rv)
}

/// Exchange separator `i` of a node for another element, returning the
/// old separator; the cached size is left to the caller.
fn self_swap<K: OrdSize, V>(n: &mut Node<K, V>, i: usize, pk: K, pv: V) -> (r: (K, V))
    requires
        old(n).elements.seq_inv(),
        i < old(n).es().len(),
        pk.spec_size() >= 1,
    ensures
        final(n).es() =~= old(n).es().update(i as int, (pk, pv)),
        final(n).elements.seq_inv(),
        final(n).elements.size == old(n).elements.size,
        final(n).children == old(n).children,
        r == old(n).es()[i as int],
{
    n.elements.swap_elem(i, pk, pv)
}

/// Remove the element starting exactly at boundary offset `pos` from a
/// node's subtree.
#[verifier::loop_isolation(false)]
#[verifier::rlimit(100)]
fn node_remove<K: OrdSize, V>(n: &mut Node<K, V>, pos: usize, Ghost(h): Ghost<int>) -> (r: (K, V))
    requires
        old(n).node_wf(h),
        old(n).es().len() >= 1,
        find_boundary(old(n).node_seq(h), pos as int) is Some,
        find_boundary(old(n).node_seq(h), pos as int)->0 < old(n).node_seq(h).len(),
    ensures
        ({
            let s = old(n).node_seq(h);
            let j = find_boundary(s, pos as int)->0;
            &&& r == s[j]
            &&& final(n).node_seq(h) =~= s.remove(j)
            &&& final(n).shape_inv()
            &&& final(n).size_ok()
            &&& children_ok(final(n).cs(), h, MIN_NUM_ELEMENTS as int)
            &&& old(n).es().len() - 1 <= final(n).es().len() <= old(n).es().len()
            &&& final(n).elements.size == old(n).elements.size - r.0.spec_size()
            &&& final(n).children.is_nodes() == old(n).children.is_nodes()
        }),
    decreases h, 1int,
{
    let ghost s = n.node_seq(h);
    let ghost cs = n.cs();
    let ghost es = n.es();
    let ghost jg = find_boundary(s, pos as int)->0;
    proof {
        lemma_interleave_weight(cs, es, h, MIN_NUM_ELEMENTS as int);
        lemma_children_ok_iff(cs, h, MIN_NUM_ELEMENTS as int);
        super::model::lemma_find_boundary(s, pos as int);
        super::model::lemma_offset_total(s);
        if jg < s.len() {
            super::model::lemma_offset_strict(s, jg, s.len() as int);
        }
        assert(cs.take(0) =~= Seq::<Child<K, V>>::empty());
        assert(es.take(0) =~= Seq::<(K, V)>::empty());
    }
    let mut i: usize = 0;
    let mut partial: usize = 0;
    loop
        invariant
            *n == *old(n),
            i <= es.len(),
            partial == weight_sum(interleave(cs.take(i as int), es.take(i as int), h)),
            pos >= partial,
        decreases es.len() - i,
    {
        let ghost ii = i as int;
        let ghost a = interleave(cs.take(ii), es.take(ii), h);
        proof {
            lemma_interleave_split(cs, es, h, ii);
            lemma_cwf_weight(cs[ii], h - 1);
        }
        let ghost cseq_i = cs[ii].cseq(h - 1);
        let ghost tail = if ii < es.len() {
            seq![es[ii]] + interleave(cs.skip(ii + 1), es.skip(ii + 1), h)
        } else {
            Seq::<(K, V)>::empty()
        };
        proof {
            assert(s == a + cseq_i + tail);
            assert(s =~= a + (cseq_i + tail));
            super::model::lemma_weights_pos_concat(a, cseq_i + tail);
            super::model::lemma_weights_pos_concat(cseq_i, tail);
            super::model::lemma_weight_sum_nonneg(tail);
            super::model::lemma_weight_sum_concat(a, cseq_i + tail);
            super::model::lemma_weight_sum_concat(cseq_i, tail);
        }
        let csz = n.children.size_at(i);
        if pos < partial + csz {
            // the element to remove lies inside child i
            proof {
                super::model::lemma_find_boundary_concat(a, cseq_i + tail, pos as int);
                super::model::lemma_find_boundary_concat(cseq_i, tail, pos as int - partial);
                if pos == partial {
                    super::model::lemma_boundary_at(a, a.len() as int);
                    super::model::lemma_offset_total(a);
                    assert(find_boundary(cseq_i, 0) == Some(0int));
                    assert(jg == a.len());
                } else {
                    assert(find_boundary(s, pos as int) == Some(
                        a.len() + find_boundary(cseq_i, pos as int - partial)->0,
                    ));
                }
                let jc = find_boundary(cseq_i, pos as int - partial)->0;
                assert(jg == a.len() + jc);
                super::model::lemma_find_boundary(cseq_i, pos as int - partial);
                assert(offset_of(cseq_i, jc) == pos - partial);
                if jc == cseq_i.len() {
                    super::model::lemma_offset_total(cseq_i);
                    assert(false);
                }
            }
            let ghost jc = find_boundary(cseq_i, pos as int - partial)->0;
            let removed = node_remove_child(n, i, pos - partial, Ghost(h));
            proof {
                assert(s.remove(jg) =~= a + cseq_i.remove(jc) + tail);
                assert(n.node_seq(h) =~= s.remove(jg));
                assert(removed == s[jg]);
            }
            return removed;
        }
        proof {
            if ii == es.len() {
                assert(tail =~= Seq::<(K, V)>::empty());
                assert(false);
            }
        }
        let w = n.elements.keys[i].size();
        let ghost rest = interleave(cs.skip(ii + 1), es.skip(ii + 1), h);
        proof {
            assert(es[ii].0 == n.elements.keys@[ii]);
            super::model::lemma_weight_sum_concat(a, cseq_i);
            assert(weights_pos(a + cseq_i)) by {
                super::model::lemma_weights_pos_concat(a, cseq_i);
            }
            assert(tail == seq![es[ii]] + rest);
            super::model::lemma_weight_sum_concat(seq![es[ii]], rest);
            super::model::lemma_weight_sum_one(es[ii]);
            super::model::lemma_weights_pos_concat(seq![es[ii]], rest);
            super::model::lemma_weight_sum_nonneg(rest);
        }
        if pos == partial + csz {
            // the element to remove is separator i itself
            proof {
                let m = a.len() + cseq_i.len() as int;
                let rest2 = seq![es[ii]] + rest;
                assert(s =~= (a + cseq_i) + rest2);
                super::model::lemma_offset_concat(a + cseq_i, rest2, m);
                super::model::lemma_offset_total(a + cseq_i);
                assert(offset_of(s, m) == partial + csz) by {
                    assert((a + cseq_i).take(m) =~= a + cseq_i);
                }
                super::model::lemma_boundary_at(s, m);
                assert(jg == m);
                assert(s[m] == es[ii]);
                assert(s.remove(m) =~= a + cseq_i + rest);
            }
            let removed = node_remove_sep(n, i, Ghost(h));
            proof {
                assert(n.node_seq(h) =~= s.remove(jg));
            }
            return removed;
        }
        proof {
            if pos < partial + csz + w {
                let m = a.len() + cseq_i.len() as int;
                let rest2 = seq![es[ii]] + rest;
                assert(s =~= (a + cseq_i) + rest2);
                super::model::lemma_offset_concat(a + cseq_i, rest2, m);
                super::model::lemma_offset_total(a + cseq_i);
                assert(offset_of(s, m) == partial + csz) by {
                    assert((a + cseq_i).take(m) =~= a + cseq_i);
                }
                assert(s[m] == es[ii]);
                super::model::lemma_find_at_unique(s, pos as int, m);
                super::model::lemma_boundary_via_find_at(s, pos as int);
                assert(false);
            }
        }
        proof {
            lemma_interleave_snoc_child(cs.take(ii), es.take(ii), h, cs[ii]);
            assert(cs.take(ii).push(cs[ii]) =~= cs.take(ii + 1));
            lemma_interleave_snoc_elem(cs.take(ii + 1), es.take(ii), h, es[ii]);
            assert(es.take(ii).push(es[ii]) =~= es.take(ii + 1));
            assert(interleave(cs.take(ii + 1), es.take(ii + 1), h) == a + cseq_i + seq![es[ii]]);
            super::model::lemma_weight_sum_concat(a + cseq_i, seq![es[ii]]);
            super::model::lemma_weight_sum_concat(a + cseq_i + seq![es[ii]], rest);
            assert(s =~= (a + cseq_i + seq![es[ii]]) + rest);
        }
        partial = partial + csz + w;
        i = i + 1;
    }
}

/// `map_values` update fact, fixed to the node constructor.
proof fn lemma_map_update_nodes<K: OrdSize, V>(s: Seq<Box<Node<K, V>>>, i: int, b: Box<Node<K, V>>)
    requires
        0 <= i < s.len(),
    ensures
        s.update(i, b).map_values(|n: Box<Node<K, V>>| Child::<K, V>::Node(n)) =~= s.map_values(
            |n: Box<Node<K, V>>| Child::<K, V>::Node(n),
        ).update(i, Child::Node(b)),
{
}

/// `map_values` update fact, fixed to the leaf constructor.
proof fn lemma_map_update_leafs<K: OrdSize, V>(
    s: Seq<Box<NodeElements<K, V>>>,
    i: int,
    b: Box<NodeElements<K, V>>,
)
    requires
        0 <= i < s.len(),
    ensures
        s.update(i, b).map_values(|l: Box<NodeElements<K, V>>| Child::<K, V>::Leaf(l))
            =~= s.map_values(|l: Box<NodeElements<K, V>>| Child::<K, V>::Leaf(l)).update(
            i,
            Child::Leaf(b),
        ),
{
}

/// Reassembling a node layout after one child changed in place.
proof fn lemma_reassemble<K: OrdSize, V>(
    cs: Seq<Child<K, V>>,
    es: Seq<(K, V)>,
    h: int,
    i: int,
    fc: Child<K, V>,
    a: Seq<(K, V)>,
    tail: Seq<(K, V)>,
)
    requires
        h >= 1,
        cs.len() == es.len() + 1,
        0 <= i < cs.len(),
        a == interleave(cs.take(i), es.take(i), h),
        tail == if i < es.len() {
            seq![es[i]] + interleave(cs.skip(i + 1), es.skip(i + 1), h)
        } else {
            Seq::<(K, V)>::empty()
        },
    ensures
        interleave(cs.update(i, fc), es, h) == a + fc.cseq(h - 1) + tail,
{
    let cs2 = cs.update(i, fc);
    lemma_interleave_split(cs2, es, h, i);
    assert(cs2.take(i) =~= cs.take(i));
    assert(cs2.skip(i + 1) =~= cs.skip(i + 1));
}

/// Reassembling a node layout after one child split in place: the left
/// half stays at `i`, the promoted separator becomes element `i`, and the
/// right half becomes child `i + 1`.
proof fn lemma_insert_reassemble_full<K: OrdSize, V>(
    cs: Seq<Child<K, V>>,
    es: Seq<(K, V)>,
    h: int,
    i: int,
    fc: Child<K, V>,
    rc: Child<K, V>,
    sep: (K, V),
    a: Seq<(K, V)>,
    tail: Seq<(K, V)>,
    fcs: Seq<Child<K, V>>,
    fe: Seq<(K, V)>,
)
    requires
        h >= 1,
        cs.len() == es.len() + 1,
        0 <= i < cs.len(),
        a == interleave(cs.take(i), es.take(i), h),
        tail == if i < es.len() {
            seq![es[i]] + interleave(cs.skip(i + 1), es.skip(i + 1), h)
        } else {
            Seq::<(K, V)>::empty()
        },
        fe == es.insert(i, sep),
        fcs == cs.update(i, fc).insert(i + 1, rc),
    ensures
        interleave(fcs, fe, h) == a + (fc.cseq(h - 1) + seq![sep] + rc.cseq(h - 1)) + tail,
{
    lemma_interleave_split(fcs, fe, h, i);
    assert(fcs.take(i) =~= cs.take(i));
    assert(fe.take(i) =~= es.take(i));
    assert(fcs[i] == fc);
    assert(fe[i] == sep);
    let suf = interleave(fcs.skip(i + 1), fe.skip(i + 1), h);
    assert(fcs.skip(i + 1)[0] == rc);
    if i < es.len() {
        assert(fcs.skip(i + 1).skip(1) =~= cs.skip(i + 1));
        assert(fe.skip(i + 1).skip(1) =~= es.skip(i + 1));
        assert(fe.skip(i + 1)[0] == es[i]);
        assert(suf == rc.cseq(h - 1) + seq![es[i]] + interleave(
            cs.skip(i + 1),
            es.skip(i + 1),
            h,
        ));
        assert(interleave(fcs, fe, h) =~= a + (fc.cseq(h - 1) + seq![sep] + rc.cseq(h - 1))
            + tail);
    } else {
        assert(fe.skip(i + 1).len() == 0);
        assert(suf == rc.cseq(h - 1));
        assert(interleave(fcs, fe, h) =~= a + (fc.cseq(h - 1) + seq![sep] + rc.cseq(h - 1))
            + tail);
    }
}

/// A full node plus a pending overflow splits into a left half, a promoted
/// separator, and a right half whose layouts interleave back to the whole.
proof fn lemma_split_seq<K: OrdSize, V>(
    fe: Seq<(K, V)>,
    fcs: Seq<Child<K, V>>,
    h: int,
    lcs: Seq<Child<K, V>>,
    les: Seq<(K, V)>,
    rcs: Seq<Child<K, V>>,
    res: Seq<(K, V)>,
    sep: (K, V),
)
    requires
        h >= 1,
        fe.len() == MAX_NUM_ELEMENTS + 1,
        fcs.len() == fe.len() + 1,
        les == fe.take(B as int),
        lcs == fcs.take(B as int + 1),
        sep == fe[B as int],
        res == fe.skip(B as int + 1),
        rcs == fcs.skip(B as int + 1),
    ensures
        interleave(fcs, fe, h) == interleave(lcs, les, h) + seq![sep] + interleave(rcs, res, h),
{
    lemma_interleave_split(fcs, fe, h, B as int);
    lemma_interleave_snoc_child(fcs.take(B as int), fe.take(B as int), h, fcs[B as int]);
    assert(fcs.take(B as int).push(fcs[B as int]) =~= fcs.take(B as int + 1));
    assert(interleave(fcs, fe, h) =~= interleave(fcs.take(B as int + 1), fe.take(B as int), h)
        + seq![fe[B as int]] + interleave(fcs.skip(B as int + 1), fe.skip(B as int + 1), h));
}

/// A node's subtree holds at least its first child's elements, its own
/// separators, and its last child's elements.
proof fn lemma_node_len_parts<K: OrdSize, V>(n: Node<K, V>, h: int)
    requires
        n.node_wf(h),
        n.es().len() >= 1,
    ensures
        n.node_seq(h).len() >= n.cs()[0].cseq(h - 1).len() + n.cs().last().cseq(h - 1).len()
            + n.es().len(),
{
    let cs = n.cs();
    let es = n.es();
    let m = cs.len() - 1;
    lemma_interleave_split(cs, es, h, m);
    let a = interleave(cs.take(m), es.take(m), h);
    assert(es.take(m) =~= es);
    assert(n.node_seq(h) == interleave(cs.take(m), es, h) + cs[m].cseq(h - 1) + Seq::<(K,
        V,
    )>::empty());
    // the prefix begins with child 0 and carries every separator
    assert(cs.take(m)[0] == cs[0]);
    assert(interleave(cs.take(m), es, h) == cs[0].cseq(h - 1) + seq![es[0]] + interleave(
        cs.take(m).skip(1),
        es.skip(1),
        h,
    ));
    lemma_children_ok_iff(cs, h, MIN_NUM_ELEMENTS as int);
    {
        assert(children_ok(cs.take(m).skip(1), h, MIN_NUM_ELEMENTS as int)) by {
            lemma_children_ok_iff(cs.take(m).skip(1), h, MIN_NUM_ELEMENTS as int);
            assert forall|j: int| 0 <= j < cs.take(m).skip(1).len() implies (#[trigger] cs.take(
                m,
            ).skip(1)[j]).cwf(h - 1) && MIN_NUM_ELEMENTS <= cs.take(m).skip(1)[j].num_elems() by {
                assert(cs.take(m).skip(1)[j] == cs[j + 1]);
            }
        }
        assert(weights_pos(es.skip(1))) by {
            assert forall|j: int| 0 <= j < es.skip(1).len() implies (#[trigger] es.skip(
                1,
            )[j].0.spec_size()) >= 1 by {
                assert(es.skip(1)[j] == es[j + 1]);
            }
        }
        lemma_interleave_weight(
            cs.take(m).skip(1),
            es.skip(1),
            h,
            MIN_NUM_ELEMENTS as int,
        );
    }
}

/// A well-formed subtree with at least one element at its top holds at
/// least two elements per level above the first: the depth of a tree is
/// logarithmic in (and in particular bounded by) its length.
pub proof fn lemma_height_len<K: OrdSize, V>(c: Child<K, V>, h: int)
    requires
        c.cwf(h),
        c.num_elems() >= 1,
    ensures
        c.cseq(h).len() >= 2 * (h - 1),
        c.cseq(h).len() >= 1,
    decreases h,
{
    match c {
        Child::Leaf(_) => {},
        Child::Node(n) => {
            lemma_node_len_parts(*n, h);
            lemma_children_ok_iff(n.cs(), h, MIN_NUM_ELEMENTS as int);
            let c0 = n.cs()[0];
            let cl = n.cs().last();
            assert(c0.cwf(h - 1) && c0.num_elems() >= MIN_NUM_ELEMENTS);
            assert(cl.cwf(h - 1) && cl.num_elems() >= MIN_NUM_ELEMENTS);
            lemma_height_len(c0, h - 1);
            lemma_height_len(cl, h - 1);
        },
    }
}

} // verus!
