//! Underflow resolution: when a child drops below `B - 1` elements after a
//! removal, its parent restores the bound by borrowing one element and one
//! child from a sibling with spare elements — preferring the right sibling,
//! then the left — or, when neither has any to spare, by merging the child
//! with a sibling, which costs the parent one separator.

use super::model::{lemma_weight_sum_nonneg, lemma_weight_sum_update, weight_sum};
use super::node::{
    children_ok, children_weight, interleave, lemma_children_ok_iff, lemma_children_weight_nonneg,
    lemma_children_weight_two, lemma_children_weight_update, lemma_interleave_join,
    lemma_interleave_snoc_child, lemma_interleave_snoc_elem, lemma_interleave_split,
    lemma_map_update, Child, Children, Node,
};
use super::store::{NodeElements, MIN_NUM_ELEMENTS};
use super::OrdSize;
use vstd::prelude::*;

verus! {

/// Two well-formed subtrees of the same height are of the same kind.
pub proof fn lemma_sibling_kind<K: OrdSize, V>(a: Child<K, V>, b: Child<K, V>, h: int)
    requires
        a.cwf(h),
        b.cwf(h),
    ensures
        (a is Node) <==> (b is Node),
{
}

/// A rotation from the right sibling preserves the node's subtree sequence:
/// the receiver at `idx` absorbed the old separator and the donor's first
/// child, the donor's first element became the new separator.
pub proof fn lemma_rotate_from_right<K: OrdSize, V>(
    cs: Seq<Child<K, V>>,
    es: Seq<(K, V)>,
    cs2: Seq<Child<K, V>>,
    es2: Seq<(K, V)>,
    idx: int,
    h: int,
    e0: (K, V),
    c0seq: Seq<(K, V)>,
)
    requires
        h >= 1,
        cs.len() == es.len() + 1,
        cs2.len() == cs.len(),
        es2.len() == es.len(),
        0 <= idx,
        idx + 1 < cs.len(),
        es2 == es.update(idx, e0),
        cs2.take(idx) == cs.take(idx),
        cs2.skip(idx + 2) == cs.skip(idx + 2),
        cs2[idx].cseq(h - 1) == cs[idx].cseq(h - 1) + seq![es[idx]] + c0seq,
        cs[idx + 1].cseq(h - 1) == c0seq + seq![e0] + cs2[idx + 1].cseq(h - 1),
    ensures
        interleave(cs2, es2, h) == interleave(cs, es, h),
{
    lemma_interleave_split(cs, es, h, idx);
    lemma_interleave_split(cs2, es2, h, idx);
    assert(es2.take(idx) =~= es.take(idx));
    assert(es2[idx] == e0);
    assert(es2.skip(idx + 1) =~= es.skip(idx + 1));
    let suf = interleave(cs.skip(idx + 1), es.skip(idx + 1), h);
    let suf2 = interleave(cs2.skip(idx + 1), es2.skip(idx + 1), h);
    assert(cs.skip(idx + 1)[0] == cs[idx + 1]);
    assert(cs2.skip(idx + 1)[0] == cs2[idx + 1]);
    if idx + 1 < es.len() {
        assert(cs.skip(idx + 1).skip(1) =~= cs.skip(idx + 2));
        assert(es.skip(idx + 1).skip(1) =~= es.skip(idx + 2));
        assert(cs2.skip(idx + 1).skip(1) =~= cs2.skip(idx + 2));
        assert(es2.skip(idx + 1).skip(1) =~= es2.skip(idx + 2));
        assert(es2.skip(idx + 2) =~= es.skip(idx + 2));
        assert(es.skip(idx + 1)[0] == es[idx + 1]);
        assert(es2.skip(idx + 1)[0] == es[idx + 1]);
        let rest = interleave(cs.skip(idx + 2), es.skip(idx + 2), h);
        assert(suf == cs[idx + 1].cseq(h - 1) + seq![es[idx + 1]] + rest);
        assert(suf2 == cs2[idx + 1].cseq(h - 1) + seq![es[idx + 1]] + rest);
        assert(interleave(cs2, es2, h) =~= interleave(cs, es, h));
    } else {
        assert(es.skip(idx + 1).len() == 0);
        assert(suf == cs[idx + 1].cseq(h - 1));
        assert(suf2 == cs2[idx + 1].cseq(h - 1));
        assert(interleave(cs2, es2, h) =~= interleave(cs, es, h));
    }
}

/// A rotation from the left sibling preserves the node's subtree sequence:
/// the receiver at `idx` absorbed the old separator and the donor's last
/// child at its front, the donor's last element became the new separator.
pub proof fn lemma_rotate_from_left<K: OrdSize, V>(
    cs: Seq<Child<K, V>>,
    es: Seq<(K, V)>,
    cs2: Seq<Child<K, V>>,
    es2: Seq<(K, V)>,
    idx: int,
    h: int,
    el: (K, V),
    lcseq: Seq<(K, V)>,
)
    requires
        h >= 1,
        cs.len() == es.len() + 1,
        cs2.len() == cs.len(),
        es2.len() == es.len(),
        1 <= idx < cs.len(),
        es2 == es.update(idx - 1, el),
        cs2.take(idx - 1) == cs.take(idx - 1),
        cs2.skip(idx + 1) == cs.skip(idx + 1),
        cs[idx - 1].cseq(h - 1) == cs2[idx - 1].cseq(h - 1) + seq![el] + lcseq,
        cs2[idx].cseq(h - 1) == lcseq + seq![es[idx - 1]] + cs[idx].cseq(h - 1),
    ensures
        interleave(cs2, es2, h) == interleave(cs, es, h),
{
    lemma_interleave_split(cs, es, h, idx - 1);
    lemma_interleave_split(cs2, es2, h, idx - 1);
    assert(es2.take(idx - 1) =~= es.take(idx - 1));
    assert(es2[idx - 1] == el);
    let suf = interleave(cs.skip(idx), es.skip(idx), h);
    let suf2 = interleave(cs2.skip(idx), es2.skip(idx), h);
    assert(cs.skip(idx)[0] == cs[idx]);
    assert(cs2.skip(idx)[0] == cs2[idx]);
    if idx < es.len() {
        assert(cs.skip(idx).skip(1) =~= cs.skip(idx + 1));
        assert(es.skip(idx).skip(1) =~= es.skip(idx + 1));
        assert(cs2.skip(idx).skip(1) =~= cs2.skip(idx + 1));
        assert(es2.skip(idx).skip(1) =~= es2.skip(idx + 1));
        assert(es2.skip(idx + 1) =~= es.skip(idx + 1));
        assert(es.skip(idx)[0] == es[idx]);
        assert(es2.skip(idx)[0] == es[idx]);
        let rest = interleave(cs.skip(idx + 1), es.skip(idx + 1), h);
        assert(suf == cs[idx].cseq(h - 1) + seq![es[idx]] + rest);
        assert(suf2 == cs2[idx].cseq(h - 1) + seq![es[idx]] + rest);
        assert(interleave(cs2, es2, h) =~= interleave(cs, es, h));
    } else {
        assert(es.skip(idx).len() == 0);
        assert(suf == cs[idx].cseq(h - 1));
        assert(suf2 == cs2[idx].cseq(h - 1));
        assert(interleave(cs2, es2, h) =~= interleave(cs, es, h));
    }
}

/// A merge of children `l` and `l + 1` around separator `l` preserves the
/// node's subtree sequence.
pub proof fn lemma_merge_children<K: OrdSize, V>(
    cs: Seq<Child<K, V>>,
    es: Seq<(K, V)>,
    cs2: Seq<Child<K, V>>,
    es2: Seq<(K, V)>,
    l: int,
    h: int,
)
    requires
        h >= 1,
        cs.len() == es.len() + 1,
        es.len() >= 1,
        0 <= l,
        l + 1 < cs.len(),
        cs2.len() == cs.len() - 1,
        es2 == es.remove(l),
        cs2.take(l) == cs.take(l),
        cs2.skip(l + 1) == cs.skip(l + 2),
        cs2[l].cseq(h - 1) == cs[l].cseq(h - 1) + seq![es[l]] + cs[l + 1].cseq(h - 1),
    ensures
        interleave(cs2, es2, h) == interleave(cs, es, h),
{
    lemma_interleave_split(cs, es, h, l);
    lemma_interleave_split(cs2, es2, h, l);
    assert(es2.take(l) =~= es.take(l));
    let suf = interleave(cs.skip(l + 1), es.skip(l + 1), h);
    assert(cs.skip(l + 1)[0] == cs[l + 1]);
    if l + 1 < es.len() {
        assert(cs.skip(l + 1).skip(1) =~= cs.skip(l + 2));
        assert(es.skip(l + 1).skip(1) =~= es.skip(l + 2));
        assert(es.skip(l + 1)[0] == es[l + 1]);
        let rest = interleave(cs.skip(l + 2), es.skip(l + 2), h);
        assert(suf == cs[l + 1].cseq(h - 1) + seq![es[l + 1]] + rest);
        assert(l < es2.len());
        assert(es2[l] == es[l + 1]);
        assert(es2.skip(l + 1) =~= es.skip(l + 2));
        assert(interleave(cs2, es2, h) =~= interleave(cs, es, h));
    } else {
        assert(es.skip(l + 1).len() == 0);
        assert(suf == cs[l + 1].cseq(h - 1));
        assert(l == es2.len());
        assert(interleave(cs2, es2, h) =~= interleave(cs, es, h));
    }
}

impl<K: OrdSize, V> Node<K, V> {
    /// Rotate one element and child from the right sibling of `child_idx`.
    fn borrow_from_right(&mut self, child_idx: usize, Ghost(h): Ghost<int>)
        requires
            old(self).shape_inv(),
            old(self).size_ok(),
            child_idx + 1 < old(self).cs().len(),
            h >= 2,
            forall|j: int|
                0 <= j < old(self).cs().len() ==> (#[trigger] old(self).cs()[j]).cwf(h - 1),
            forall|j: int|
                0 <= j < old(self).cs().len() && j != child_idx ==> (#[trigger] old(
                    self,
                ).cs()[j]).num_elems() >= MIN_NUM_ELEMENTS,
            old(self).cs()[child_idx as int].num_elems() == MIN_NUM_ELEMENTS - 1,
            old(self).cs()[child_idx as int + 1].num_elems() > MIN_NUM_ELEMENTS,
        ensures
            final(self).shape_inv(),
            final(self).size_ok(),
            final(self).elements.size == old(self).elements.size,
            final(self).children.is_nodes() == old(self).children.is_nodes(),
            children_ok(final(self).cs(), h, MIN_NUM_ELEMENTS as int),
            final(self).es().len() == old(self).es().len(),
            interleave(final(self).cs(), final(self).es(), h) == interleave(
                old(self).cs(),
                old(self).es(),
                h,
            ),
    {
        let ghost cs = self.cs();
        let ghost es = self.es();
        let ghost idx = child_idx as int;
        proof {
            lemma_children_weight_two(cs, idx, idx + 1);
            lemma_weight_sum_nonneg(es);
            lemma_children_weight_nonneg(cs);
            super::model::lemma_elem_weight_le(es, idx);
        }
        match &mut self.children {
            Children::Nodes(v) => {
                let ghost f = |b: Box<Node<K, V>>| Child::<K, V>::Node(b);
                let ghost recv0 = v@[idx];
                let ghost donor0 = v@[idx + 1];
                proof {
                    assert(cs[idx] == f(recv0));
                    assert(cs[idx + 1] == f(donor0));
                    assert(cs[idx].cwf(h - 1));
                    assert(cs[idx + 1].cwf(h - 1));
                    lemma_children_ok_iff(donor0.cs(), h - 1, MIN_NUM_ELEMENTS as int);
                    lemma_children_weight_nonneg(donor0.cs());
                    lemma_weight_sum_nonneg(donor0.es());
                    super::node::lemma_children_weight_elem_le(donor0.cs(), 0);
                    super::model::lemma_elem_weight_le(donor0.es(), 0);
                }
                let (e0k, e0v, c0) = v[child_idx + 1].remove_first();
                let ghost donor1 = v@[idx + 1];
                let (sk, sv) = self.elements.swap_elem(child_idx, e0k, e0v);
                proof {
                    assert(recv0.node_wf(h - 1));
                    lemma_children_ok_iff(recv0.cs(), h - 1, MIN_NUM_ELEMENTS as int);
                    assert(recv0.cs().len() >= 1);
                    assert(recv0.cs()[0].cwf(h - 2));
                    assert(donor0.cs()[0].cwf(h - 2));
                    lemma_sibling_kind(recv0.cs()[0], donor0.cs()[0], h - 2);
                    assert(recv0.children.accepts(donor0.cs()[0])) by {
                        match recv0.children {
                            Children::Nodes(w) => {
                                assert(recv0.cs()[0] == Child::<K, V>::Node(w@[0]));
                            },
                            Children::Leafs(w) => {
                                assert(recv0.cs()[0] == Child::<K, V>::Leaf(w@[0]));
                            },
                        }
                    }
                }
                let ovf = v[child_idx].push(sk, sv, c0);
                let ghost recv1 = v@[idx];
                proof {
                    assert(ovf is None);
                    assert(v@ =~= old(self).children->Nodes_0@.update(idx + 1, donor1).update(
                        idx,
                        recv1,
                    ));
                    lemma_map_update(
                        old(self).children->Nodes_0@.update(idx + 1, donor1),
                        idx,
                        recv1,
                        f,
                    );
                    lemma_map_update(old(self).children->Nodes_0@, idx + 1, donor1, f);
                    let cs2 = cs.update(idx + 1, f(donor1)).update(idx, f(recv1));
                    assert(self.cs() =~= cs2);
                    let es2 = self.es();
                    assert(es2 =~= es.update(idx, (e0k, e0v)));
                    // the receiver absorbed the separator and the donor's first child
                    let c0seq = donor0.cs()[0].cseq(h - 2);
                    assert(cs2[idx].cseq(h - 1) == cs[idx].cseq(h - 1) + seq![es[idx]] + c0seq) by {
                        lemma_interleave_snoc_child(
                            recv0.cs(),
                            recv0.es().push((sk, sv)),
                            h - 1,
                            donor0.cs()[0],
                        );
                        lemma_interleave_snoc_elem(recv0.cs(), recv0.es(), h - 1, (sk, sv));
                        assert(recv1.cs() =~= recv0.cs().push(donor0.cs()[0]));
                        assert(recv1.es() =~= recv0.es().push((sk, sv)));
                        assert((sk, sv) == es[idx]);
                    }
                    // the donor shed its first element and child
                    assert(cs[idx + 1].cseq(h - 1) == c0seq + seq![(e0k, e0v)] + cs2[idx
                        + 1].cseq(h - 1)) by {
                        assert(donor0.es().len() >= 1);
                        assert(donor1.es() =~= donor0.es().remove(0));
                        assert(donor1.cs() =~= donor0.cs().remove(0));
                        assert(donor0.es().remove(0) =~= donor0.es().skip(1));
                        assert(donor0.cs().remove(0) =~= donor0.cs().skip(1));
                        assert(donor0.node_seq(h - 1) == donor0.cs()[0].cseq(h - 2) + seq![
                            donor0.es()[0],
                        ] + interleave(donor0.cs().skip(1), donor0.es().skip(1), h - 1));
                        assert((e0k, e0v) == donor0.es()[0]);
                    }
                    assert(cs2.take(idx) =~= cs.take(idx));
                    assert(cs2.skip(idx + 2) =~= cs.skip(idx + 2));
                    lemma_rotate_from_right(cs, es, cs2, es2, idx, h, (e0k, e0v), c0seq);
                    // sizes: the separator weight moved into the receiver and the
                    // donor's first element weight moved out to the parent
                    lemma_weight_sum_update(es, idx, (e0k, e0v));
                    lemma_children_weight_update(cs.update(idx + 1, f(donor1)), idx, f(recv1));
                    lemma_children_weight_update(cs, idx + 1, f(donor1));
                    assert(cs.update(idx + 1, f(donor1))[idx] == cs[idx]);
                    super::model::lemma_weight_sum_push(recv0.es(), (sk, sv));
                    super::node::lemma_children_weight_push(recv0.cs(), donor0.cs()[0]);
                    super::model::lemma_weight_sum_remove(donor0.es(), 0);
                    super::node::lemma_children_weight_remove(donor0.cs(), 0);
                    // the bound restored on every child
                    lemma_children_ok_iff(cs2, h, MIN_NUM_ELEMENTS as int);
                    lemma_children_ok_iff(recv1.cs(), h - 1, MIN_NUM_ELEMENTS as int);
                    lemma_children_ok_iff(donor1.cs(), h - 1, MIN_NUM_ELEMENTS as int);
                    assert(forall|j: int|
                        0 <= j < donor1.cs().len() ==> donor1.cs()[j] == #[trigger] donor0.cs()[j
                            + 1]);
                    assert(forall|j: int|
                        0 <= j < recv0.cs().len() ==> #[trigger] recv1.cs()[j] == recv0.cs()[j]);
                    assert(recv1.cs()[recv0.cs().len() as int] == donor0.cs()[0]);
                    assert(recv1.node_wf(h - 1));
                    assert(donor1.node_wf(h - 1));
                    assert forall|j: int| 0 <= j < cs2.len() implies (#[trigger] cs2[j]).cwf(h - 1)
                        && MIN_NUM_ELEMENTS <= cs2[j].num_elems() by {
                        if j != idx && j != idx + 1 {
                            assert(cs2[j] == cs[j]);
                        }
                    }
                }
            },
            Children::Leafs(v) => {
                let ghost f = |b: Box<NodeElements<K, V>>| Child::<K, V>::Leaf(b);
                let ghost recv0 = v@[idx];
                let ghost donor0 = v@[idx + 1];
                proof {
                    assert(cs[idx] == f(recv0));
                    assert(cs[idx + 1] == f(donor0));
                    assert(cs[idx].cwf(h - 1));
                    assert(cs[idx + 1].cwf(h - 1));
                    super::model::lemma_elem_weight_le(donor0.seq(), 0);
                    lemma_weight_sum_nonneg(donor0.seq());
                }
                let (e0k, e0v) = v[child_idx + 1].remove(0);
                let ghost donor1 = v@[idx + 1];
                let (sk, sv) = self.elements.swap_elem(child_idx, e0k, e0v);
                let ovf = v[child_idx].push(sk, sv);
                let ghost recv1 = v@[idx];
                proof {
                    assert(ovf is None);
                    assert(v@ =~= old(self).children->Leafs_0@.update(idx + 1, donor1).update(
                        idx,
                        recv1,
                    ));
                    lemma_map_update(
                        old(self).children->Leafs_0@.update(idx + 1, donor1),
                        idx,
                        recv1,
                        f,
                    );
                    lemma_map_update(old(self).children->Leafs_0@, idx + 1, donor1, f);
                    let cs2 = cs.update(idx + 1, f(donor1)).update(idx, f(recv1));
                    assert(self.cs() =~= cs2);
                    let es2 = self.es();
                    assert(es2 =~= es.update(idx, (e0k, e0v)));
                    let c0seq = Seq::<(K, V)>::empty();
                    assert(cs2[idx].cseq(h - 1) == cs[idx].cseq(h - 1) + seq![es[idx]] + c0seq) by {
                        assert(recv1.seq() =~= recv0.seq().push((sk, sv)));
                        assert(recv0.seq().push((sk, sv)) =~= recv0.seq() + seq![(sk, sv)]
                            + c0seq);
                        assert((sk, sv) == es[idx]);
                    }
                    assert(cs[idx + 1].cseq(h - 1) == c0seq + seq![(e0k, e0v)] + cs2[idx
                        + 1].cseq(h - 1)) by {
                        assert(donor1.seq() =~= donor0.seq().remove(0));
                        assert((e0k, e0v) == donor0.seq()[0]);
                        assert(c0seq + seq![(e0k, e0v)] + donor0.seq().remove(0) =~= donor0.seq());
                    }
                    assert(cs2.take(idx) =~= cs.take(idx));
                    assert(cs2.skip(idx + 2) =~= cs.skip(idx + 2));
                    lemma_rotate_from_right(cs, es, cs2, es2, idx, h, (e0k, e0v), c0seq);
                    lemma_weight_sum_update(es, idx, (e0k, e0v));
                    lemma_children_weight_update(cs.update(idx + 1, f(donor1)), idx, f(recv1));
                    lemma_children_weight_update(cs, idx + 1, f(donor1));
                    assert(cs.update(idx + 1, f(donor1))[idx] == cs[idx]);
                    super::model::lemma_weight_sum_push(recv0.seq(), (sk, sv));
                    super::model::lemma_weight_sum_remove(donor0.seq(), 0);
                    lemma_children_ok_iff(cs2, h, MIN_NUM_ELEMENTS as int);
                    assert forall|j: int| 0 <= j < cs2.len() implies (#[trigger] cs2[j]).cwf(h - 1)
                        && MIN_NUM_ELEMENTS <= cs2[j].num_elems() by {
                        if j != idx && j != idx + 1 {
                            assert(cs2[j] == cs[j]);
                        }
                    }
                }
            },
        }
    }
}

impl<K: OrdSize, V> Node<K, V> {
    /// Rotate one element and child from the left sibling of `child_idx`.
    fn borrow_from_left(&mut self, child_idx: usize, Ghost(h): Ghost<int>)
        requires
            old(self).shape_inv(),
            old(self).size_ok(),
            0 < child_idx < old(self).cs().len(),
            h >= 2,
            forall|j: int|
                0 <= j < old(self).cs().len() ==> (#[trigger] old(self).cs()[j]).cwf(h - 1),
            forall|j: int|
                0 <= j < old(self).cs().len() && j != child_idx ==> (#[trigger] old(
                    self,
                ).cs()[j]).num_elems() >= MIN_NUM_ELEMENTS,
            old(self).cs()[child_idx as int].num_elems() == MIN_NUM_ELEMENTS - 1,
            old(self).cs()[child_idx as int - 1].num_elems() > MIN_NUM_ELEMENTS,
        ensures
            final(self).shape_inv(),
            final(self).size_ok(),
            final(self).elements.size == old(self).elements.size,
            final(self).children.is_nodes() == old(self).children.is_nodes(),
            children_ok(final(self).cs(), h, MIN_NUM_ELEMENTS as int),
            final(self).es().len() == old(self).es().len(),
            interleave(final(self).cs(), final(self).es(), h) == interleave(
                old(self).cs(),
                old(self).es(),
                h,
            ),
    {
        let ghost cs = self.cs();
        let ghost es = self.es();
        let ghost idx = child_idx as int;
        proof {
            lemma_children_weight_two(cs, idx - 1, idx);
            lemma_weight_sum_nonneg(es);
            lemma_children_weight_nonneg(cs);
            super::model::lemma_elem_weight_le(es, idx - 1);
        }
        match &mut self.children {
            Children::Nodes(v) => {
                let ghost f = |b: Box<Node<K, V>>| Child::<K, V>::Node(b);
                let ghost recv0 = v@[idx];
                let ghost donor0 = v@[idx - 1];
                proof {
                    assert(cs[idx] == f(recv0));
                    assert(cs[idx - 1] == f(donor0));
                    assert(cs[idx].cwf(h - 1));
                    assert(cs[idx - 1].cwf(h - 1));
                    lemma_children_ok_iff(donor0.cs(), h - 1, MIN_NUM_ELEMENTS as int);
                    lemma_children_weight_nonneg(donor0.cs());
                    lemma_weight_sum_nonneg(donor0.es());
                    super::node::lemma_children_weight_elem_le(
                        donor0.cs(),
                        donor0.cs().len() - 1,
                    );
                    super::model::lemma_elem_weight_le(donor0.es(), donor0.es().len() - 1);
                }
                let popped = v[child_idx - 1].pop();
                let (lk, lv, lc) = match popped {
                    Some(t) => t,
                    None => vstd::pervasive::unreached(),
                };
                let ghost donor1 = v@[idx - 1];
                let (sk, sv) = self.elements.swap_elem(child_idx - 1, lk, lv);
                proof {
                    assert(recv0.node_wf(h - 1));
                    lemma_children_ok_iff(recv0.cs(), h - 1, MIN_NUM_ELEMENTS as int);
                    assert(recv0.cs().len() >= 1);
                    assert(recv0.cs()[0].cwf(h - 2));
                    assert(donor0.cs()[donor0.cs().len() - 1].cwf(h - 2));
                    assert(lc == donor0.cs().last());
                    lemma_sibling_kind(recv0.cs()[0], donor0.cs().last(), h - 2);
                    assert(recv0.children.accepts(lc)) by {
                        match recv0.children {
                            Children::Nodes(w) => {
                                assert(recv0.cs()[0] == Child::<K, V>::Node(w@[0]));
                            },
                            Children::Leafs(w) => {
                                assert(recv0.cs()[0] == Child::<K, V>::Leaf(w@[0]));
                            },
                        }
                    }
                }
                v[child_idx].insert_first(sk, sv, lc);
                let ghost recv1 = v@[idx];
                proof {
                    assert(v@ =~= old(self).children->Nodes_0@.update(idx - 1, donor1).update(
                        idx,
                        recv1,
                    ));
                    lemma_map_update(
                        old(self).children->Nodes_0@.update(idx - 1, donor1),
                        idx,
                        recv1,
                        f,
                    );
                    lemma_map_update(old(self).children->Nodes_0@, idx - 1, donor1, f);
                    let cs2 = cs.update(idx - 1, f(donor1)).update(idx, f(recv1));
                    assert(self.cs() =~= cs2);
                    let es2 = self.es();
                    assert(es2 =~= es.update(idx - 1, (lk, lv)));
                    let lcseq = donor0.cs().last().cseq(h - 2);
                    assert(cs[idx - 1].cseq(h - 1) == cs2[idx - 1].cseq(h - 1) + seq![(lk, lv)]
                        + lcseq) by {
                        assert(donor0.es() =~= donor1.es().push((lk, lv)));
                        assert(donor0.cs() =~= donor1.cs().push(lc));
                        lemma_interleave_snoc_child(
                            donor1.cs(),
                            donor1.es().push((lk, lv)),
                            h - 1,
                            lc,
                        );
                        lemma_interleave_snoc_elem(donor1.cs(), donor1.es(), h - 1, (lk, lv));
                    }
                    assert(cs2[idx].cseq(h - 1) == lcseq + seq![es[idx - 1]] + cs[idx].cseq(
                        h - 1,
                    )) by {
                        assert(recv1.es() =~= recv0.es().insert(0, (sk, sv)));
                        assert(recv1.cs() =~= recv0.cs().insert(0, lc));
                        assert(recv1.cs()[0] == lc);
                        assert(recv1.es()[0] == (sk, sv));
                        assert(recv1.cs().skip(1) =~= recv0.cs());
                        assert(recv1.es().skip(1) =~= recv0.es());
                        assert(recv1.node_seq(h - 1) == lc.cseq(h - 2) + seq![(sk, sv)]
                            + interleave(recv0.cs(), recv0.es(), h - 1));
                        assert((sk, sv) == es[idx - 1]);
                    }
                    assert(cs2.take(idx - 1) =~= cs.take(idx - 1));
                    assert(cs2.skip(idx + 1) =~= cs.skip(idx + 1));
                    lemma_rotate_from_left(cs, es, cs2, es2, idx, h, (lk, lv), lcseq);
                    lemma_weight_sum_update(es, idx - 1, (lk, lv));
                    lemma_children_weight_update(cs.update(idx - 1, f(donor1)), idx, f(recv1));
                    lemma_children_weight_update(cs, idx - 1, f(donor1));
                    assert(cs.update(idx - 1, f(donor1))[idx] == cs[idx]);
                    assert(donor0.es() =~= donor1.es().push((lk, lv)));
                    assert(donor0.cs() =~= donor1.cs().push(lc));
                    super::model::lemma_weight_sum_push(donor1.es(), (lk, lv));
                    super::node::lemma_children_weight_push(donor1.cs(), lc);
                    super::model::lemma_weight_sum_insert(recv0.es(), 0, (sk, sv));
                    super::node::lemma_children_weight_insert(recv0.cs(), 0, lc);
                    lemma_children_ok_iff(cs2, h, MIN_NUM_ELEMENTS as int);
                    lemma_children_ok_iff(recv1.cs(), h - 1, MIN_NUM_ELEMENTS as int);
                    lemma_children_ok_iff(donor1.cs(), h - 1, MIN_NUM_ELEMENTS as int);
                    assert(forall|j: int|
                        0 <= j < donor1.cs().len() ==> #[trigger] donor1.cs()[j] == donor0.cs()[j]);
                    assert(forall|j: int|
                        0 <= j < recv0.cs().len() ==> #[trigger] recv1.cs()[j + 1]
                            == recv0.cs()[j]);
                    assert(recv1.node_wf(h - 1));
                    assert(donor1.node_wf(h - 1));
                    assert forall|j: int| 0 <= j < cs2.len() implies (#[trigger] cs2[j]).cwf(h - 1)
                        && MIN_NUM_ELEMENTS <= cs2[j].num_elems() by {
                        if j != idx && j != idx - 1 {
                            assert(cs2[j] == cs[j]);
                        }
                    }
                }
            },
            Children::Leafs(v) => {
                let ghost f = |b: Box<NodeElements<K, V>>| Child::<K, V>::Leaf(b);
                let ghost recv0 = v@[idx];
                let ghost donor0 = v@[idx - 1];
                proof {
                    assert(cs[idx] == f(recv0));
                    assert(cs[idx - 1] == f(donor0));
                    assert(cs[idx].cwf(h - 1));
                    assert(cs[idx - 1].cwf(h - 1));
                    super::model::lemma_elem_weight_le(donor0.seq(), donor0.seq().len() - 1);
                    lemma_weight_sum_nonneg(donor0.seq());
                }
                let popped = v[child_idx - 1].pop();
                let (lk, lv) = match popped {
                    Some(t) => t,
                    None => vstd::pervasive::unreached(),
                };
                let ghost donor1 = v@[idx - 1];
                let (sk, sv) = self.elements.swap_elem(child_idx - 1, lk, lv);
                let ovf = v[child_idx].insert(0, sk, sv);
                let ghost recv1 = v@[idx];
                proof {
                    assert(ovf is None);
                    assert(v@ =~= old(self).children->Leafs_0@.update(idx - 1, donor1).update(
                        idx,
                        recv1,
                    ));
                    lemma_map_update(
                        old(self).children->Leafs_0@.update(idx - 1, donor1),
                        idx,
                        recv1,
                        f,
                    );
                    lemma_map_update(old(self).children->Leafs_0@, idx - 1, donor1, f);
                    let cs2 = cs.update(idx - 1, f(donor1)).update(idx, f(recv1));
                    assert(self.cs() =~= cs2);
                    let es2 = self.es();
                    assert(es2 =~= es.update(idx - 1, (lk, lv)));
                    let lcseq = Seq::<(K, V)>::empty();
                    assert(cs[idx - 1].cseq(h - 1) == cs2[idx - 1].cseq(h - 1) + seq![(lk, lv)]
                        + lcseq) by {
                        assert(donor0.seq() =~= donor1.seq().push((lk, lv)));
                        assert(donor1.seq().push((lk, lv)) =~= donor1.seq() + seq![(lk, lv)]
                            + lcseq);
                    }
                    assert(cs2[idx].cseq(h - 1) == lcseq + seq![es[idx - 1]] + cs[idx].cseq(
                        h - 1,
                    )) by {
                        assert(recv1.seq() =~= recv0.seq().insert(0, (sk, sv)));
                        assert(lcseq + seq![(sk, sv)] + recv0.seq() =~= recv0.seq().insert(
                            0,
                            (sk, sv),
                        ));
                        assert((sk, sv) == es[idx - 1]);
                    }
                    assert(cs2.take(idx - 1) =~= cs.take(idx - 1));
                    assert(cs2.skip(idx + 1) =~= cs.skip(idx + 1));
                    lemma_rotate_from_left(cs, es, cs2, es2, idx, h, (lk, lv), lcseq);
                    lemma_weight_sum_update(es, idx - 1, (lk, lv));
                    lemma_children_weight_update(cs.update(idx - 1, f(donor1)), idx, f(recv1));
                    lemma_children_weight_update(cs, idx - 1, f(donor1));
                    assert(cs.update(idx - 1, f(donor1))[idx] == cs[idx]);
                    assert(donor0.seq() =~= donor1.seq().push((lk, lv)));
                    super::model::lemma_weight_sum_push(donor1.seq(), (lk, lv));
                    super::model::lemma_weight_sum_insert(recv0.seq(), 0, (sk, sv));
                    lemma_children_ok_iff(cs2, h, MIN_NUM_ELEMENTS as int);
                    assert forall|j: int| 0 <= j < cs2.len() implies (#[trigger] cs2[j]).cwf(h - 1)
                        && MIN_NUM_ELEMENTS <= cs2[j].num_elems() by {
                        if j != idx && j != idx - 1 {
                            assert(cs2[j] == cs[j]);
                        }
                    }
                }
            },
        }
    }

    /// Merge the child at `child_idx` with a sibling around their parent
    /// separator; the parent loses that separator.
    fn merge_child(&mut self, child_idx: usize, Ghost(h): Ghost<int>)
        requires
            old(self).shape_inv(),
            old(self).size_ok(),
            old(self).es().len() >= 1,
            child_idx < old(self).cs().len(),
            h >= 2,
            forall|j: int|
                0 <= j < old(self).cs().len() ==> (#[trigger] old(self).cs()[j]).cwf(h - 1),
            forall|j: int|
                0 <= j < old(self).cs().len() && j != child_idx ==> (#[trigger] old(
                    self,
                ).cs()[j]).num_elems() >= MIN_NUM_ELEMENTS,
            old(self).cs()[child_idx as int].num_elems() == MIN_NUM_ELEMENTS - 1,
            child_idx == 0 ==> old(self).cs()[1].num_elems() <= MIN_NUM_ELEMENTS,
            child_idx > 0 ==> old(self).cs()[child_idx as int - 1].num_elems()
                <= MIN_NUM_ELEMENTS,
        ensures
            final(self).shape_inv(),
            final(self).size_ok(),
            final(self).elements.size == old(self).elements.size,
            final(self).children.is_nodes() == old(self).children.is_nodes(),
            children_ok(final(self).cs(), h, MIN_NUM_ELEMENTS as int),
            final(self).es().len() == old(self).es().len() - 1,
            interleave(final(self).cs(), final(self).es(), h) == interleave(
                old(self).cs(),
                old(self).es(),
                h,
            ),
    {
        let ghost cs = self.cs();
        let ghost es = self.es();
        let lft = if child_idx == 0 {
            0
        } else {
            child_idx - 1
        };
        let ghost l = lft as int;
        proof {
            lemma_children_weight_two(cs, l, l + 1);
            lemma_weight_sum_nonneg(es);
            lemma_children_weight_nonneg(cs);
            super::model::lemma_elem_weight_le(es, l);
            assert(cs[l].cwf(h - 1));
            assert(cs[l + 1].cwf(h - 1));
        }
        let (sk, sv, right_child) = self.remove(lft);
        let skw = sk.size();
        let rsz = right_child.size();
        proof {
            super::model::lemma_weight_sum_remove(es, l);
            super::node::lemma_children_weight_remove(cs, l + 1);
        }
        self.elements.size = self.elements.size + skw + rsz;
        let ghost es1 = es.remove(l);
        let ghost cs1 = cs.remove(l + 1);
        proof {
            assert(self.cs() =~= cs1);
        }
        match (&mut self.children, right_child) {
            (Children::Nodes(v), Child::Node(rb)) => {
                let ghost f = |b: Box<Node<K, V>>| Child::<K, V>::Node(b);
                let ghost varm = v@;
                let ghost lc0 = v@[l];
                proof {
                    assert(cs1[l] == cs[l]);
                    assert(cs1[l] == f(lc0));
                    assert(lc0.node_wf(h - 1));
                    assert(cs[l + 1] == Child::<K, V>::Node(rb));
                    assert(rb.node_wf(h - 1));
                    lemma_children_ok_iff(lc0.cs(), h - 1, MIN_NUM_ELEMENTS as int);
                    lemma_children_ok_iff(rb.cs(), h - 1, MIN_NUM_ELEMENTS as int);
                    assert(lc0.cs().len() >= 1 && rb.cs().len() >= 1);
                    lemma_sibling_kind(lc0.cs()[0], rb.cs()[0], h - 2);
                    assert(lc0.children.is_nodes() == rb.children.is_nodes()) by {
                        match lc0.children {
                            Children::Nodes(w) => {
                                assert(lc0.cs()[0] == Child::<K, V>::Node(w@[0]));
                            },
                            Children::Leafs(w) => {
                                assert(lc0.cs()[0] == Child::<K, V>::Leaf(w@[0]));
                            },
                        }
                        match rb.children {
                            Children::Nodes(w) => {
                                assert(rb.cs()[0] == Child::<K, V>::Node(w@[0]));
                            },
                            Children::Leafs(w) => {
                                assert(rb.cs()[0] == Child::<K, V>::Leaf(w@[0]));
                            },
                        }
                    }
                }
                v[lft].merge(sk, sv, rb);
                let ghost lc1 = v@[l];
                proof {
                    assert(varm.map_values(f) =~= cs1);
                    assert(v@ =~= varm.update(l, lc1));
                    lemma_map_update(varm, l, lc1, f);
                    let cs2 = cs1.update(l, f(lc1));
                    assert(self.cs() =~= cs2);
                    assert(self.es() =~= es1);
                    assert(cs2[l].cseq(h - 1) == cs[l].cseq(h - 1) + seq![es[l]] + cs[l
                        + 1].cseq(h - 1)) by {
                        assert(lc1.es() =~= lc0.es().push((sk, sv)) + rb.es());
                        assert(lc1.cs() =~= lc0.cs() + rb.cs());
                        lemma_interleave_join(lc0.cs(), lc0.es(), rb.cs(), rb.es(), (sk, sv), h - 1);
                        assert((sk, sv) == es[l]);
                    }
                    assert(cs2.take(l) =~= cs.take(l));
                    assert(cs2.skip(l + 1) =~= cs.skip(l + 2));
                    lemma_merge_children(cs, es, cs2, es1, l, h);
                    // sizes
                    super::model::lemma_weight_sum_concat(lc0.es().push((sk, sv)), rb.es());
                    super::model::lemma_weight_sum_push(lc0.es(), (sk, sv));
                    super::node::lemma_children_weight_concat(lc0.cs(), rb.cs());
                    lemma_children_weight_update(cs1, l, f(lc1));
                    lemma_children_ok_iff(cs2, h, MIN_NUM_ELEMENTS as int);
                    lemma_children_ok_iff(lc1.cs(), h - 1, MIN_NUM_ELEMENTS as int);
                    assert(forall|j: int|
                        0 <= j < lc0.cs().len() ==> #[trigger] lc1.cs()[j] == lc0.cs()[j]);
                    assert(forall|j: int|
                        0 <= j < rb.cs().len() ==> #[trigger] lc1.cs()[j + lc0.cs().len()]
                            == rb.cs()[j]);
                    assert(lc1.node_wf(h - 1));
                    assert forall|j: int| 0 <= j < cs2.len() implies (#[trigger] cs2[j]).cwf(h - 1)
                        && MIN_NUM_ELEMENTS <= cs2[j].num_elems() by {
                        if j != l {
                            if j < l {
                                assert(cs2[j] == cs[j]);
                            } else {
                                assert(cs2[j] == cs[j + 1]);
                            }
                        }
                    }
                }
            },
            (Children::Leafs(v), Child::Leaf(rb)) => {
                let ghost f = |b: Box<NodeElements<K, V>>| Child::<K, V>::Leaf(b);
                let ghost varm = v@;
                let ghost lc0 = v@[l];
                proof {
                    assert(cs1[l] == cs[l]);
                    assert(cs1[l] == f(lc0));
                    assert(cs[l + 1] == Child::<K, V>::Leaf(rb));
                    lemma_weight_sum_nonneg(lc0.seq());
                    lemma_weight_sum_nonneg(rb.seq());
                }
                let mut rb_box = rb;
                v[lft].merge(sk, sv, &mut rb_box);
                let ghost lc1 = v@[l];
                proof {
                    assert(varm.map_values(f) =~= cs1);
                    assert(v@ =~= varm.update(l, lc1));
                    lemma_map_update(varm, l, lc1, f);
                    let cs2 = cs1.update(l, f(lc1));
                    assert(self.cs() =~= cs2);
                    assert(self.es() =~= es1);
                    assert(cs2[l].cseq(h - 1) == cs[l].cseq(h - 1) + seq![es[l]] + cs[l
                        + 1].cseq(h - 1)) by {
                        assert(lc1.seq() =~= lc0.seq().push((sk, sv)) + rb.seq());
                        assert(lc0.seq().push((sk, sv)) + rb.seq() =~= lc0.seq() + seq![(sk, sv)]
                            + rb.seq());
                        assert((sk, sv) == es[l]);
                    }
                    assert(cs2.take(l) =~= cs.take(l));
                    assert(cs2.skip(l + 1) =~= cs.skip(l + 2));
                    lemma_merge_children(cs, es, cs2, es1, l, h);
                    lemma_children_weight_update(cs1, l, f(lc1));
                    lemma_children_ok_iff(cs2, h, MIN_NUM_ELEMENTS as int);
                    assert forall|j: int| 0 <= j < cs2.len() implies (#[trigger] cs2[j]).cwf(h - 1)
                        && MIN_NUM_ELEMENTS <= cs2[j].num_elems() by {
                        if j != l {
                            if j < l {
                                assert(cs2[j] == cs[j]);
                            } else {
                                assert(cs2[j] == cs[j + 1]);
                            }
                        }
                    }
                }
            },
            _ => vstd::pervasive::unreached(),
        }
    }

    /// Restore the lower element bound of child `child_idx`, which holds
    /// one element too few, by borrowing from the right sibling, else from
    /// the left sibling, else by merging with a sibling. The subtree's
    /// element sequence and total size are unchanged; the node may lose one
    /// of its own separators (in the merge case), which the caller must in
    /// turn resolve.
    pub fn resolve_underflow(&mut self, child_idx: usize, Ghost(h): Ghost<int>)
        requires
            old(self).shape_inv(),
            old(self).size_ok(),
            old(self).es().len() >= 1,
            child_idx < old(self).cs().len(),
            h >= 2,
            forall|j: int|
                0 <= j < old(self).cs().len() ==> (#[trigger] old(self).cs()[j]).cwf(h - 1),
            forall|j: int|
                0 <= j < old(self).cs().len() && j != child_idx ==> (#[trigger] old(
                    self,
                ).cs()[j]).num_elems() >= MIN_NUM_ELEMENTS,
            old(self).cs()[child_idx as int].num_elems() == MIN_NUM_ELEMENTS - 1,
        ensures
            final(self).shape_inv(),
            final(self).size_ok(),
            final(self).elements.size == old(self).elements.size,
            final(self).children.is_nodes() == old(self).children.is_nodes(),
            children_ok(final(self).cs(), h, MIN_NUM_ELEMENTS as int),
            old(self).es().len() - 1 <= final(self).es().len() <= old(self).es().len(),
            interleave(final(self).cs(), final(self).es(), h) == interleave(
                old(self).cs(),
                old(self).es(),
                h,
            ),
    {
        let n = self.elements.keys.len();
        let mut from_right: bool = false;
        if child_idx < n {
            if self.children.num_elements_at(child_idx + 1) > MIN_NUM_ELEMENTS {
                from_right = true;
            }
        }
        if from_right {
            self.borrow_from_right(child_idx, Ghost(h));
        } else {
            let mut from_left: bool = false;
            if child_idx > 0 {
                if self.children.num_elements_at(child_idx - 1) > MIN_NUM_ELEMENTS {
                    from_left = true;
                }
            }
            if from_left {
                self.borrow_from_left(child_idx, Ghost(h));
            } else {
                self.merge_child(child_idx, Ghost(h));
            }
        }
    }
}

} // verus!
