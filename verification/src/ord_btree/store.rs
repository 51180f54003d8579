//! The node building blocks of the tree: the bounded element store shared by
//! leaves and internal nodes, the child variants, and the node-level
//! push/insert/pop/remove and split/merge choreography.

use super::model::{
    lemma_elem_weight_le, lemma_weight_sum_concat, lemma_weight_sum_insert,
    lemma_weight_sum_nonneg, lemma_weight_sum_push, lemma_weight_sum_remove,
    lemma_weight_sum_take_le, lemma_weights_pos_concat, lemma_weights_pos_subrange, weight_sum,
    weights_pos,
};
use super::OrdSize;
use vstd::prelude::*;

verus! {

/// The branching parameter: elements per node lie in `[B - 1, 2 * B - 1]`,
/// children per internal node in `[B, 2 * B]`.
pub const B: usize = 6;

pub const MIN_NUM_ELEMENTS: usize = B - 1;

pub const MAX_NUM_ELEMENTS: usize = 2 * B - 1;

pub const MIN_NUM_CHILDREN: usize = B;

pub const MAX_NUM_CHILDREN: usize = 2 * B;

/// A bounded ordered sequence of `(key, value)` pairs with a cached size.
///
/// Used both as the storage of a leaf, where `size` caches exactly the sum
/// of the element weights, and as the element store of an internal node,
/// where `size` caches the whole subtree weight (own elements plus all
/// children).
pub struct NodeElements<K: OrdSize, V> {
    pub keys: Vec<K>,
    pub values: Vec<V>,
    pub size: usize,
}

impl<K: OrdSize, V> NodeElements<K, V> {
    /// The stored elements, in order.
    pub open spec fn seq(&self) -> Seq<(K, V)> {
        Seq::new(self.keys@.len(), |i: int| (self.keys@[i], self.values@[i]))
    }

    /// Structural well-formedness: parallel key/value storage within bounds,
    /// all weights positive.
    pub open spec fn seq_inv(&self) -> bool {
        &&& self.keys@.len() == self.values@.len()
        &&& self.keys@.len() <= MAX_NUM_ELEMENTS
        &&& weights_pos(self.seq())
    }

    /// The cached size is at least the weight of the stored elements (an
    /// internal node also counts its children in `size`).
    pub open spec fn size_lb(&self) -> bool {
        weight_sum(self.seq()) <= self.size
    }

    /// The cached size is exactly the weight of the stored elements: the
    /// leaf form of the size invariant.
    pub open spec fn size_exact(&self) -> bool {
        self.size == weight_sum(self.seq())
    }

    /// Well-formedness of a leaf.
    pub open spec fn leaf_wf(&self) -> bool {
        self.seq_inv() && self.size_exact()
    }

    /// A fresh empty store.
    pub fn new() -> (r: Self)
        ensures
            r.seq() =~= Seq::<(K, V)>::empty(),
            r.leaf_wf(),
            r.size == 0,
    {
        NodeElements { keys: Vec::new(), values: Vec::new(), size: 0 }
    }

    /// Number of stored elements.
    pub fn len(&self) -> (r: usize)
        requires
            self.keys@.len() == self.values@.len(),
        ensures
            r == self.seq().len(),
    {
        self.keys.len()
    }

    /// The cached size.
    pub fn size(&self) -> (r: usize)
        ensures
            r == self.size,
    {
        self.size
    }

    /// Read-only view of the keys, in element order.
    pub fn keys(&self) -> (r: &Vec<K>)
        ensures
            r@.len() == self.seq().len(),
            forall|i: int| 0 <= i < self.seq().len() ==> r@[i] == self.seq()[i].0,
    {
        &self.keys
    }

    /// Read-only view of the values, in element order.
    pub fn values(&self) -> (r: &Vec<V>)
        requires
            self.keys@.len() == self.values@.len(),
        ensures
            r@.len() == self.seq().len(),
            forall|i: int| 0 <= i < self.seq().len() ==> r@[i] == self.seq()[i].1,
    {
        &self.values
    }

    /// Append an element. If the store is already at capacity the element
    /// does not fit: the store is unchanged and the element comes back as
    /// the overflow result.
    pub fn push(&mut self, key: K, value: V) -> (overflow: Option<(K, V)>)
        requires
            old(self).seq_inv(),
            old(self).size_lb(),
            key.spec_size() >= 1,
            old(self).size + key.spec_size() <= usize::MAX,
        ensures
            final(self).seq_inv(),
            final(self).size_lb(),
            final(self).size + weight_sum(old(self).seq()) == old(self).size + weight_sum(final(self).seq()),
            old(self).size_exact() ==> final(self).size_exact(),
            ({
                let full = old(self).seq().push((key, value));
                if full.len() <= MAX_NUM_ELEMENTS {
                    final(self).seq() =~= full && overflow is None
                } else {
                    final(self).seq() =~= old(self).seq() && overflow == Some((key, value))
                }
            }),
    {
        if self.keys.len() < MAX_NUM_ELEMENTS {
            proof {
                lemma_weight_sum_push(self.seq(), (key, value));
            }
            self.size = self.size + key.size();
            self.keys.push(key);
            self.values.push(value);
            proof {
                assert(self.seq() =~= old(self).seq().push((key, value)));
                assert(weights_pos(self.seq())) by {
                    assert forall|i: int| 0 <= i < self.seq().len() implies (
                    #[trigger] self.seq()[i].0.spec_size()) >= 1 by {
                        if i < old(self).seq().len() {
                            assert(self.seq()[i] == old(self).seq()[i]);
                        }
                    }
                }
            }
            None
        } else {
            Some((key, value))
        }
    }

    /// Insert an element at `idx`. If the result would exceed capacity the
    /// store holds the first `2 * B - 1` elements of the conceptual grown
    /// sequence and the last element comes back as the overflow result.
    pub fn insert(&mut self, idx: usize, key: K, value: V) -> (overflow: Option<(K, V)>)
        requires
            old(self).seq_inv(),
            old(self).size_lb(),
            idx <= old(self).seq().len(),
            key.spec_size() >= 1,
            old(self).size + key.spec_size() <= usize::MAX,
        ensures
            final(self).seq_inv(),
            final(self).size_lb(),
            final(self).size + weight_sum(old(self).seq()) == old(self).size + weight_sum(final(self).seq()),
            old(self).size_exact() ==> final(self).size_exact(),
            ({
                let full = old(self).seq().insert(idx as int, (key, value));
                if full.len() <= MAX_NUM_ELEMENTS {
                    final(self).seq() =~= full && overflow is None
                } else {
                    final(self).seq() =~= full.drop_last() && overflow == Some(full.last())
                }
            }),
    {
        proof {
            lemma_weight_sum_insert(self.seq(), idx as int, (key, value));
        }
        if self.keys.len() < MAX_NUM_ELEMENTS {
            self.size = self.size + key.size();
            self.keys.insert(idx, key);
            self.values.insert(idx, value);
            proof {
                assert(self.seq() =~= old(self).seq().insert(idx as int, (key, value)));
                lemma_ins_weights_pos(old(self).seq(), idx as int, (key, value));
            }
            None
        } else if idx == self.keys.len() {
            proof {
                let full = old(self).seq().insert(idx as int, (key, value));
                assert(full.drop_last() =~= old(self).seq());
            }
            Some((key, value))
        } else {
            let last_key = self.keys.pop().unwrap();
            let last_value = self.values.pop().unwrap();
            proof {
                let s = old(self).seq();
                lemma_elem_weight_le(s, s.len() - 1);
                lemma_weight_sum_nonneg(s);
            }
            self.size = self.size + key.size() - last_key.size();
            self.keys.insert(idx, key);
            self.values.insert(idx, value);
            proof {
                let s = old(self).seq();
                let full = s.insert(idx as int, (key, value));
                assert(self.seq() =~= full.drop_last());
                assert(full.last() == s.last());
                lemma_ins_weights_pos(s, idx as int, (key, value));
                assert(weights_pos(self.seq())) by {
                    assert forall|i: int| 0 <= i < self.seq().len() implies (
                    #[trigger] self.seq()[i].0.spec_size()) >= 1 by {
                        assert(self.seq()[i] == full[i]);
                    }
                }
                assert(full =~= full.drop_last().push(full.last()));
                lemma_weight_sum_push(full.drop_last(), full.last());
            }
            Some((last_key, last_value))
        }
    }

    /// Remove and return the last element, if any.
    pub fn pop(&mut self) -> (r: Option<(K, V)>)
        requires
            old(self).seq_inv(),
            old(self).size_lb(),
        ensures
            final(self).seq_inv(),
            final(self).size_lb(),
            final(self).size + weight_sum(old(self).seq()) == old(self).size + weight_sum(final(self).seq()),
            old(self).size_exact() ==> final(self).size_exact(),
            if old(self).seq().len() == 0 {
                r is None && final(self).seq() =~= old(self).seq()
            } else {
                r == Some(old(self).seq().last()) && final(self).seq() =~= old(self).seq().drop_last()
            },
    {
        if self.keys.len() == 0 {
            None
        } else {
            let key = self.keys.pop().unwrap();
            let value = self.values.pop().unwrap();
            proof {
                let s = old(self).seq();
                lemma_elem_weight_le(s, s.len() - 1);
                assert(s =~= s.drop_last().push(s.last()));
                lemma_weight_sum_push(s.drop_last(), s.last());
                assert(self.seq() =~= s.drop_last());
                assert(weights_pos(self.seq())) by {
                    assert forall|i: int| 0 <= i < self.seq().len() implies (
                    #[trigger] self.seq()[i].0.spec_size()) >= 1 by {
                        assert(self.seq()[i] == s[i]);
                    }
                }
            }
            self.size = self.size - key.size();
            Some((key, value))
        }
    }

    /// Remove and return the element at `idx`.
    pub fn remove(&mut self, idx: usize) -> (r: (K, V))
        requires
            old(self).seq_inv(),
            old(self).size_lb(),
            idx < old(self).seq().len(),
        ensures
            final(self).seq_inv(),
            final(self).size_lb(),
            final(self).size + weight_sum(old(self).seq()) == old(self).size + weight_sum(final(self).seq()),
            old(self).size_exact() ==> final(self).size_exact(),
            r == old(self).seq()[idx as int],
            final(self).seq() =~= old(self).seq().remove(idx as int),
    {
        let key = self.keys.remove(idx);
        let value = self.values.remove(idx);
        proof {
            let s = old(self).seq();
            lemma_elem_weight_le(s, idx as int);
            lemma_weight_sum_remove(s, idx as int);
            lemma_weight_sum_nonneg(s);
            assert(self.seq() =~= s.remove(idx as int));
            assert(weights_pos(self.seq())) by {
                assert forall|i: int| 0 <= i < self.seq().len() implies (
                #[trigger] self.seq()[i].0.spec_size()) >= 1 by {
                    assert(self.seq()[i] == s.remove(idx as int)[i]);
                    if i < idx {
                        assert(s.remove(idx as int)[i] == s[i]);
                    } else {
                        assert(s.remove(idx as int)[i] == s[i + 1]);
                    }
                }
            }
        }
        self.size = self.size - key.size();
        (key, value)
    }
}

impl<K: OrdSize, V> NodeElements<K, V> {
    /// Split a full store that has one pending overflow element. Conceptually
    /// the store holds its `2 * B - 1` elements followed by the overflow
    /// element; afterwards the first `B` elements stay here, element `B` is
    /// returned as the promoted separator, and the last `B - 1` elements move
    /// into `right`, whose cached size is computed afresh from its own
    /// elements.
    pub fn split(&mut self, overflow_key: K, overflow_value: V, right: &mut Self) -> (sep: (K, V))
        requires
            old(self).seq_inv(),
            old(self).size_lb(),
            old(self).seq().len() == MAX_NUM_ELEMENTS,
            old(right).seq_inv(),
            old(right).seq().len() == 0,
            old(right).size == 0,
            overflow_key.spec_size() >= 1,
            old(self).size + overflow_key.spec_size() <= usize::MAX,
        ensures
            ({
                let full = old(self).seq().push((overflow_key, overflow_value));
                &&& final(self).seq() =~= full.take(B as int)
                &&& sep == full[B as int]
                &&& final(right).seq() =~= full.skip(B as int + 1)
                &&& final(self).seq_inv()
                &&& final(self).size_lb()
                &&& final(self).size == old(self).size - weight_sum(
                    old(self).seq().skip(B as int),
                )
                &&& (old(self).size_exact() ==> final(self).size_exact())
                &&& final(right).leaf_wf()
            }),
    {
        let ghost s = self.seq();
        let ghost full = self.seq().push((overflow_key, overflow_value));
        let mut tail_keys = self.keys.split_off(B + 1);
        let mut tail_values = self.values.split_off(B + 1);
        right.keys.append(&mut tail_keys);
        right.values.append(&mut tail_values);
        proof {
            assert(self.seq() =~= s.take(B + 1));
            assert(right.seq() =~= s.skip(B + 1));
            assert(s.take(B + 1) =~= s.subrange(0, B + 1));
            assert(s.skip(B + 1) =~= s.subrange(B + 1, s.len() as int));
            lemma_weights_pos_subrange(s, 0, B + 1);
            lemma_weights_pos_subrange(s, B + 1, s.len() as int);
            lemma_weight_sum_take_le(s, B + 1);
        }
        // recompute the moved weight so both cached sizes stay exact
        let mut moved: usize = 0;
        let mut i: usize = 0;
        proof {
            assert(right.seq().take(0) =~= Seq::<(K, V)>::empty());
        }
        while i < right.keys.len()
            invariant
                i <= right.keys@.len(),
                right.keys@.len() == right.values@.len(),
                weights_pos(right.seq()),
                moved == weight_sum(right.seq().take(i as int)),
                weight_sum(right.seq()) <= usize::MAX,
            decreases right.keys@.len() - i,
        {
            proof {
                assert(right.seq().take(i + 1) =~= right.seq().take(i as int).push(
                    right.seq()[i as int],
                ));
                lemma_weight_sum_push(right.seq().take(i as int), right.seq()[i as int]);
                lemma_weight_sum_take_le(right.seq(), i + 1);
                lemma_weight_sum_take_le(right.seq().take(i + 1), i as int);
                assert(right.seq().take(i + 1).take(i as int) =~= right.seq().take(i as int));
            }
            moved = moved + right.keys[i].size();
            i = i + 1;
        }
        proof {
            assert(right.seq().take(right.keys@.len() as int) =~= right.seq());
        }
        right.size = moved;
        self.size = self.size - moved;
        let overflow = right.push(overflow_key, overflow_value);
        proof {
            assert(overflow is None);
            assert(right.seq() =~= full.skip(B as int + 1)) by {
                assert(right.seq() =~= s.skip(B + 1).push((overflow_key, overflow_value)));
                assert(full.skip(B as int + 1) =~= s.skip(B + 1).push(
                    (overflow_key, overflow_value),
                ));
            }
        }
        let sep = self.pop();
        proof {
            assert(self.seq() =~= full.take(B as int)) by {
                assert(self.seq() =~= s.take(B + 1).drop_last());
            }
            assert(sep == Some(full[B as int])) by {
                assert(s.take(B + 1).last() == s[B as int]);
            }
        }
        proof {
            assert(s.skip(B as int) =~= seq![s[B as int]] + s.skip(B as int + 1));
            lemma_weight_sum_concat(seq![s[B as int]], s.skip(B as int + 1));
            super::model::lemma_weight_sum_one(s[B as int]);
            super::model::lemma_offset_of_succ(s, B as int);
            assert(s.take(B as int + 1).drop_last() =~= s.take(B as int));
        }
        match sep {
            Some(p) => p,
            None => vstd::pervasive::unreached(),
        }
    }

    /// Append a separator element and then all of `right`'s elements;
    /// `right` is left empty. The whole cached size of `right` (which for a
    /// node store includes its children) moves onto `self`'s cached size.
    pub fn merge(&mut self, sep_key: K, sep_value: V, right: &mut Self)
        requires
            old(self).seq_inv(),
            old(self).size_lb(),
            old(right).seq_inv(),
            old(right).size_lb(),
            old(self).seq().len() + old(right).seq().len() < MAX_NUM_ELEMENTS,
            sep_key.spec_size() >= 1,
            old(self).size + sep_key.spec_size() + old(right).size <= usize::MAX,
        ensures
            final(self).seq() =~= old(self).seq().push((sep_key, sep_value)) + old(right).seq(),
            final(self).seq_inv(),
            final(self).size_lb(),
            final(self).size == old(self).size + sep_key.spec_size() + old(right).size,
            final(right).seq() =~= Seq::<(K, V)>::empty(),
            final(right).size == 0,
            old(self).size_exact() && old(right).size_exact() ==> final(self).size_exact(),
    {
        let ghost a = self.seq();
        let ghost b = right.seq();
        self.size = self.size + sep_key.size() + right.size;
        right.size = 0;
        self.keys.push(sep_key);
        self.values.push(sep_value);
        self.keys.append(&mut right.keys);
        self.values.append(&mut right.values);
        proof {
            let merged = a.push((sep_key, sep_value)) + b;
            assert(self.seq() =~= merged);
            assert(right.seq() =~= Seq::<(K, V)>::empty());
            lemma_weight_sum_concat(a.push((sep_key, sep_value)), b);
            lemma_weight_sum_push(a, (sep_key, sep_value));
            lemma_weights_pos_concat(a.push((sep_key, sep_value)), b);
            assert(weights_pos(a.push((sep_key, sep_value)))) by {
                assert forall|j: int| 0 <= j < a.len() + 1 implies (#[trigger] a.push(
                    (sep_key, sep_value),
                )[j].0.spec_size()) >= 1 by {
                    if j < a.len() {
                        assert(a.push((sep_key, sep_value))[j] == a[j]);
                    }
                }
            }
        }
    }
}


impl<K: OrdSize, V> NodeElements<K, V> {
    /// Exchange the element at `idx` for another, returning the old one.
    /// The cached size is deliberately left untouched: the rotation that
    /// uses this moves the weight difference between two children of the
    /// same parent, whose total is unchanged.
    pub fn swap_elem(&mut self, idx: usize, key: K, value: V) -> (r: (K, V))
        requires
            old(self).seq_inv(),
            idx < old(self).seq().len(),
            key.spec_size() >= 1,
        ensures
            final(self).seq() =~= old(self).seq().update(idx as int, (key, value)),
            final(self).seq_inv(),
            final(self).size == old(self).size,
            r == old(self).seq()[idx as int],
    {
        let rk = self.keys.remove(idx);
        self.keys.insert(idx, key);
        let rv = self.values.remove(idx);
        self.values.insert(idx, value);
        proof {
            let upd = old(self).seq().update(idx as int, (key, value));
            assert(self.seq() =~= upd);
            assert(weights_pos(upd)) by {
                assert forall|j: int| 0 <= j < upd.len() implies (
                #[trigger] upd[j].0.spec_size()) >= 1 by {
                    if j != idx {
                        assert(upd[j] == old(self).seq()[j]);
                    }
                }
            }
        }
        (rk, rv)
    }
}

/// Inserting a positively weighted element keeps all weights positive.
pub proof fn lemma_ins_weights_pos<K: OrdSize, V>(s: Seq<(K, V)>, i: int, e: (K, V))
    requires
        weights_pos(s),
        e.0.spec_size() >= 1,
        0 <= i <= s.len(),
    ensures
        weights_pos(s.insert(i, e)),
{
    assert forall|j: int| 0 <= j < s.insert(i, e).len() implies (#[trigger] s.insert(
        i,
        e,
    )[j].0.spec_size()) >= 1 by {
        if j < i {
            assert(s.insert(i, e)[j] == s[j]);
        } else if j == i {
            assert(s.insert(i, e)[j] == e);
        } else {
            assert(s.insert(i, e)[j] == s[j - 1]);
        }
    }
}

} // verus!
