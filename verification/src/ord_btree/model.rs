//! The mathematical model of a positional sequence: weights, offsets, and
//! the boundary/containment lookups that the tree contracts are stated over.
//!
//! A tree is abstracted as a `Seq<(K, V)>`. Element `i` occupies the
//! half-open offset range `[offset_of(s, i), offset_of(s, i) + weight_i)`,
//! where offsets are cumulative sums of key weights.

use super::OrdSize;
use vstd::prelude::*;

verus! {

/// The total weight of a sequence of elements.
pub open spec fn weight_sum<K: OrdSize, V>(s: Seq<(K, V)>) -> int
    decreases s.len(),
{
    if s.len() == 0 {
        0
    } else {
        s[0].0.spec_size() + weight_sum(s.skip(1))
    }
}

/// Every element's weight is positive.
pub open spec fn weights_pos<K: OrdSize, V>(s: Seq<(K, V)>) -> bool {
    forall|i: int| 0 <= i < s.len() ==> (#[trigger] s[i].0.spec_size()) >= 1
}

/// The offset at which element `i` starts: the total weight of the elements
/// before it. For `i == s.len()` this is the total weight of the sequence.
pub open spec fn offset_of<K: OrdSize, V>(s: Seq<(K, V)>, i: int) -> int {
    weight_sum(s.take(i))
}

/// The boundary index at offset `pos`, if `pos` falls exactly on the start
/// offset of an element (or on the end of the sequence): the `i` in
/// `[0, s.len()]` with `offset_of(s, i) == pos`. `None` when `pos` lies
/// strictly inside some element's range or beyond the total weight.
pub open spec fn find_boundary<K: OrdSize, V>(s: Seq<(K, V)>, pos: int) -> Option<int>
    decreases s.len(),
{
    if pos == 0 {
        Some(0)
    } else if pos < 0 || s.len() == 0 {
        None
    } else if pos < s[0].0.spec_size() {
        None
    } else {
        match find_boundary(s.skip(1), pos - s[0].0.spec_size()) {
            Some(i) => Some(i + 1),
            None => None,
        }
    }
}

/// The index of the element whose offset range contains `pos`; meaningful
/// when `0 <= pos < weight_sum(s)`.
pub open spec fn find_at<K: OrdSize, V>(s: Seq<(K, V)>, pos: int) -> int
    decreases s.len(),
{
    if s.len() == 0 {
        0
    } else if pos < s[0].0.spec_size() {
        0
    } else {
        1 + find_at(s.skip(1), pos - s[0].0.spec_size())
    }
}

/// The sequence read back to front.
pub open spec fn reversed<K: OrdSize, V>(s: Seq<(K, V)>) -> Seq<(K, V)> {
    Seq::new(s.len(), |i: int| s[s.len() - 1 - i])
}

/// Weight distributes over concatenation.
pub proof fn lemma_weight_sum_concat<K: OrdSize, V>(a: Seq<(K, V)>, b: Seq<(K, V)>)
    ensures
        weight_sum(a + b) == weight_sum(a) + weight_sum(b),
    decreases a.len(),
{
    if a.len() == 0 {
        assert(a + b =~= b);
    } else {
        assert((a + b).skip(1) =~= a.skip(1) + b);
        lemma_weight_sum_concat(a.skip(1), b);
    }
}

/// The weight of a one-element sequence.
pub proof fn lemma_weight_sum_one<K: OrdSize, V>(e: (K, V))
    ensures
        weight_sum(seq![e]) == e.0.spec_size(),
{
    assert(seq![e].skip(1) =~= Seq::<(K, V)>::empty());
    assert(weight_sum(Seq::<(K, V)>::empty()) == 0);
    assert(seq![e][0] == e);
}

/// Appending an element adds its weight.
pub proof fn lemma_weight_sum_push<K: OrdSize, V>(s: Seq<(K, V)>, e: (K, V))
    ensures
        weight_sum(s.push(e)) == weight_sum(s) + e.0.spec_size(),
{
    assert(s.push(e) =~= s + seq![e]);
    lemma_weight_sum_concat(s, seq![e]);
    lemma_weight_sum_one(e);
}

/// Inserting an element adds its weight.
pub proof fn lemma_weight_sum_insert<K: OrdSize, V>(s: Seq<(K, V)>, i: int, e: (K, V))
    requires
        0 <= i <= s.len(),
    ensures
        weight_sum(s.insert(i, e)) == weight_sum(s) + e.0.spec_size(),
{
    assert(s.insert(i, e) =~= s.take(i) + (seq![e] + s.skip(i)));
    assert(s =~= s.take(i) + s.skip(i));
    lemma_weight_sum_concat(s.take(i), seq![e] + s.skip(i));
    lemma_weight_sum_concat(seq![e], s.skip(i));
    lemma_weight_sum_concat(s.take(i), s.skip(i));
    lemma_weight_sum_one(e);
}

/// Removing an element subtracts its weight.
pub proof fn lemma_weight_sum_remove<K: OrdSize, V>(s: Seq<(K, V)>, i: int)
    requires
        0 <= i < s.len(),
    ensures
        weight_sum(s.remove(i)) == weight_sum(s) - s[i].0.spec_size(),
{
    assert(s.remove(i) =~= s.take(i) + s.skip(i + 1));
    assert(s =~= s.take(i) + (seq![s[i]] + s.skip(i + 1)));
    lemma_weight_sum_concat(s.take(i), s.skip(i + 1));
    lemma_weight_sum_concat(s.take(i), seq![s[i]] + s.skip(i + 1));
    lemma_weight_sum_concat(seq![s[i]], s.skip(i + 1));
    lemma_weight_sum_one(s[i]);
}


/// Exchanging an element swaps its weight in the total.
pub proof fn lemma_weight_sum_update<K: OrdSize, V>(s: Seq<(K, V)>, i: int, e: (K, V))
    requires
        0 <= i < s.len(),
    ensures
        weight_sum(s.update(i, e)) == weight_sum(s) - s[i].0.spec_size() + e.0.spec_size(),
{
    assert(s.update(i, e) =~= s.remove(i).insert(i, e));
    lemma_weight_sum_remove(s, i);
    lemma_weight_sum_insert(s.remove(i), i, e);
}

/// The total weight of a positively weighted sequence is nonnegative.
pub proof fn lemma_weight_sum_nonneg<K: OrdSize, V>(s: Seq<(K, V)>)
    requires
        weights_pos(s),
    ensures
        weight_sum(s) >= 0,
{
    lemma_weight_sum_len(s);
}

/// Each element weighs no more than the whole sequence.
pub proof fn lemma_elem_weight_le<K: OrdSize, V>(s: Seq<(K, V)>, i: int)
    requires
        weights_pos(s),
        0 <= i < s.len(),
    ensures
        s[i].0.spec_size() <= weight_sum(s),
{
    assert(s =~= s.take(i) + (seq![s[i]] + s.skip(i + 1)));
    lemma_weight_sum_concat(s.take(i), seq![s[i]] + s.skip(i + 1));
    lemma_weight_sum_concat(seq![s[i]], s.skip(i + 1));
    lemma_weight_sum_one(s[i]);
    assert(weights_pos(s.take(i))) by {
        assert forall|j: int| 0 <= j < s.take(i).len() implies (#[trigger] s.take(
            i,
        )[j].0.spec_size()) >= 1 by {
            assert(s.take(i)[j] == s[j]);
        }
    }
    assert(weights_pos(s.skip(i + 1))) by {
        assert forall|j: int| 0 <= j < s.skip(i + 1).len() implies (#[trigger] s.skip(
            i + 1,
        )[j].0.spec_size()) >= 1 by {
            assert(s.skip(i + 1)[j] == s[j + i + 1]);
        }
    }
    lemma_weight_sum_nonneg(s.take(i));
    lemma_weight_sum_nonneg(s.skip(i + 1));
}

/// Positivity of weights is inherited by any subrange.
pub proof fn lemma_weights_pos_subrange<K: OrdSize, V>(s: Seq<(K, V)>, i: int, j: int)
    requires
        weights_pos(s),
        0 <= i <= j <= s.len(),
    ensures
        weights_pos(s.subrange(i, j)),
{
    assert forall|k: int| 0 <= k < s.subrange(i, j).len() implies (#[trigger] s.subrange(
        i,
        j,
    )[k].0.spec_size()) >= 1 by {
        assert(s.subrange(i, j)[k] == s[i + k]);
    }
}

/// Positivity of weights carries over a concatenation, both ways.
pub proof fn lemma_weights_pos_concat<K: OrdSize, V>(a: Seq<(K, V)>, b: Seq<(K, V)>)
    ensures
        weights_pos(a + b) <==> weights_pos(a) && weights_pos(b),
{
    if weights_pos(a) && weights_pos(b) {
        assert forall|k: int| 0 <= k < (a + b).len() implies (#[trigger] (a + b)[k].0.spec_size())
            >= 1 by {
            if k < a.len() {
                assert((a + b)[k] == a[k]);
            } else {
                assert((a + b)[k] == b[k - a.len()]);
            }
        }
    }
    if weights_pos(a + b) {
        assert forall|k: int| 0 <= k < a.len() implies (#[trigger] a[k].0.spec_size()) >= 1 by {
            assert((a + b)[k] == a[k]);
        }
        assert forall|k: int| 0 <= k < b.len() implies (#[trigger] b[k].0.spec_size()) >= 1 by {
            assert((a + b)[k + a.len()] == b[k]);
        }
    }
}

/// A prefix weighs no more than the whole sequence, and weighs at least
/// nothing.
pub proof fn lemma_weight_sum_take_le<K: OrdSize, V>(s: Seq<(K, V)>, i: int)
    requires
        weights_pos(s),
        0 <= i <= s.len(),
    ensures
        0 <= weight_sum(s.take(i)) <= weight_sum(s),
        weight_sum(s) == weight_sum(s.take(i)) + weight_sum(s.skip(i)),
        0 <= weight_sum(s.skip(i)),
{
    assert(s =~= s.take(i) + s.skip(i));
    lemma_weight_sum_concat(s.take(i), s.skip(i));
    assert(s.take(i) =~= s.subrange(0, i));
    assert(s.skip(i) =~= s.subrange(i, s.len() as int));
    lemma_weights_pos_subrange(s, 0, i);
    lemma_weights_pos_subrange(s, i, s.len() as int);
    lemma_weight_sum_nonneg(s.take(i));
    lemma_weight_sum_nonneg(s.skip(i));
}

/// A sequence of positive weights weighs at least its length.
pub proof fn lemma_weight_sum_len<K: OrdSize, V>(s: Seq<(K, V)>)
    requires
        weights_pos(s),
    ensures
        weight_sum(s) >= s.len(),
    decreases s.len(),
{
    if s.len() != 0 {
        assert(s[0].0.spec_size() >= 1);
        lemma_weight_sum_len(s.skip(1));
    }
}

/// The offset of the next element is this element's offset plus its weight.
pub proof fn lemma_offset_of_succ<K: OrdSize, V>(s: Seq<(K, V)>, i: int)
    requires
        0 <= i < s.len(),
    ensures
        offset_of(s, i + 1) == offset_of(s, i) + s[i].0.spec_size(),
{
    assert(s.take(i + 1) =~= s.take(i) + seq![s[i]]);
    lemma_weight_sum_concat(s.take(i), seq![s[i]]);
    assert(weight_sum(seq![s[i]]) == s[i].0.spec_size() + weight_sum(seq![s[i]].skip(1)));
    assert(seq![s[i]].skip(1) =~= Seq::<(K, V)>::empty());
}

/// Offsets of a positively weighted sequence are strictly increasing.
pub proof fn lemma_offset_strict<K: OrdSize, V>(s: Seq<(K, V)>, i: int, j: int)
    requires
        weights_pos(s),
        0 <= i < j <= s.len(),
    ensures
        offset_of(s, i) < offset_of(s, j),
    decreases j - i,
{
    lemma_offset_of_succ(s, i);
    assert(s[i].0.spec_size() >= 1);
    if i + 1 < j {
        lemma_offset_strict(s, i + 1, j);
    }
}

/// `offset_of(s, 0) == 0`.
pub proof fn lemma_offset_zero<K: OrdSize, V>(s: Seq<(K, V)>)
    ensures
        offset_of(s, 0) == 0,
{
    assert(s.take(0) =~= Seq::<(K, V)>::empty());
}

/// `offset_of(s, s.len()) == weight_sum(s)`.
pub proof fn lemma_offset_total<K: OrdSize, V>(s: Seq<(K, V)>)
    ensures
        offset_of(s, s.len() as int) == weight_sum(s),
{
    assert(s.take(s.len() as int) =~= s);
}

/// What `find_boundary` returns: a boundary index with exactly the asked-for
/// offset when one exists, and `None` exactly when no boundary has it.
pub proof fn lemma_find_boundary<K: OrdSize, V>(s: Seq<(K, V)>, pos: int)
    requires
        weights_pos(s),
    ensures
        match find_boundary(s, pos) {
            Some(i) => 0 <= i <= s.len() && offset_of(s, i) == pos,
            None => forall|i: int| 0 <= i <= s.len() ==> offset_of(s, i) != pos,
        },
    decreases s.len(),
{
    lemma_offset_zero(s);
    if pos == 0 {
    } else if pos < 0 || s.len() == 0 {
        assert forall|i: int| 0 <= i <= s.len() implies offset_of(s, i) != pos by {
            if i > 0 {
                lemma_offset_strict(s, 0, i);
            }
        }
    } else if pos < s[0].0.spec_size() {
        assert forall|i: int| 0 <= i <= s.len() implies offset_of(s, i) != pos by {
            if i > 0 {
                lemma_offset_of_succ(s, 0);
                if i > 1 {
                    lemma_offset_strict(s, 1, i);
                }
            }
        }
    } else {
        let t = s.skip(1);
        let w0 = s[0].0.spec_size();
        lemma_find_boundary(t, pos - w0);
        assert forall|i: int| 1 <= i <= s.len() implies offset_of(s, i) == w0 + offset_of(
            t,
            i - 1,
        ) by {
            lemma_offset_skip_one(s, i);
        }
        match find_boundary(t, pos - w0) {
            Some(j) => {
                assert(offset_of(s, j + 1) == pos);
            },
            None => {
                assert forall|i: int| 0 <= i <= s.len() implies offset_of(s, i) != pos by {
                    if i == 0 {
                    } else {
                        assert(offset_of(t, i - 1) != pos - w0);
                    }
                }
            },
        }
    }
}

/// Relates offsets of a sequence to offsets of its tail.
pub proof fn lemma_offset_skip_one<K: OrdSize, V>(s: Seq<(K, V)>, i: int)
    requires
        1 <= i <= s.len(),
    ensures
        offset_of(s, i) == s[0].0.spec_size() + offset_of(s.skip(1), i - 1),
{
    assert(s.take(i)[0] == s[0]);
    assert(s.take(i).skip(1) =~= s.skip(1).take(i - 1));
}

/// A boundary with the right offset is found: `find_boundary` is complete.
pub proof fn lemma_boundary_at<K: OrdSize, V>(s: Seq<(K, V)>, i: int)
    requires
        weights_pos(s),
        0 <= i <= s.len(),
    ensures
        find_boundary(s, offset_of(s, i)) == Some(i),
{
    let pos = offset_of(s, i);
    lemma_find_boundary(s, pos);
    match find_boundary(s, pos) {
        Some(j) => {
            if i < j {
                lemma_offset_strict(s, i, j);
            } else if j < i {
                lemma_offset_strict(s, j, i);
            }
        },
        None => {},
    }
}

/// What `find_at` returns: the unique element whose offset range contains
/// `pos`.
pub proof fn lemma_find_at<K: OrdSize, V>(s: Seq<(K, V)>, pos: int)
    requires
        weights_pos(s),
        0 <= pos < weight_sum(s),
    ensures
        0 <= find_at(s, pos) < s.len(),
        offset_of(s, find_at(s, pos)) <= pos,
        pos < offset_of(s, find_at(s, pos)) + s[find_at(s, pos)].0.spec_size(),
    decreases s.len(),
{
    lemma_offset_zero(s);
    if pos < s[0].0.spec_size() {
    } else {
        let t = s.skip(1);
        let w0 = s[0].0.spec_size();
        lemma_find_at(t, pos - w0);
        let j = find_at(t, pos - w0);
        lemma_offset_skip_one(s, j + 1);
        assert(s[j + 1] == t[j]);
    }
}

/// The start offset of element `i` is contained in element `i`'s own range,
/// so a containment lookup at a recorded start offset finds that element.
/// With the contract of `OrdBTree::get`, this is the statement that `get`
/// at every element's start offset returns that element.
pub proof fn lemma_get_at_start_offset<K: OrdSize, V>(s: Seq<(K, V)>, i: int)
    requires
        weights_pos(s),
        0 <= i < s.len(),
    ensures
        find_at(s, offset_of(s, i)) == i,
        0 <= offset_of(s, i) < weight_sum(s),
    decreases s.len(),
{
    lemma_offset_zero(s);
    lemma_offset_strict(s, 0, i + 1) ;
    lemma_offset_of_succ(s, i);
    lemma_offset_total(s);
    if i + 1 < s.len() {
        lemma_offset_strict(s, i + 1, s.len() as int);
    }
    if i > 0 {
        lemma_offset_strict(s, 0, i);
    }
    let pos = offset_of(s, i);
    lemma_find_at(s, pos);
    let j = find_at(s, pos);
    if j < i {
        lemma_offset_of_succ(s, j);
        lemma_offset_strict(s, j + 1, i);
        assert(false);
    }
    if i < j {
        lemma_offset_strict(s, i, j);
        assert(false);
    }
}

/// Offsets in a concatenation: up to the seam they are offsets of the left
/// part, beyond it they are shifted offsets of the right part.
pub proof fn lemma_offset_concat<K: OrdSize, V>(a: Seq<(K, V)>, b: Seq<(K, V)>, i: int)
    requires
        0 <= i <= a.len() + b.len(),
    ensures
        offset_of(a + b, i) == if i <= a.len() {
            offset_of(a, i)
        } else {
            weight_sum(a) + offset_of(b, i - a.len())
        },
{
    if i <= a.len() {
        assert((a + b).take(i) =~= a.take(i));
    } else {
        assert((a + b).take(i) =~= a + b.take(i - a.len()));
        lemma_weight_sum_concat(a, b.take(i - a.len()));
    }
}

/// Boundary lookup in a concatenation: a position up to the left part's
/// total weight is resolved in the left part, a position beyond it in the
/// right part, shifted.
pub proof fn lemma_find_boundary_concat<K: OrdSize, V>(a: Seq<(K, V)>, b: Seq<(K, V)>, pos: int)
    requires
        weights_pos(a),
        weights_pos(b),
    ensures
        weights_pos(a + b),
        pos <= weight_sum(a) ==> find_boundary(a + b, pos) == find_boundary(a, pos),
        pos > weight_sum(a) ==> find_boundary(a + b, pos) == (match find_boundary(
            b,
            pos - weight_sum(a),
        ) {
            Some(j) => Some(a.len() + j),
            None => None::<int>,
        }),
{
    lemma_weights_pos_concat(a, b);
    lemma_find_boundary(a + b, pos);
    lemma_find_boundary(a, pos);
    lemma_find_boundary(b, pos - weight_sum(a));
    lemma_weight_sum_nonneg(a);
    lemma_weight_sum_nonneg(b);
    if pos <= weight_sum(a) {
        match find_boundary(a, pos) {
            Some(i) => {
                lemma_offset_concat(a, b, i);
                lemma_boundary_at(a + b, i);
            },
            None => {
                match find_boundary(a + b, pos) {
                    Some(i) => {
                        lemma_offset_concat(a, b, i);
                        if i > a.len() {
                            lemma_offset_zero(b);
                            lemma_offset_strict(b, 0, i - a.len());
                            assert(false);
                        }
                        assert(offset_of(a, i) == pos);
                        assert(false);
                    },
                    None => {},
                }
            },
        }
    } else {
        match find_boundary(b, pos - weight_sum(a)) {
            Some(j) => {
                lemma_offset_concat(a, b, j + a.len());
                lemma_boundary_at(a + b, j + a.len());
            },
            None => {
                match find_boundary(a + b, pos) {
                    Some(i) => {
                        lemma_offset_concat(a, b, i);
                        if i <= a.len() {
                            lemma_offset_total(a);
                            if i < a.len() {
                                lemma_offset_strict(a, i, a.len() as int);
                            }
                            assert(offset_of(a, i) <= weight_sum(a));
                            assert(false);
                        }
                        assert(offset_of(b, i - a.len()) == pos - weight_sum(a));
                        assert(false);
                    },
                    None => {},
                }
            },
        }
    }
}

/// The element whose range contains `pos` is unique, so any witness pins
/// `find_at`.
pub proof fn lemma_find_at_unique<K: OrdSize, V>(s: Seq<(K, V)>, pos: int, i: int)
    requires
        weights_pos(s),
        0 <= i < s.len(),
        offset_of(s, i) <= pos,
        pos < offset_of(s, i) + s[i].0.spec_size(),
    ensures
        find_at(s, pos) == i,
{
    lemma_offset_of_succ(s, i);
    lemma_offset_zero(s);
    lemma_offset_total(s);
    if i + 1 < s.len() {
        lemma_offset_strict(s, i + 1, s.len() as int);
    }
    if i > 0 {
        lemma_offset_strict(s, 0, i);
    }
    lemma_find_at(s, pos);
    let j = find_at(s, pos);
    lemma_offset_of_succ(s, j);
    if j < i {
        if j + 1 < i {
            lemma_offset_strict(s, j + 1, i);
        }
        assert(false);
    }
    if i < j {
        if i + 1 < j {
            lemma_offset_strict(s, i + 1, j);
        }
        assert(false);
    }
}

/// Containment lookup in a concatenation: a position inside the left part's
/// weight is resolved there, one beyond it in the right part, shifted.
pub proof fn lemma_find_at_concat<K: OrdSize, V>(a: Seq<(K, V)>, b: Seq<(K, V)>, pos: int)
    requires
        weights_pos(a),
        weights_pos(b),
    ensures
        weights_pos(a + b),
        weight_sum(a + b) == weight_sum(a) + weight_sum(b),
        0 <= pos < weight_sum(a) ==> find_at(a + b, pos) == find_at(a, pos) && 0 <= find_at(a, pos)
            < a.len() && (a + b)[find_at(a, pos)] == a[find_at(a, pos)],
        weight_sum(a) <= pos < weight_sum(a) + weight_sum(b) ==> find_at(a + b, pos) == a.len()
            + find_at(b, pos - weight_sum(a)) && 0 <= find_at(b, pos - weight_sum(a)) < b.len() && (
        a + b)[a.len() + find_at(b, pos - weight_sum(a))] == b[find_at(b, pos - weight_sum(a))],
{
    lemma_weights_pos_concat(a, b);
    lemma_weight_sum_concat(a, b);
    if 0 <= pos < weight_sum(a) {
        lemma_find_at(a, pos);
        let i = find_at(a, pos);
        lemma_offset_concat(a, b, i);
        lemma_find_at_unique(a + b, pos, i);
    } else if weight_sum(a) <= pos < weight_sum(a) + weight_sum(b) {
        lemma_weight_sum_nonneg(a);
        lemma_find_at(b, pos - weight_sum(a));
        let j = find_at(b, pos - weight_sum(a));
        lemma_offset_concat(a, b, a.len() + j);
        lemma_offset_total(a);
        lemma_offset_zero(b);
        assert((a + b)[a.len() + j] == b[j]);
        lemma_find_at_unique(a + b, pos, a.len() + j);
    }
}

/// A boundary exists at `pos` exactly when `pos` is the total weight or the
/// start offset of the element whose range contains `pos`; this lets a
/// containment lookup decide boundary alignment.
pub proof fn lemma_boundary_via_find_at<K: OrdSize, V>(s: Seq<(K, V)>, pos: int)
    requires
        weights_pos(s),
    ensures
        pos == weight_sum(s) ==> find_boundary(s, pos) == Some(s.len() as int),
        0 <= pos < weight_sum(s) ==> find_boundary(s, pos) == (if offset_of(s, find_at(s, pos))
            == pos {
            Some(find_at(s, pos))
        } else {
            None::<int>
        }),
        pos < 0 || pos > weight_sum(s) ==> find_boundary(s, pos) is None,
{
    lemma_weight_sum_nonneg(s);
    if pos == weight_sum(s) {
        lemma_offset_total(s);
        lemma_boundary_at(s, s.len() as int);
    } else if 0 <= pos < weight_sum(s) {
        lemma_find_at(s, pos);
        let i = find_at(s, pos);
        if offset_of(s, i) == pos {
            lemma_boundary_at(s, i);
        } else {
            lemma_find_boundary(s, pos);
            match find_boundary(s, pos) {
                Some(b) => {
                    if b == s.len() {
                        lemma_offset_total(s);
                        assert(false);
                    }
                    lemma_find_at_unique(s, pos, b);
                    assert(false);
                },
                None => {},
            }
        }
    } else if pos > weight_sum(s) {
        lemma_find_boundary(s, pos);
        match find_boundary(s, pos) {
            Some(b) => {
                lemma_offset_total(s);
                if b < s.len() {
                    lemma_offset_strict(s, b, s.len() as int);
                }
                assert(false);
            },
            None => {},
        }
    }
}

/// Inserting at a boundary and removing at the same offset is a no-op: the
/// insert lands at index `i`, the boundary at `pos` in the grown sequence is
/// still `i`, and removing index `i` restores the original sequence exactly
/// (so the length and every other element's relative order and value are
/// restored).
pub proof fn lemma_insert_remove_roundtrip<K: OrdSize, V>(s: Seq<(K, V)>, pos: int, k: K, v: V)
    requires
        weights_pos(s),
        k.spec_size() >= 1,
        find_boundary(s, pos) is Some,
    ensures
        ({
            let i = find_boundary(s, pos)->0;
            let grown = s.insert(i, (k, v));
            &&& weights_pos(grown)
            &&& find_boundary(grown, pos) == Some(i)
            &&& i < grown.len()
            &&& grown[i] == (k, v)
            &&& grown.remove(i) == s
        }),
{
    lemma_find_boundary(s, pos);
    let i = find_boundary(s, pos)->0;
    let grown = s.insert(i, (k, v));
    assert forall|j: int| 0 <= j < grown.len() implies (#[trigger] grown[j].0.spec_size())
        >= 1 by {
        if j < i {
            assert(grown[j] == s[j]);
        } else if j == i {
        } else {
            assert(grown[j] == s[j - 1]);
        }
    }
    assert(grown.take(i) =~= s.take(i));
    lemma_boundary_at(grown, i);
    assert(grown.remove(i) =~= s);
}

/// Reading a sequence backward yields exactly the reverse of reading it
/// forward: the two runs have the same length, and the element a backward
/// run yields at step `j` is the element the forward run yields at step
/// `s.len() - 1 - j`. Reversing twice restores the sequence.
pub proof fn lemma_reverse_iteration<K: OrdSize, V>(s: Seq<(K, V)>)
    ensures
        reversed(s).len() == s.len(),
        forall|j: int| 0 <= j < s.len() ==> reversed(s)[j] == s[s.len() - 1 - j],
        reversed(reversed(s)) == s,
{
    assert(reversed(reversed(s)) =~= s);
}

} // verus!
