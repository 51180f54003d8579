//! Internal nodes and the child variant. A tree edge always points either
//! at a leaf or at an internal node, and a node's children are one
//! homogeneous collection of the two kinds — siblings share depth, which the
//! height-indexed well-formedness below makes exact.

use super::model::{
    lemma_elem_weight_le, lemma_weight_sum_concat, lemma_weight_sum_nonneg, lemma_weight_sum_one,
    weight_sum, weights_pos,
};
use super::store::lemma_ins_weights_pos;
use super::store::{NodeElements, B, MAX_NUM_ELEMENTS, MIN_NUM_ELEMENTS};
use super::OrdSize;
use vstd::prelude::*;

verus! {

/// A tree edge: either a boxed leaf or a boxed internal node.
pub enum Child<K: OrdSize, V> {
    Node(Box<Node<K, V>>),
    Leaf(Box<NodeElements<K, V>>),
}

/// A homogeneous collection of children: all leaves or all nodes.
pub enum Children<K: OrdSize, V> {
    Nodes(Vec<Box<Node<K, V>>>),
    Leafs(Vec<Box<NodeElements<K, V>>>),
}

/// An internal node: `m` separator elements paired with `m + 1` children;
/// element `i` separates child `i` from child `i + 1`. The cached size in
/// `elements.size` covers the whole subtree.
pub struct Node<K: OrdSize, V> {
    pub elements: NodeElements<K, V>,
    pub children: Children<K, V>,
}

impl<K: OrdSize, V> Children<K, V> {
    /// The children as one sequence of tree edges.
    pub open spec fn child_seq(&self) -> Seq<Child<K, V>> {
        match self {
            Children::Nodes(v) => v@.map_values(|n: Box<Node<K, V>>| Child::Node(n)),
            Children::Leafs(v) => v@.map_values(|l: Box<NodeElements<K, V>>| Child::Leaf(l)),
        }
    }

    /// Whether this collection holds internal nodes.
    pub open spec fn is_nodes(&self) -> bool {
        self matches Children::Nodes(_)
    }

    /// Whether a child value is of the kind this collection holds.
    pub open spec fn accepts(&self, c: Child<K, V>) -> bool {
        match self {
            Children::Nodes(_) => c is Node,
            Children::Leafs(_) => c is Leaf,
        }
    }

    /// A fresh empty collection of node children.
    pub fn new_nodes() -> (r: Self)
        ensures
            r.child_seq() =~= Seq::<Child<K, V>>::empty(),
            r.is_nodes(),
    {
        Children::Nodes(Vec::new())
    }

    /// A fresh empty collection of leaf children.
    pub fn new_leafs() -> (r: Self)
        ensures
            r.child_seq() =~= Seq::<Child<K, V>>::empty(),
            !r.is_nodes(),
    {
        Children::Leafs(Vec::new())
    }

    /// Number of children.
    pub fn len(&self) -> (r: usize)
        ensures
            r == self.child_seq().len(),
    {
        match self {
            Children::Nodes(v) => v.len(),
            Children::Leafs(v) => v.len(),
        }
    }
}

impl<K: OrdSize, V> Child<K, V> {
    /// The cached size of the subtree behind this edge.
    pub open spec fn csize(&self) -> usize {
        match self {
            Child::Node(n) => n.elements.size,
            Child::Leaf(l) => l.size,
        }
    }

    /// Number of elements stored directly in the child.
    pub open spec fn num_elems(&self) -> int {
        match self {
            Child::Node(n) => n.elements.seq().len() as int,
            Child::Leaf(l) => l.seq().len() as int,
        }
    }

    /// Well-formedness of the subtree behind this edge, at height `h`:
    /// a leaf sits exactly at height 1, a node at height `h >= 2` with all
    /// children well-formed at height `h - 1` — so all leaves of a
    /// well-formed subtree are at the same depth. Every non-root node keeps
    /// between `B - 1` and `2 * B - 1` elements, and every cached size is
    /// exactly the subtree's weight.
    pub open spec fn cwf(&self, h: int) -> bool
        decreases h, 2int, 0int,
    {
        match self {
            Child::Leaf(l) => h == 1 && l.leaf_wf(),
            Child::Node(n) => n.node_wf(h),
        }
    }

    /// The elements of the subtree behind this edge, in offset order.
    pub open spec fn cseq(&self, h: int) -> Seq<(K, V)>
        decreases h, 2int, 0int,
    {
        match self {
            Child::Leaf(l) => l.seq(),
            Child::Node(n) => n.node_seq(h),
        }
    }
}

impl<K: OrdSize, V> Node<K, V> {
    /// The node's own separator elements.
    pub open spec fn es(&self) -> Seq<(K, V)> {
        self.elements.seq()
    }

    /// The node's children.
    pub open spec fn cs(&self) -> Seq<Child<K, V>> {
        self.children.child_seq()
    }

    /// Shape: parallel storage, one more child than elements.
    pub open spec fn shape_inv(&self) -> bool {
        &&& self.elements.seq_inv()
        &&& self.cs().len() == self.es().len() + 1
    }

    /// The cached size is exactly the node's own element weight plus the
    /// cached sizes of all children.
    pub open spec fn size_ok(&self) -> bool {
        self.elements.size == weight_sum(self.es()) + children_weight(self.cs())
    }

    /// Well-formedness of the subtree rooted at this node, at height `h`.
    /// The node's own element count is not bounded from below here: the
    /// bound for non-root nodes is imposed by the parent (`children_ok`),
    /// and the root's by the tree.
    pub open spec fn node_wf(&self, h: int) -> bool
        decreases h, 1int, 0int,
    {
        if h < 2 {
            false
        } else {
            &&& self.shape_inv()
            &&& self.size_ok()
            &&& children_ok(self.cs(), h, MIN_NUM_ELEMENTS as int)
        }
    }

    /// The elements of the subtree rooted at this node, in offset order.
    pub open spec fn node_seq(&self, h: int) -> Seq<(K, V)>
        decreases h, 1int, 0int,
    {
        if h < 2 {
            Seq::empty()
        } else {
            interleave(self.cs(), self.es(), h)
        }
    }
}

/// The sum of the cached sizes of a sequence of children.
pub open spec fn children_weight<K: OrdSize, V>(cs: Seq<Child<K, V>>) -> int
    decreases cs.len(),
{
    if cs.len() == 0 {
        0
    } else {
        cs[0].csize() + children_weight(cs.skip(1))
    }
}

/// All children are well-formed subtrees at height `h - 1` holding at least
/// `min` elements each.
pub open spec fn children_ok<K: OrdSize, V>(cs: Seq<Child<K, V>>, h: int, min: int) -> bool
    decreases h, 0int, cs.len(),
{
    if cs.len() == 0 {
        true
    } else if h < 1 {
        false
    } else {
        &&& cs[0].cwf(h - 1)
        &&& min <= cs[0].num_elems()
        &&& children_ok(cs.skip(1), h, min)
    }
}

/// The subtree elements of a node laid out in offset order: child 0's
/// elements, separator 0, child 1's elements, separator 1, and so on.
pub open spec fn interleave<K: OrdSize, V>(
    cs: Seq<Child<K, V>>,
    es: Seq<(K, V)>,
    h: int,
) -> Seq<(K, V)>
    decreases h, 0int, cs.len(),
{
    if h < 1 || cs.len() == 0 {
        Seq::empty()
    } else if es.len() == 0 {
        cs[0].cseq(h - 1)
    } else {
        cs[0].cseq(h - 1) + seq![es[0]] + interleave(cs.skip(1), es.skip(1), h)
    }
}

/// `children_ok` said element-wise.
pub proof fn lemma_children_ok_iff<K: OrdSize, V>(cs: Seq<Child<K, V>>, h: int, min: int)
    ensures
        children_ok(cs, h, min) <==> (cs.len() == 0 || (h >= 1 && forall|j: int|
            0 <= j < cs.len() ==> (#[trigger] cs[j]).cwf(h - 1) && min <= cs[j].num_elems())),
    decreases cs.len(),
{
    if cs.len() != 0 {
        lemma_children_ok_iff(cs.skip(1), h, min);
        if children_ok(cs, h, min) {
            assert forall|j: int| 0 <= j < cs.len() implies (#[trigger] cs[j]).cwf(h - 1) && min
                <= cs[j].num_elems() by {
                if j > 0 {
                    assert(cs.skip(1)[j - 1] == cs[j]);
                }
            }
        }
        if h >= 1 && (forall|j: int|
            0 <= j < cs.len() ==> (#[trigger] cs[j]).cwf(h - 1) && min <= cs[j].num_elems()) {
            assert forall|j: int| 0 <= j < cs.skip(1).len() implies (#[trigger] cs.skip(1)[j]).cwf(
                h - 1,
            ) && min <= cs.skip(1)[j].num_elems() by {
                assert(cs.skip(1)[j] == cs[j + 1]);
            }
        }
    }
}

/// The sum of children sizes is nonnegative.
pub proof fn lemma_children_weight_nonneg<K: OrdSize, V>(cs: Seq<Child<K, V>>)
    ensures
        children_weight(cs) >= 0,
    decreases cs.len(),
{
    if cs.len() != 0 {
        lemma_children_weight_nonneg(cs.skip(1));
    }
}

/// Children weight distributes over concatenation.
pub proof fn lemma_children_weight_concat<K: OrdSize, V>(
    a: Seq<Child<K, V>>,
    b: Seq<Child<K, V>>,
)
    ensures
        children_weight(a + b) == children_weight(a) + children_weight(b),
    decreases a.len(),
{
    if a.len() == 0 {
        assert(a + b =~= b);
    } else {
        assert((a + b).skip(1) =~= a.skip(1) + b);
        lemma_children_weight_concat(a.skip(1), b);
    }
}

/// The weight of a single child.
pub proof fn lemma_children_weight_one<K: OrdSize, V>(c: Child<K, V>)
    ensures
        children_weight(seq![c]) == c.csize(),
{
    assert(seq![c].skip(1) =~= Seq::<Child<K, V>>::empty());
    assert(children_weight(Seq::<Child<K, V>>::empty()) == 0);
    assert(seq![c][0] == c);
}

/// A well-formed subtree's cached size is exactly its weight; its weights
/// are positive; and it holds at least as many elements as its top node.
pub proof fn lemma_cwf_weight<K: OrdSize, V>(c: Child<K, V>, h: int)
    requires
        c.cwf(h),
    ensures
        weights_pos(c.cseq(h)),
        weight_sum(c.cseq(h)) == c.csize(),
        c.cseq(h).len() >= c.num_elems(),
    decreases h, 2int, 0int,
{
    match c {
        Child::Leaf(_) => {},
        Child::Node(n) => {
            lemma_interleave_weight(n.cs(), n.es(), h, MIN_NUM_ELEMENTS as int);
        },
    }
}

/// The weight and positivity of an interleaving of well-formed children and
/// separators; holds both for a full node layout (one more child than
/// separators) and for a truncated prefix with equally many of each.
pub proof fn lemma_interleave_weight<K: OrdSize, V>(
    cs: Seq<Child<K, V>>,
    es: Seq<(K, V)>,
    h: int,
    min: int,
)
    requires
        children_ok(cs, h, min),
        weights_pos(es),
        es.len() <= cs.len() <= es.len() + 1,
    ensures
        weight_sum(interleave(cs, es, h)) == children_weight(cs) + weight_sum(es),
        weights_pos(interleave(cs, es, h)),
        interleave(cs, es, h).len() >= es.len(),
    decreases h, 0int, cs.len(),
{
    if cs.len() == 0 {
        assert(es =~= Seq::<(K, V)>::empty());
        assert(weight_sum(es) == 0);
    } else if es.len() == 0 {
        lemma_cwf_weight(cs[0], h - 1);
        assert(cs.skip(1) =~= Seq::<Child<K, V>>::empty());
        assert(children_weight(cs.skip(1)) == 0);
        assert(weight_sum(es) == 0);
        assert(interleave(cs, es, h) == cs[0].cseq(h - 1));
        assert(children_weight(cs) == cs[0].csize() + children_weight(cs.skip(1)));
    } else {
        lemma_cwf_weight(cs[0], h - 1);
        assert(weights_pos(es.skip(1))) by {
            assert forall|j: int| 0 <= j < es.skip(1).len() implies (#[trigger] es.skip(
                1,
            )[j].0.spec_size()) >= 1 by {
                assert(es.skip(1)[j] == es[j + 1]);
            }
        }
        lemma_interleave_weight(cs.skip(1), es.skip(1), h, min);
        let head = cs[0].cseq(h - 1);
        let tail = interleave(cs.skip(1), es.skip(1), h);
        lemma_weight_sum_concat(head + seq![es[0]], tail);
        lemma_weight_sum_concat(head, seq![es[0]]);
        lemma_weight_sum_one(es[0]);
        assert(interleave(cs, es, h) == head + seq![es[0]] + tail);
        assert(weight_sum(interleave(cs, es, h)) == cs[0].csize() + es[0].0.spec_size() + (
        children_weight(cs.skip(1)) + weight_sum(es.skip(1))));
        assert(children_weight(cs) == cs[0].csize() + children_weight(cs.skip(1)));
        assert(weight_sum(es) == es[0].0.spec_size() + weight_sum(es.skip(1)));
        assert(weights_pos(head + seq![es[0]] + tail)) by {
            assert forall|j: int| 0 <= j < (head + seq![es[0]] + tail).len() implies (
            #[trigger] (head + seq![es[0]] + tail)[j].0.spec_size()) >= 1 by {
                if j < head.len() {
                    assert((head + seq![es[0]] + tail)[j] == head[j]);
                } else if j == head.len() {
                    assert((head + seq![es[0]] + tail)[j] == es[0]);
                    assert(es[0].0.spec_size() >= 1);
                } else {
                    assert((head + seq![es[0]] + tail)[j] == tail[j - head.len() - 1]);
                }
            }
        }
    }
}

/// Splitting a node's layout at child `i`: everything before child `i`,
/// then child `i`'s subtree, then separator `i` and the rest.
pub proof fn lemma_interleave_split<K: OrdSize, V>(
    cs: Seq<Child<K, V>>,
    es: Seq<(K, V)>,
    h: int,
    i: int,
)
    requires
        h >= 1,
        cs.len() == es.len() + 1,
        0 <= i < cs.len(),
    ensures
        interleave(cs, es, h) == interleave(cs.take(i), es.take(i), h) + cs[i].cseq(h - 1) + (
        if i < es.len() {
            seq![es[i]] + interleave(cs.skip(i + 1), es.skip(i + 1), h)
        } else {
            Seq::empty()
        }),
    decreases i,
{
    if i == 0 {
        assert(cs.take(0) =~= Seq::<Child<K, V>>::empty());
        assert(interleave(cs.take(0), es.take(0), h) =~= Seq::empty());
        if 0 < es.len() {
            assert(interleave(cs, es, h) == cs[0].cseq(h - 1) + seq![es[0]] + interleave(
                cs.skip(1),
                es.skip(1),
                h,
            ));
            assert(interleave(cs, es, h) =~= interleave(cs.take(0), es.take(0), h) + cs[0].cseq(
                h - 1,
            ) + (seq![es[0]] + interleave(cs.skip(1), es.skip(1), h)));
        } else {
            assert(interleave(cs, es, h) == cs[0].cseq(h - 1));
            assert(interleave(cs, es, h) =~= interleave(cs.take(0), es.take(0), h) + cs[0].cseq(
                h - 1,
            ) + Seq::empty());
        }
    } else {
        let cst = cs.skip(1);
        let est = es.skip(1);
        lemma_interleave_split(cst, est, h, i - 1);
        assert(cst.take(i - 1) =~= cs.take(i).skip(1));
        assert(est.take(i - 1) =~= es.take(i).skip(1));
        assert(cst[i - 1] == cs[i]);
        assert(interleave(cs, es, h) == cs[0].cseq(h - 1) + seq![es[0]] + interleave(
            cst,
            est,
            h,
        ));
        assert(interleave(cs.take(i), es.take(i), h) == cs.take(i)[0].cseq(h - 1) + seq![es.take(
            i,
        )[0]] + interleave(cs.take(i).skip(1), es.take(i).skip(1), h));
        assert(cs.take(i)[0] == cs[0]);
        assert(es.take(i)[0] == es[0]);
        if i < es.len() {
            assert(cst.skip(i) =~= cs.skip(i + 1));
            assert(est.skip(i) =~= es.skip(i + 1));
            assert(est[i - 1] == es[i]);
            assert(interleave(cs, es, h) =~= interleave(cs.take(i), es.take(i), h) + cs[i].cseq(
                h - 1,
            ) + (seq![es[i]] + interleave(cs.skip(i + 1), es.skip(i + 1), h)));
        } else {
            assert(interleave(cs, es, h) =~= interleave(cs.take(i), es.take(i), h) + cs[i].cseq(
                h - 1,
            ) + Seq::empty());
        }
    }
}

/// `map_values` commutes with `insert`.
pub proof fn lemma_map_insert<A, E>(s: Seq<A>, i: int, a: A, f: spec_fn(A) -> E)
    requires
        0 <= i <= s.len(),
    ensures
        s.insert(i, a).map_values(f) =~= s.map_values(f).insert(i, f(a)),
{
}

/// `map_values` commutes with `push`.
pub proof fn lemma_map_push<A, E>(s: Seq<A>, a: A, f: spec_fn(A) -> E)
    ensures
        s.push(a).map_values(f) =~= s.map_values(f).push(f(a)),
{
}

/// `map_values` commutes with `update`.
pub proof fn lemma_map_update<A, E>(s: Seq<A>, i: int, a: A, f: spec_fn(A) -> E)
    requires
        0 <= i < s.len(),
    ensures
        s.update(i, a).map_values(f) =~= s.map_values(f).update(i, f(a)),
{
}

/// `map_values` commutes with `remove`.
pub proof fn lemma_map_remove<A, E>(s: Seq<A>, i: int, f: spec_fn(A) -> E)
    requires
        0 <= i < s.len(),
    ensures
        s.remove(i).map_values(f) =~= s.map_values(f).remove(i),
{
}

/// `map_values` commutes with `drop_last`.
pub proof fn lemma_map_drop_last<A, E>(s: Seq<A>, f: spec_fn(A) -> E)
    requires
        s.len() >= 1,
    ensures
        s.drop_last().map_values(f) =~= s.map_values(f).drop_last(),
{
}

/// A single child's size is bounded by the collection's weight.
pub proof fn lemma_children_weight_elem_le<K: OrdSize, V>(cs: Seq<Child<K, V>>, i: int)
    requires
        0 <= i < cs.len(),
    ensures
        cs[i].csize() <= children_weight(cs),
    decreases cs.len(),
{
    if i == 0 {
        lemma_children_weight_nonneg(cs.skip(1));
    } else {
        lemma_children_weight_elem_le(cs.skip(1), i - 1);
        assert(cs.skip(1)[i - 1] == cs[i]);
    }
}

/// Children weight of an inserted collection.
pub proof fn lemma_children_weight_insert<K: OrdSize, V>(
    cs: Seq<Child<K, V>>,
    i: int,
    c: Child<K, V>,
)
    requires
        0 <= i <= cs.len(),
    ensures
        children_weight(cs.insert(i, c)) == children_weight(cs) + c.csize(),
{
    assert(cs.insert(i, c) =~= cs.take(i) + (seq![c] + cs.skip(i)));
    assert(cs =~= cs.take(i) + cs.skip(i));
    lemma_children_weight_concat(cs.take(i), seq![c] + cs.skip(i));
    lemma_children_weight_concat(seq![c], cs.skip(i));
    lemma_children_weight_concat(cs.take(i), cs.skip(i));
    lemma_children_weight_one(c);
}

/// Children weight of a collection with one child removed.
pub proof fn lemma_children_weight_remove<K: OrdSize, V>(cs: Seq<Child<K, V>>, i: int)
    requires
        0 <= i < cs.len(),
    ensures
        children_weight(cs.remove(i)) == children_weight(cs) - cs[i].csize(),
{
    assert(cs.remove(i) =~= cs.take(i) + cs.skip(i + 1));
    assert(cs =~= cs.take(i) + (seq![cs[i]] + cs.skip(i + 1)));
    lemma_children_weight_concat(cs.take(i), cs.skip(i + 1));
    lemma_children_weight_concat(cs.take(i), seq![cs[i]] + cs.skip(i + 1));
    lemma_children_weight_concat(seq![cs[i]], cs.skip(i + 1));
    lemma_children_weight_one(cs[i]);
}

impl<K: OrdSize, V> Child<K, V> {
    /// Number of elements stored directly in the child.
    pub fn num_elements(&self) -> (r: usize)
        ensures
            r == self.num_elems(),
    {
        match self {
            Child::Node(n) => n.elements.keys.len(),
            Child::Leaf(l) => l.keys.len(),
        }
    }

    /// The cached size of the subtree behind this edge.
    pub fn size(&self) -> (r: usize)
        ensures
            r == self.csize(),
    {
        match self {
            Child::Node(n) => n.elements.size,
            Child::Leaf(l) => l.size,
        }
    }

    /// The node behind this edge, if it is one.
    pub fn try_into_node(self) -> (r: Option<Box<Node<K, V>>>)
        ensures
            match self {
                Child::Node(n) => r == Some(n),
                Child::Leaf(_) => r is None,
            },
    {
        match self {
            Child::Node(n) => Some(n),
            Child::Leaf(_) => None,
        }
    }

    /// The leaf behind this edge, if it is one.
    pub fn try_into_leaf(self) -> (r: Option<Box<NodeElements<K, V>>>)
        ensures
            match self {
                Child::Leaf(l) => r == Some(l),
                Child::Node(_) => r is None,
            },
    {
        match self {
            Child::Leaf(l) => Some(l),
            Child::Node(_) => None,
        }
    }

    /// Borrow the node behind this edge, if it is one.
    pub fn try_as_node_ref(&self) -> (r: Option<&Box<Node<K, V>>>)
        ensures
            match self {
                Child::Node(n) => r == Some(n),
                Child::Leaf(_) => r is None,
            },
    {
        match self {
            Child::Node(n) => Some(n),
            Child::Leaf(_) => None,
        }
    }

    /// Borrow the leaf behind this edge, if it is one.
    pub fn try_as_leaf_ref(&self) -> (r: Option<&Box<NodeElements<K, V>>>)
        ensures
            match self {
                Child::Leaf(l) => r == Some(l),
                Child::Node(_) => r is None,
            },
    {
        match self {
            Child::Leaf(l) => Some(l),
            Child::Node(_) => None,
        }
    }

    /// The keys stored directly in the child, in order.
    pub fn keys(&self) -> (r: &Vec<K>)
        ensures
            match self {
                Child::Node(n) => r == &n.elements.keys,
                Child::Leaf(l) => r == &l.keys,
            },
    {
        match self {
            Child::Node(n) => &n.elements.keys,
            Child::Leaf(l) => &l.keys,
        }
    }

    /// The values stored directly in the child, in order.
    pub fn values(&self) -> (r: &Vec<V>)
        ensures
            match self {
                Child::Node(n) => r == &n.elements.values,
                Child::Leaf(l) => r == &l.values,
            },
    {
        match self {
            Child::Node(n) => &n.elements.values,
            Child::Leaf(l) => &l.values,
        }
    }
}

impl<K: OrdSize, V> Node<K, V> {
    /// A fresh node holding no separator and exactly one child: the shape a
    /// new root takes the moment the tree grows in depth.
    pub fn new(child: Child<K, V>) -> (r: Box<Node<K, V>>)
        ensures
            r.es() =~= Seq::<(K, V)>::empty(),
            r.cs() =~= seq![child],
            r.elements.size == child.csize(),
            r.shape_inv(),
            r.size_ok(),
            r.children.is_nodes() == (child is Node),
    {
        let size = child.size();
        proof {
            lemma_children_weight_one(child);
        }
        match child {
            Child::Node(bn) => {
                let mut v: Vec<Box<Node<K, V>>> = Vec::new();
                v.push(bn);
                let r = Box::new(
                    Node {
                        elements: NodeElements { keys: Vec::new(), values: Vec::new(), size },
                        children: Children::Nodes(v),
                    },
                );
                proof {
                    assert(r.cs() =~= seq![child]);
                    assert(r.es() =~= Seq::<(K, V)>::empty());
                }
                r
            },
            Child::Leaf(bl) => {
                let mut v: Vec<Box<NodeElements<K, V>>> = Vec::new();
                v.push(bl);
                let r = Box::new(
                    Node {
                        elements: NodeElements { keys: Vec::new(), values: Vec::new(), size },
                        children: Children::Leafs(v),
                    },
                );
                proof {
                    assert(r.cs() =~= seq![child]);
                    assert(r.es() =~= Seq::<(K, V)>::empty());
                }
                r
            },
        }
    }

    /// Number of children: always one more than the number of elements.
    pub fn num_children(&self) -> (r: usize)
        requires
            self.shape_inv(),
        ensures
            r == self.cs().len(),
    {
        self.elements.keys.len() + 1
    }

    /// Number of separator elements.
    pub fn num_elements(&self) -> (r: usize)
        ensures
            r == self.es().len(),
    {
        self.elements.keys.len()
    }

    /// The cached size of the whole subtree under this node.
    pub fn size(&self) -> (r: usize)
        ensures
            r == self.elements.size,
    {
        self.elements.size
    }

    /// The separator keys, in order.
    pub fn keys(&self) -> (r: &Vec<K>)
        ensures
            r == &self.elements.keys,
    {
        &self.elements.keys
    }

    /// The separator values, in order.
    pub fn values(&self) -> (r: &Vec<V>)
        ensures
            r == &self.elements.values,
    {
        &self.elements.values
    }

    /// Take the node apart into its element store and its children.
    pub fn separate(self) -> (r: (NodeElements<K, V>, Children<K, V>))
        ensures
            r.0 == self.elements,
            r.1 == self.children,
    {
        (self.elements, self.children)
    }

    /// Insert separator `(key, value)` at `idx` together with its right-hand
    /// child, atomically. On overflow the rightmost separator and rightmost
    /// child leave together, so `elements + 1 == children` holds exactly
    /// before and after.
    pub fn insert(&mut self, idx: usize, key: K, value: V, child: Child<K, V>) -> (overflow:
        Option<(K, V, Child<K, V>)>)
        requires
            old(self).shape_inv(),
            old(self).size_ok(),
            idx <= old(self).es().len(),
            old(self).children.accepts(child),
            key.spec_size() >= 1,
            old(self).elements.size + key.spec_size() + child.csize() <= usize::MAX,
        ensures
            final(self).shape_inv(),
            final(self).size_ok(),
            final(self).children.is_nodes() == old(self).children.is_nodes(),
            ({
                let fe = old(self).es().insert(idx as int, (key, value));
                let fc = old(self).cs().insert(idx as int + 1, child);
                if fe.len() <= MAX_NUM_ELEMENTS {
                    &&& final(self).es() =~= fe
                    &&& final(self).cs() =~= fc
                    &&& overflow is None
                } else {
                    &&& final(self).es() =~= fe.drop_last()
                    &&& final(self).cs() =~= fc.drop_last()
                    &&& overflow == Some((fe.last().0, fe.last().1, fc.last()))
                }
            }),
    {
        let ghost old_es = self.es();
        let ghost old_cs = self.cs();
        let ghost gchild = child;
        let ghost fe = old_es.insert(idx as int, (key, value));
        let ghost fc = old_cs.insert(idx as int + 1, gchild);
        let csz = child.size();
        proof {
            lemma_children_weight_nonneg(old_cs);
            lemma_weight_sum_nonneg_of_inv(old(self).elements);
        }
        let elem_overflow = self.elements.insert(idx, key, value);
        proof {
            lemma_children_weight_insert(old_cs, idx as int + 1, gchild);
            super::model::lemma_weight_sum_insert(old_es, idx as int, (key, value));
            lemma_ins_weights_pos(old_es, idx as int, (key, value));
            lemma_elem_weight_le(fe, fe.len() - 1);
            lemma_weight_drop_last_facts(fe);
        }
        self.elements.size = self.elements.size + csz;
        match (&mut self.children, child) {
            (Children::Nodes(v), Child::Node(bn)) => {
                v.insert(idx + 1, bn);
                match elem_overflow {
                    None => {
                        proof {
                            lemma_map_insert(
                                old(self).children->Nodes_0@,
                                idx as int + 1,
                                gchild->Node_0,
                                |n: Box<Node<K, V>>| Child::Node(n),
                            );
                            assert(self.cs() =~= fc);
                        }
                        None
                    },
                    Some((ok, ov)) => {
                        let last = match v.pop() {
                            Some(l) => l,
                            None => vstd::pervasive::unreached(),
                        };
                        proof {
                            let f = |n: Box<Node<K, V>>| Child::Node(n);
                            let grown = old(self).children->Nodes_0@.insert(
                                idx as int + 1,
                                gchild->Node_0,
                            );
                            lemma_map_insert(
                                old(self).children->Nodes_0@,
                                idx as int + 1,
                                gchild->Node_0,
                                f,
                            );
                            lemma_map_drop_last(grown, f);
                            assert(self.cs() =~= fc.drop_last());
                            assert(fc.last() == Child::Node(last));
                            lemma_children_weight_elem_le(fc, fc.len() - 1);
                            lemma_weight_drop_last_facts(fe);
                            lemma_children_weight_drop_last(fc);
                        }
                        self.elements.size = self.elements.size - last.elements.size;
                        Some((ok, ov, Child::Node(last)))
                    },
                }
            },
            (Children::Leafs(v), Child::Leaf(bl)) => {
                v.insert(idx + 1, bl);
                match elem_overflow {
                    None => {
                        proof {
                            lemma_map_insert(
                                old(self).children->Leafs_0@,
                                idx as int + 1,
                                gchild->Leaf_0,
                                |l: Box<NodeElements<K, V>>| Child::Leaf(l),
                            );
                            assert(self.cs() =~= fc);
                        }
                        None
                    },
                    Some((ok, ov)) => {
                        let last = match v.pop() {
                            Some(l) => l,
                            None => vstd::pervasive::unreached(),
                        };
                        proof {
                            let f = |l: Box<NodeElements<K, V>>| Child::Leaf(l);
                            let grown = old(self).children->Leafs_0@.insert(
                                idx as int + 1,
                                gchild->Leaf_0,
                            );
                            lemma_map_insert(
                                old(self).children->Leafs_0@,
                                idx as int + 1,
                                gchild->Leaf_0,
                                f,
                            );
                            lemma_map_drop_last(grown, f);
                            assert(self.cs() =~= fc.drop_last());
                            assert(fc.last() == Child::Leaf(last));
                            lemma_children_weight_elem_le(fc, fc.len() - 1);
                            lemma_weight_drop_last_facts(fe);
                            lemma_children_weight_drop_last(fc);
                        }
                        self.elements.size = self.elements.size - last.size;
                        Some((ok, ov, Child::Leaf(last)))
                    },
                }
            },
            _ => vstd::pervasive::unreached(),
        }
    }

    /// Append separator `(key, value)` and its right-hand child at the end.
    pub fn push(&mut self, key: K, value: V, child: Child<K, V>) -> (overflow: Option<
        (K, V, Child<K, V>),
    >)
        requires
            old(self).shape_inv(),
            old(self).size_ok(),
            old(self).children.accepts(child),
            key.spec_size() >= 1,
            old(self).elements.size + key.spec_size() + child.csize() <= usize::MAX,
        ensures
            final(self).shape_inv(),
            final(self).size_ok(),
            final(self).children.is_nodes() == old(self).children.is_nodes(),
            ({
                let fe = old(self).es().push((key, value));
                let fc = old(self).cs().push(child);
                if fe.len() <= MAX_NUM_ELEMENTS {
                    &&& final(self).es() =~= fe
                    &&& final(self).cs() =~= fc
                    &&& overflow is None
                } else {
                    &&& final(self).es() =~= fe.drop_last()
                    &&& final(self).cs() =~= fc.drop_last()
                    &&& overflow == Some((fe.last().0, fe.last().1, fc.last()))
                }
            }),
    {
        let idx = self.elements.keys.len();
        proof {
            assert(old(self).es().insert(idx as int, (key, value)) =~= old(self).es().push(
                (key, value),
            ));
            assert(old(self).cs().insert(idx as int + 1, child) =~= old(self).cs().push(child));
        }
        self.insert(idx, key, value, child)
    }

    /// Remove and return the last separator and the last child together, if
    /// the node holds any separator.
    pub fn pop(&mut self) -> (r: Option<(K, V, Child<K, V>)>)
        requires
            old(self).shape_inv(),
            old(self).size_ok(),
        ensures
            final(self).shape_inv(),
            final(self).size_ok(),
            final(self).children.is_nodes() == old(self).children.is_nodes(),
            if old(self).es().len() == 0 {
                r is None && *final(self) == *old(self)
            } else {
                &&& final(self).es() =~= old(self).es().drop_last()
                &&& final(self).cs() =~= old(self).cs().drop_last()
                &&& r == Some(
                    (
                        old(self).es().last().0,
                        old(self).es().last().1,
                        old(self).cs().last(),
                    ),
                )
            },
    {
        if self.elements.keys.len() == 0 {
            None
        } else {
            let idx = self.elements.keys.len() - 1;
            let (k, v, c) = self.remove(idx);
            proof {
                assert(old(self).es().remove(idx as int) =~= old(self).es().drop_last());
                assert(old(self).cs().remove(idx as int + 1) =~= old(self).cs().drop_last());
            }
            Some((k, v, c))
        }
    }

    /// Remove and return separator `idx` together with its right-hand child.
    pub fn remove(&mut self, idx: usize) -> (r: (K, V, Child<K, V>))
        requires
            old(self).shape_inv(),
            old(self).size_ok(),
            idx < old(self).es().len(),
        ensures
            final(self).shape_inv(),
            final(self).size_ok(),
            final(self).children.is_nodes() == old(self).children.is_nodes(),
            final(self).es() =~= old(self).es().remove(idx as int),
            final(self).cs() =~= old(self).cs().remove(idx as int + 1),
            r.0 == old(self).es()[idx as int].0,
            r.1 == old(self).es()[idx as int].1,
            r.2 == old(self).cs()[idx as int + 1],
    {
        let ghost old_es = self.es();
        let ghost old_cs = self.cs();
        proof {
            lemma_children_weight_nonneg(old_cs);
        }
        let (k, v) = self.elements.remove(idx);
        proof {
            super::model::lemma_weight_sum_remove(old_es, idx as int);
            lemma_elem_weight_le(old_es, idx as int);
            lemma_weight_sum_nonneg(old_es);
            lemma_children_weight_remove(old_cs, idx as int + 1);
            lemma_children_weight_elem_le(old_cs, idx as int + 1);
            lemma_children_weight_nonneg(old_cs.remove(idx as int + 1));
        }
        match &mut self.children {
            Children::Nodes(vec) => {
                let c = vec.remove(idx + 1);
                proof {
                    lemma_map_remove(
                        old(self).children->Nodes_0@,
                        idx as int + 1,
                        |n: Box<Node<K, V>>| Child::Node(n),
                    );
                    assert(self.cs() =~= old_cs.remove(idx as int + 1));
                    assert(old_cs[idx as int + 1] == Child::Node(c));
                }
                self.elements.size = self.elements.size - c.elements.size;
                (k, v, Child::Node(c))
            },
            Children::Leafs(vec) => {
                let c = vec.remove(idx + 1);
                proof {
                    lemma_map_remove(
                        old(self).children->Leafs_0@,
                        idx as int + 1,
                        |l: Box<NodeElements<K, V>>| Child::Leaf(l),
                    );
                    assert(self.cs() =~= old_cs.remove(idx as int + 1));
                    assert(old_cs[idx as int + 1] == Child::Leaf(c));
                }
                self.elements.size = self.elements.size - c.size;
                (k, v, Child::Leaf(c))
            },
        }
    }
}


/// `map_values` commutes with `take`.
pub proof fn lemma_map_take<A, E>(s: Seq<A>, i: int, f: spec_fn(A) -> E)
    requires
        0 <= i <= s.len(),
    ensures
        s.take(i).map_values(f) =~= s.map_values(f).take(i),
{
}

/// `map_values` commutes with `skip`.
pub proof fn lemma_map_skip<A, E>(s: Seq<A>, i: int, f: spec_fn(A) -> E)
    requires
        0 <= i <= s.len(),
    ensures
        s.skip(i).map_values(f) =~= s.map_values(f).skip(i),
{
}

/// `map_values` commutes with concatenation.
pub proof fn lemma_map_concat<A, E>(a: Seq<A>, b: Seq<A>, f: spec_fn(A) -> E)
    ensures
        (a + b).map_values(f) =~= a.map_values(f) + b.map_values(f),
{
}

/// Appending a child adds its size.
pub proof fn lemma_children_weight_push<K: OrdSize, V>(cs: Seq<Child<K, V>>, c: Child<K, V>)
    ensures
        children_weight(cs.push(c)) == children_weight(cs) + c.csize(),
{
    assert(cs.push(c) =~= cs.insert(cs.len() as int, c));
    lemma_children_weight_insert(cs, cs.len() as int, c);
}

/// A prefix of children weighs between nothing and the whole collection.
pub proof fn lemma_children_weight_take_le<K: OrdSize, V>(cs: Seq<Child<K, V>>, i: int)
    requires
        0 <= i <= cs.len(),
    ensures
        0 <= children_weight(cs.take(i)) <= children_weight(cs),
        children_weight(cs) == children_weight(cs.take(i)) + children_weight(cs.skip(i)),
        0 <= children_weight(cs.skip(i)),
{
    assert(cs =~= cs.take(i) + cs.skip(i));
    lemma_children_weight_concat(cs.take(i), cs.skip(i));
    lemma_children_weight_nonneg(cs.take(i));
    lemma_children_weight_nonneg(cs.skip(i));
}

impl<K: OrdSize, V> Node<K, V> {
    /// Split a node at maximum capacity that has one pending overflow
    /// triple. Conceptually the node holds its `2 * B - 1` separators and
    /// `2 * B` children followed by the overflow separator and child; the
    /// first `B` separators and `B + 1` children stay here, separator `B`
    /// is promoted, and the rest moves into a fresh right sibling.
    pub fn split(&mut self, overflow_key: K, overflow_value: V, overflow_child: Child<K, V>) -> (r:
        ((K, V), Box<Node<K, V>>))
        requires
            old(self).shape_inv(),
            old(self).size_ok(),
            old(self).es().len() == MAX_NUM_ELEMENTS,
            old(self).children.accepts(overflow_child),
            overflow_key.spec_size() >= 1,
            old(self).elements.size + overflow_key.spec_size() + overflow_child.csize()
                <= usize::MAX,
        ensures
            ({
                let fe = old(self).es().push((overflow_key, overflow_value));
                let fc = old(self).cs().push(overflow_child);
                &&& final(self).es() =~= fe.take(B as int)
                &&& final(self).cs() =~= fc.take(B as int + 1)
                &&& r.0 == fe[B as int]
                &&& r.1.es() =~= fe.skip(B as int + 1)
                &&& r.1.cs() =~= fc.skip(B as int + 1)
                &&& final(self).shape_inv()
                &&& final(self).size_ok()
                &&& r.1.shape_inv()
                &&& r.1.size_ok()
                &&& final(self).children.is_nodes() == old(self).children.is_nodes()
                &&& r.1.children.is_nodes() == old(self).children.is_nodes()
            }),
    {
        let ghost old_es = self.es();
        let ghost old_cs = self.cs();
        let ghost goc = overflow_child;
        let ghost fe = old_es.push((overflow_key, overflow_value));
        let ghost fc = old_cs.push(goc);
        let ocsz = overflow_child.size();
        proof {
            lemma_children_weight_nonneg(old_cs);
            lemma_weight_sum_nonneg(old_es);
        }
        let mut right_elements = NodeElements::new();
        let sep = self.elements.split(overflow_key, overflow_value, &mut right_elements);
        proof {
            assert(fe.take(B as int) =~= old_es.take(B as int));
            assert(fc.take(B as int + 1) =~= old_cs.take(B as int + 1));
            super::model::lemma_weight_sum_take_le(old_es, B as int);
            lemma_children_weight_take_le(old_cs, B as int + 1);
            assert(old_es.take(B as int) =~= old_es.take(B as int + 1).take(B as int));
            super::model::lemma_weight_sum_take_le(old_es.skip(B as int), 1);
            assert(old_es.skip(B as int).skip(1) =~= old_es.skip(B as int + 1));
            assert(old_es.skip(B as int).take(1) =~= seq![old_es[B as int]]);
            lemma_weight_sum_one(old_es[B as int]);
            assert(weights_pos(old_es.skip(B as int))) by {
                assert forall|j: int| 0 <= j < old_es.skip(B as int).len() implies (
                #[trigger] old_es.skip(B as int)[j].0.spec_size()) >= 1 by {
                    assert(old_es.skip(B as int)[j] == old_es[j + B]);
                }
            }
            super::model::lemma_weight_sum_take_le(old_es, B as int + 1);
            super::model::lemma_weight_sum_push(old_es, (overflow_key, overflow_value));
            assert(fe =~= old_es.insert(old_es.len() as int, (overflow_key, overflow_value)));
            lemma_ins_weights_pos(old_es, old_es.len() as int, (overflow_key, overflow_value));
            super::model::lemma_weight_sum_take_le(fe, B as int + 1);
        }
        match (&mut self.children, overflow_child) {
            (Children::Nodes(v), Child::Node(obn)) => {
                let ghost f = |n: Box<Node<K, V>>| Child::Node(n);
                let ghost old_vec = v@;
                let mut right_vec = v.split_off(B + 1);
                let ghost rcs = old_cs.skip(B as int + 1);
                proof {
                    lemma_map_skip(old_vec, B as int + 1, f);
                    lemma_map_take(old_vec, B as int + 1, f);
                    assert(right_vec@.map_values(f) =~= rcs);
                }
                let mut rcw: usize = 0;
                let mut i: usize = 0;
                proof {
                    assert(rcs.take(0) =~= Seq::<Child<K, V>>::empty());
                    lemma_children_weight_take_le(old_cs, B as int + 1);
                }
                while i < right_vec.len()
                    invariant
                        i <= right_vec@.len(),
                        right_vec@.len() == rcs.len(),
                        forall|j: int|
                            0 <= j < rcs.len() ==> rcs[j] == Child::Node(
                                #[trigger] right_vec@[j],
                            ),
                        rcw == children_weight(rcs.take(i as int)),
                        children_weight(rcs) <= usize::MAX,
                        0 <= rcw <= children_weight(rcs),
                    decreases right_vec@.len() - i,
                {
                    proof {
                        assert(rcs.take(i + 1) =~= rcs.take(i as int).push(rcs[i as int]));
                        lemma_children_weight_push(rcs.take(i as int), rcs[i as int]);
                        lemma_children_weight_take_le(rcs, i + 1);
                        assert(rcs.take(i + 1).take(i as int) =~= rcs.take(i as int));
                        assert(rcs[i as int].csize() == right_vec@[i as int].elements.size);
                        assert(rcw + right_vec@[i as int].elements.size == children_weight(
                            rcs.take(i as int + 1),
                        ));
                    }
                    rcw = rcw + right_vec[i].elements.size;
                    i = i + 1;
                }
                proof {
                    assert(rcs.take(rcs.len() as int) =~= rcs);
                }
                self.elements.size = self.elements.size - rcw;
                right_vec.push(obn);
                right_elements.size = right_elements.size + rcw + ocsz;
                let right = Box::new(
                    Node { elements: right_elements, children: Children::Nodes(right_vec) },
                );
                proof {
                    lemma_map_push(old_vec.skip(B as int + 1), goc->Node_0, f);
                    assert(right.cs() =~= fc.skip(B as int + 1));
                    assert(fc.skip(B as int + 1) =~= rcs.push(goc));
                    lemma_children_weight_push(rcs, goc);
                    assert(self.cs() =~= fc.take(B as int + 1));
                }
                (sep, right)
            },
            (Children::Leafs(v), Child::Leaf(obl)) => {
                let ghost f = |l: Box<NodeElements<K, V>>| Child::Leaf(l);
                let ghost old_vec = v@;
                let mut right_vec = v.split_off(B + 1);
                let ghost rcs = old_cs.skip(B as int + 1);
                proof {
                    lemma_map_skip(old_vec, B as int + 1, f);
                    lemma_map_take(old_vec, B as int + 1, f);
                    assert(right_vec@.map_values(f) =~= rcs);
                }
                let mut rcw: usize = 0;
                let mut i: usize = 0;
                proof {
                    assert(rcs.take(0) =~= Seq::<Child<K, V>>::empty());
                    lemma_children_weight_take_le(old_cs, B as int + 1);
                }
                while i < right_vec.len()
                    invariant
                        i <= right_vec@.len(),
                        right_vec@.len() == rcs.len(),
                        forall|j: int|
                            0 <= j < rcs.len() ==> rcs[j] == Child::Leaf(
                                #[trigger] right_vec@[j],
                            ),
                        rcw == children_weight(rcs.take(i as int)),
                        children_weight(rcs) <= usize::MAX,
                        0 <= rcw <= children_weight(rcs),
                    decreases right_vec@.len() - i,
                {
                    proof {
                        assert(rcs.take(i + 1) =~= rcs.take(i as int).push(rcs[i as int]));
                        lemma_children_weight_push(rcs.take(i as int), rcs[i as int]);
                        lemma_children_weight_take_le(rcs, i + 1);
                        assert(rcs.take(i + 1).take(i as int) =~= rcs.take(i as int));
                        assert(rcs[i as int].csize() == right_vec@[i as int].size);
                        assert(rcw + right_vec@[i as int].size == children_weight(
                            rcs.take(i as int + 1),
                        ));
                    }
                    rcw = rcw + right_vec[i].size;
                    i = i + 1;
                }
                proof {
                    assert(rcs.take(rcs.len() as int) =~= rcs);
                }
                self.elements.size = self.elements.size - rcw;
                right_vec.push(obl);
                right_elements.size = right_elements.size + rcw + ocsz;
                let right = Box::new(
                    Node { elements: right_elements, children: Children::Leafs(right_vec) },
                );
                proof {
                    lemma_map_push(old_vec.skip(B as int + 1), goc->Leaf_0, f);
                    assert(right.cs() =~= fc.skip(B as int + 1));
                    assert(fc.skip(B as int + 1) =~= rcs.push(goc));
                    lemma_children_weight_push(rcs, goc);
                    assert(self.cs() =~= fc.take(B as int + 1));
                }
                (sep, right)
            },
            _ => vstd::pervasive::unreached(),
        }
    }

    /// Append a separator and then all of `right`'s separators and children
    /// onto `self`; `right` is consumed whole, its children moved, not
    /// dropped.
    pub fn merge(&mut self, sep_key: K, sep_value: V, right: Box<Node<K, V>>)
        requires
            old(self).shape_inv(),
            old(self).size_ok(),
            right.shape_inv(),
            right.size_ok(),
            old(self).children.is_nodes() == right.children.is_nodes(),
            old(self).es().len() + right.es().len() < MAX_NUM_ELEMENTS,
            sep_key.spec_size() >= 1,
            old(self).elements.size + sep_key.spec_size() + right.elements.size <= usize::MAX,
        ensures
            final(self).shape_inv(),
            final(self).size_ok(),
            final(self).children.is_nodes() == old(self).children.is_nodes(),
            final(self).es() =~= old(self).es().push((sep_key, sep_value)) + right.es(),
            final(self).cs() =~= old(self).cs() + right.cs(),
    {
        let ghost old_es = self.es();
        let ghost old_cs = self.cs();
        proof {
            lemma_children_weight_nonneg(right.cs());
            lemma_weight_sum_nonneg(right.es());
            lemma_children_weight_nonneg(old_cs);
        }
        let boxed = right;
        let inner = *boxed;
        let (mut relems, rchildren) = inner.separate();
        self.elements.merge(sep_key, sep_value, &mut relems);
        proof {
            super::model::lemma_weight_sum_concat(
                old_es.push((sep_key, sep_value)),
                right.es(),
            );
            super::model::lemma_weight_sum_push(old_es, (sep_key, sep_value));
            lemma_children_weight_concat(old_cs, right.cs());
        }
        match (&mut self.children, rchildren) {
            (Children::Nodes(v), Children::Nodes(mut rv)) => {
                let ghost f = |n: Box<Node<K, V>>| Child::Node(n);
                let ghost a = v@;
                let ghost b = rv@;
                v.append(&mut rv);
                proof {
                    lemma_map_concat(a, b, f);
                    assert(self.cs() =~= old_cs + right.cs());
                }
            },
            (Children::Leafs(v), Children::Leafs(mut rv)) => {
                let ghost f = |l: Box<NodeElements<K, V>>| Child::Leaf(l);
                let ghost a = v@;
                let ghost b = rv@;
                v.append(&mut rv);
                proof {
                    lemma_map_concat(a, b, f);
                    assert(self.cs() =~= old_cs + right.cs());
                }
            },
            _ => vstd::pervasive::unreached(),
        }
    }
}


impl<K: OrdSize, V> Children<K, V> {
    /// The cached size of child `i`.
    pub fn size_at(&self, i: usize) -> (r: usize)
        requires
            i < self.child_seq().len(),
        ensures
            r == self.child_seq()[i as int].csize(),
    {
        match self {
            Children::Nodes(v) => v[i].elements.size,
            Children::Leafs(v) => v[i].size,
        }
    }

    /// The element count of child `i`.
    pub fn num_elements_at(&self, i: usize) -> (r: usize)
        requires
            i < self.child_seq().len(),
        ensures
            r == self.child_seq()[i as int].num_elems(),
    {
        match self {
            Children::Nodes(v) => v[i].elements.keys.len(),
            Children::Leafs(v) => v[i].keys.len(),
        }
    }
}

impl<K: OrdSize, V> Node<K, V> {
    /// Remove and return the first separator together with the first child.
    pub fn remove_first(&mut self) -> (r: (K, V, Child<K, V>))
        requires
            old(self).shape_inv(),
            old(self).size_ok(),
            old(self).es().len() >= 1,
        ensures
            final(self).shape_inv(),
            final(self).size_ok(),
            final(self).children.is_nodes() == old(self).children.is_nodes(),
            final(self).es() =~= old(self).es().remove(0),
            final(self).cs() =~= old(self).cs().remove(0),
            r.0 == old(self).es()[0].0,
            r.1 == old(self).es()[0].1,
            r.2 == old(self).cs()[0],
    {
        let ghost old_es = self.es();
        let ghost old_cs = self.cs();
        proof {
            lemma_children_weight_nonneg(old_cs);
        }
        let (k, v) = self.elements.remove(0);
        proof {
            super::model::lemma_weight_sum_remove(old_es, 0);
            lemma_elem_weight_le(old_es, 0);
            lemma_weight_sum_nonneg(old_es);
            lemma_children_weight_remove(old_cs, 0);
            lemma_children_weight_elem_le(old_cs, 0);
            lemma_children_weight_nonneg(old_cs.remove(0));
        }
        match &mut self.children {
            Children::Nodes(vec) => {
                let c = vec.remove(0);
                proof {
                    lemma_map_remove(
                        old(self).children->Nodes_0@,
                        0,
                        |n: Box<Node<K, V>>| Child::Node(n),
                    );
                    assert(self.cs() =~= old_cs.remove(0));
                    assert(old_cs[0] == Child::Node(c));
                }
                self.elements.size = self.elements.size - c.elements.size;
                (k, v, Child::Node(c))
            },
            Children::Leafs(vec) => {
                let c = vec.remove(0);
                proof {
                    lemma_map_remove(
                        old(self).children->Leafs_0@,
                        0,
                        |l: Box<NodeElements<K, V>>| Child::Leaf(l),
                    );
                    assert(self.cs() =~= old_cs.remove(0));
                    assert(old_cs[0] == Child::Leaf(c));
                }
                self.elements.size = self.elements.size - c.size;
                (k, v, Child::Leaf(c))
            },
        }
    }

    /// Insert a separator and a child at the very front: the new child
    /// becomes child 0 and the new separator element 0, as a rotation from
    /// a left sibling requires.
    pub fn insert_first(&mut self, key: K, value: V, child: Child<K, V>)
        requires
            old(self).shape_inv(),
            old(self).size_ok(),
            old(self).es().len() < MAX_NUM_ELEMENTS,
            old(self).children.accepts(child),
            key.spec_size() >= 1,
            old(self).elements.size + key.spec_size() + child.csize() <= usize::MAX,
        ensures
            final(self).shape_inv(),
            final(self).size_ok(),
            final(self).children.is_nodes() == old(self).children.is_nodes(),
            final(self).es() =~= old(self).es().insert(0, (key, value)),
            final(self).cs() =~= old(self).cs().insert(0, child),
    {
        let ghost old_es = self.es();
        let ghost old_cs = self.cs();
        let ghost gchild = child;
        let csz = child.size();
        proof {
            lemma_children_weight_nonneg(old_cs);
            lemma_weight_sum_nonneg(old_es);
        }
        let elem_overflow = self.elements.insert(0, key, value);
        proof {
            assert(elem_overflow is None);
            lemma_children_weight_insert(old_cs, 0, gchild);
            super::model::lemma_weight_sum_insert(old_es, 0, (key, value));
        }
        self.elements.size = self.elements.size + csz;
        match (&mut self.children, child) {
            (Children::Nodes(v), Child::Node(bn)) => {
                v.insert(0, bn);
                proof {
                    lemma_map_insert(
                        old(self).children->Nodes_0@,
                        0,
                        gchild->Node_0,
                        |n: Box<Node<K, V>>| Child::Node(n),
                    );
                    assert(self.cs() =~= old_cs.insert(0, gchild));
                }
            },
            (Children::Leafs(v), Child::Leaf(bl)) => {
                v.insert(0, bl);
                proof {
                    lemma_map_insert(
                        old(self).children->Leafs_0@,
                        0,
                        gchild->Leaf_0,
                        |l: Box<NodeElements<K, V>>| Child::Leaf(l),
                    );
                    assert(self.cs() =~= old_cs.insert(0, gchild));
                }
            },
            _ => vstd::pervasive::unreached(),
        }
    }
}

/// Appending one more child to an even layout appends its subtree.
pub proof fn lemma_interleave_snoc_child<K: OrdSize, V>(
    cs: Seq<Child<K, V>>,
    es: Seq<(K, V)>,
    h: int,
    c: Child<K, V>,
)
    requires
        h >= 1,
        cs.len() == es.len(),
    ensures
        interleave(cs.push(c), es, h) == interleave(cs, es, h) + c.cseq(h - 1),
    decreases cs.len(),
{
    if cs.len() == 0 {
        assert(cs.push(c)[0] == c);
        assert(interleave(cs, es, h) =~= Seq::<(K, V)>::empty());
        assert(interleave(cs.push(c), es, h) == c.cseq(h - 1));
        assert(interleave(cs, es, h) + c.cseq(h - 1) =~= c.cseq(h - 1));
    } else {
        lemma_interleave_snoc_child(cs.skip(1), es.skip(1), h, c);
        assert(cs.push(c).skip(1) =~= cs.skip(1).push(c));
        assert(cs.push(c)[0] == cs[0]);
        assert(interleave(cs.push(c), es, h) == cs[0].cseq(h - 1) + seq![es[0]] + interleave(
            cs.skip(1).push(c),
            es.skip(1),
            h,
        ));
        assert(interleave(cs, es, h) == cs[0].cseq(h - 1) + seq![es[0]] + interleave(
            cs.skip(1),
            es.skip(1),
            h,
        ));
        assert(interleave(cs.push(c), es, h) =~= interleave(cs, es, h) + c.cseq(h - 1));
    }
}

/// Appending one more separator to a full layout appends that element.
pub proof fn lemma_interleave_snoc_elem<K: OrdSize, V>(
    cs: Seq<Child<K, V>>,
    es: Seq<(K, V)>,
    h: int,
    e: (K, V),
)
    requires
        h >= 1,
        cs.len() == es.len() + 1,
    ensures
        interleave(cs, es.push(e), h) == interleave(cs, es, h) + seq![e],
    decreases cs.len(),
{
    if es.len() == 0 {
        assert(es.push(e)[0] == e);
        assert(es.push(e).skip(1) =~= Seq::<(K, V)>::empty());
        assert(cs.skip(1) =~= Seq::<Child<K, V>>::empty());
        assert(interleave(cs.skip(1), es.push(e).skip(1), h) =~= Seq::<(K, V)>::empty());
        assert(interleave(cs, es.push(e), h) == cs[0].cseq(h - 1) + seq![e] + interleave(
            cs.skip(1),
            es.push(e).skip(1),
            h,
        ));
        assert(interleave(cs, es.push(e), h) =~= interleave(cs, es, h) + seq![e]);
    } else {
        lemma_interleave_snoc_elem(cs.skip(1), es.skip(1), h, e);
        assert(es.push(e).skip(1) =~= es.skip(1).push(e));
        assert(es.push(e)[0] == es[0]);
        assert(interleave(cs, es.push(e), h) == cs[0].cseq(h - 1) + seq![es[0]] + interleave(
            cs.skip(1),
            es.skip(1).push(e),
            h,
        ));
        assert(interleave(cs, es, h) == cs[0].cseq(h - 1) + seq![es[0]] + interleave(
            cs.skip(1),
            es.skip(1),
            h,
        ));
        assert(interleave(cs, es.push(e), h) =~= interleave(cs, es, h) + seq![e]);
    }
}

/// Joining two node layouts around one separator concatenates their
/// subtree sequences around that element.
pub proof fn lemma_interleave_join<K: OrdSize, V>(
    acs: Seq<Child<K, V>>,
    aes: Seq<(K, V)>,
    bcs: Seq<Child<K, V>>,
    bes: Seq<(K, V)>,
    e: (K, V),
    h: int,
)
    requires
        h >= 1,
        acs.len() == aes.len() + 1,
        bcs.len() == bes.len() + 1,
    ensures
        interleave(acs + bcs, aes.push(e) + bes, h) == interleave(acs, aes, h) + seq![e]
            + interleave(bcs, bes, h),
    decreases acs.len(),
{
    let ccs = acs + bcs;
    let ces = aes.push(e) + bes;
    if aes.len() == 0 {
        assert(ccs[0] == acs[0]);
        assert(ces[0] == e);
        assert(ccs.skip(1) =~= bcs);
        assert(ces.skip(1) =~= bes);
        assert(interleave(ccs, ces, h) == ccs[0].cseq(h - 1) + seq![e] + interleave(bcs, bes, h));
        assert(interleave(acs, aes, h) == acs[0].cseq(h - 1));
        assert(interleave(ccs, ces, h) =~= interleave(acs, aes, h) + seq![e] + interleave(
            bcs,
            bes,
            h,
        ));
    } else {
        lemma_interleave_join(acs.skip(1), aes.skip(1), bcs, bes, e, h);
        assert(ccs[0] == acs[0]);
        assert(ces[0] == aes[0]);
        assert(ccs.skip(1) =~= acs.skip(1) + bcs);
        assert(ces.skip(1) =~= aes.skip(1).push(e) + bes);
        assert(interleave(ccs, ces, h) == ccs[0].cseq(h - 1) + seq![ces[0]] + interleave(
            acs.skip(1) + bcs,
            aes.skip(1).push(e) + bes,
            h,
        ));
        assert(interleave(acs, aes, h) == acs[0].cseq(h - 1) + seq![aes[0]] + interleave(
            acs.skip(1),
            aes.skip(1),
            h,
        ));
        assert(interleave(ccs, ces, h) =~= interleave(acs, aes, h) + seq![e] + interleave(
            bcs,
            bes,
            h,
        ));
    }
}


/// Exchanging a child swaps its size in the total.
pub proof fn lemma_children_weight_update<K: OrdSize, V>(
    cs: Seq<Child<K, V>>,
    i: int,
    c: Child<K, V>,
)
    requires
        0 <= i < cs.len(),
    ensures
        children_weight(cs.update(i, c)) == children_weight(cs) - cs[i].csize() + c.csize(),
{
    assert(cs.update(i, c) =~= cs.remove(i).insert(i, c));
    lemma_children_weight_remove(cs, i);
    lemma_children_weight_insert(cs.remove(i), i, c);
}

/// Two distinct children together weigh no more than the collection.
pub proof fn lemma_children_weight_two<K: OrdSize, V>(cs: Seq<Child<K, V>>, i: int, j: int)
    requires
        0 <= i < j < cs.len(),
    ensures
        cs[i].csize() + cs[j].csize() <= children_weight(cs),
{
    lemma_children_weight_take_le(cs, j);
    assert(cs.take(j)[i] == cs[i]);
    lemma_children_weight_elem_le(cs.take(j), i);
    assert(cs.skip(j)[0] == cs[j]);
    lemma_children_weight_elem_le(cs.skip(j), 0);
}

/// The element weight of a store is nonnegative under its invariant.
proof fn lemma_weight_sum_nonneg_of_inv<K: OrdSize, V>(e: NodeElements<K, V>)
    requires
        weights_pos(e.seq()),
    ensures
        weight_sum(e.seq()) >= 0,
{
    lemma_weight_sum_nonneg(e.seq());
}

/// Dropping the last element subtracts its weight.
proof fn lemma_weight_drop_last_facts<K: OrdSize, V>(s: Seq<(K, V)>)
    requires
        s.len() >= 1,
    ensures
        weight_sum(s.drop_last()) == weight_sum(s) - s.last().0.spec_size(),
{
    assert(s =~= s.drop_last().push(s.last()));
    super::model::lemma_weight_sum_push(s.drop_last(), s.last());
}

/// Dropping the last child subtracts its size.
proof fn lemma_children_weight_drop_last<K: OrdSize, V>(cs: Seq<Child<K, V>>)
    requires
        cs.len() >= 1,
    ensures
        children_weight(cs.drop_last()) == children_weight(cs) - cs.last().csize(),
{
    lemma_children_weight_remove(cs, cs.len() - 1);
    assert(cs.remove(cs.len() - 1) =~= cs.drop_last());
}

} // verus!
