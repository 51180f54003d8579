use dstructs::groups::{Identity, Invertibillity, Magma, NumAdditiveGroups};
use dstructs::{FenwickTree, MaxHeap, MinHeap, SegmentTree, UnionFind};
use std::cmp::Reverse;

#[test]
fn additive_groups_behave() {
    let g: NumAdditiveGroups<i64> = NumAdditiveGroups::new();
    assert_eq!(g.add(&3, &4), 7);
    assert_eq!(g.id(), 0);
    assert_eq!(g.inv(&5), -5);
    assert_eq!(g.sub(&10, &4), 6);

    let gu: NumAdditiveGroups<u64> = NumAdditiveGroups::new();
    assert_eq!(gu.add(&u64::MAX, &2), 1);
    assert_eq!(gu.sub(&0, &1), u64::MAX);

    let gi: NumAdditiveGroups<i32> = NumAdditiveGroups::new();
    assert_eq!(gi.add(&i32::MAX, &1), i32::MIN);
}

#[test]
fn fenwick_prefix_sums() {
    let mut ft: FenwickTree<NumAdditiveGroups<i64>> = FenwickTree::new(NumAdditiveGroups::new());
    assert_eq!(ft.len(), 0);
    for x in 1..=16i64 {
        ft.push(x);
    }
    assert_eq!(ft.len(), 16);
    for k in 0..=16usize {
        let expect: i64 = (1..=k as i64).sum();
        assert_eq!(ft.prefix_sum(k), expect);
    }
    ft.update_add(2, 100);
    assert_eq!(ft.prefix_sum(2), 3);
    assert_eq!(ft.prefix_sum(3), 106);
    assert_eq!(ft.prefix_sum(16), 136 + 100);
    assert_eq!(ft.get(2), 103);
    assert_eq!(ft.get(3), 4);
    ft.update_set(2, 3);
    assert_eq!(ft.get(2), 3);
    assert_eq!(ft.prefix_sum(16), 136);
    ft.pop();
    assert_eq!(ft.len(), 15);
    assert_eq!(ft.prefix_sum(15), 120);
}

#[test]
fn fenwick_push_id_and_resize() {
    let mut ft: FenwickTree<NumAdditiveGroups<i64>> = FenwickTree::new(NumAdditiveGroups::new());
    ft.reserve(8);
    ft.push(5);
    ft.push_id();
    assert_eq!(ft.len(), 2);
    assert_eq!(ft.get(1), 0);
    assert_eq!(ft.prefix_sum(2), 5);
    ft.resize_id(5);
    assert_eq!(ft.len(), 5);
    assert_eq!(ft.prefix_sum(5), 5);
    ft.resize(7, 2);
    assert_eq!(ft.len(), 7);
    assert_eq!(ft.prefix_sum(7), 9);
    ft.resize(1, 9);
    assert_eq!(ft.len(), 1);
    assert_eq!(ft.prefix_sum(1), 5);
    assert!(ft.capacity() >= ft.len());
    let mut big: FenwickTree<NumAdditiveGroups<i64>> =
        FenwickTree::with_capacity(NumAdditiveGroups::new(), 32);
    big.push(1);
    assert_eq!(big.prefix_sum(1), 1);
}

#[test]
fn segment_tree_sums_and_updates() {
    let mut st: SegmentTree<NumAdditiveGroups<i64>> =
        SegmentTree::new(NumAdditiveGroups::new(), 10);
    assert_eq!(st.len(), 10);
    assert_eq!(st.sum(0, 10), 0);
    let values: Vec<i64> = vec![3, 1, 4, 1, 5, 9, 2, 6, 5, 3];
    st.build(values.clone());
    for l in 0..=10usize {
        for r in l..=10usize {
            let expect: i64 = values[l..r].iter().sum();
            assert_eq!(st.sum(l, r), expect, "sum of {l}..{r}");
        }
    }
    assert_eq!(*st.get(4), 5);
    st.update(4, 50);
    assert_eq!(*st.get(4), 50);
    assert_eq!(st.sum(0, 10), 39 - 5 + 50);
    assert_eq!(st.sum(4, 5), 50);
}

#[test]
fn segment_tree_partial_build() {
    let mut st: SegmentTree<NumAdditiveGroups<i64>> =
        SegmentTree::new(NumAdditiveGroups::new(), 4);
    st.build(vec![7, 8]);
    assert_eq!(st.sum(0, 4), 15);
    assert_eq!(st.sum(2, 4), 0);
}

#[test]
fn union_find_partitions() {
    let mut uf = UnionFind::new(10);
    assert_eq!(uf.len(), 10);
    for i in 0..10 {
        assert!(uf.is_root(i));
        assert_eq!(uf.size(i), Some(1));
    }
    assert!(uf.union(1, 2));
    assert!(uf.union(3, 4));
    assert!(uf.union(1, 4));
    assert!(!uf.union(2, 3));
    let r = uf.find(1);
    assert_eq!(uf.find(2), r);
    assert_eq!(uf.find(3), r);
    assert_eq!(uf.find(4), r);
    assert!(uf.is_root(r));
    assert_eq!(uf.size(r), Some(4));
    assert_eq!(uf.size_find(3), 4);
    assert_eq!(uf.size_unchecked(r), 4);
    assert_ne!(uf.find(0), r);

    uf.increase_size(3);
    assert_eq!(uf.len(), 13);
    assert!(uf.is_root(12));
    assert_eq!(uf.size(12), Some(0));
    assert_eq!(uf.find(2), r);
    assert!(uf.union(12, 0));
}

#[test]
fn max_heap_orders_elements() {
    let mut heap: MaxHeap<u64> = MaxHeap::new();
    assert_eq!(heap.len(), 0);
    assert!(heap.peek().is_none());
    assert!(heap.pop().is_none());
    let values = [5u64, 1, 9, 3, 9, 7, 0, 2, 8, 6, 4];
    for &v in values.iter() {
        heap.push(v);
    }
    assert_eq!(heap.len(), values.len());
    assert_eq!(heap.peek(), Some(&9));
    let mut drained = Vec::new();
    while let Some(v) = heap.pop() {
        drained.push(v);
    }
    assert_eq!(drained, vec![9, 9, 8, 7, 6, 5, 4, 3, 2, 1, 0]);
    assert_eq!(heap.len(), 0);

    let mut small: MaxHeap<i32> = MaxHeap::with_capacity(4);
    small.reserve(4);
    small.push(-3);
    assert_eq!(small.pop(), Some(-3));
    assert!(small.pop().is_none());
}

#[test]
fn min_heap_orders_elements() {
    let mut heap: MinHeap<u32> = MaxHeap::new();
    for v in [4u32, 1, 3, 2] {
        heap.push(Reverse(v));
    }
    assert_eq!(heap.peek(), Some(&Reverse(1)));
    assert_eq!(heap.pop(), Some(Reverse(1)));
    assert_eq!(heap.pop(), Some(Reverse(2)));
    assert_eq!(heap.pop(), Some(Reverse(3)));
    assert_eq!(heap.pop(), Some(Reverse(4)));
    assert_eq!(heap.pop(), None);
}
