use dstructs::{OrdBTree, OrdSizeOf, OrdSizeOne};

/// A small deterministic pseudo-random generator for shuffled workloads.
struct Lcg(u64);

impl Lcg {
    fn new(seed: u64) -> Self {
        Lcg(seed)
    }

    fn next(&mut self) -> u64 {
        self.0 = self.0.wrapping_mul(6364136223846793005).wrapping_add(1442695040888963407);
        self.0 >> 33
    }

    fn below(&mut self, n: u64) -> u64 {
        if n == 0 {
            0
        } else {
            self.next() % n
        }
    }
}

#[test]
fn empty_tree_basics() {
    let tree: OrdBTree<OrdSizeOne, u32> = OrdBTree::new();
    assert_eq!(tree.len(), 0);
    assert_eq!(tree.size(), 0);
    assert_eq!(tree.depth(), 1);
    assert!(tree.get(0).is_none());
}

#[test]
fn insert_and_get_unit_weights() {
    let mut tree: OrdBTree<OrdSizeOne, u64> = OrdBTree::new();
    for i in 0..100u64 {
        assert!(tree.insert(i as usize, OrdSizeOne, i * 10).is_ok());
        assert_eq!(tree.len(), (i + 1) as usize);
    }
    for i in 0..100usize {
        let (start, _k, v) = tree.get(i).expect("present");
        assert_eq!(start, i);
        assert_eq!(*v, (i as u64) * 10);
    }
    assert!(tree.get(100).is_none());
}

#[test]
fn misaligned_insert_is_rejected_with_pair_returned() {
    let mut tree: OrdBTree<OrdSizeOf, &str> = OrdBTree::new();
    assert!(tree.insert(0, OrdSizeOf(3), "wide").is_ok());
    // offsets 1 and 2 lie strictly inside the first element's range
    let rejected = tree.insert(1, OrdSizeOf(1), "inside");
    assert_eq!(rejected, Err((OrdSizeOf(1), "inside")));
    let rejected = tree.insert(2, OrdSizeOf(1), "inside");
    assert_eq!(rejected, Err((OrdSizeOf(1), "inside")));
    // past the end is rejected too
    let rejected = tree.insert(4, OrdSizeOf(1), "beyond");
    assert_eq!(rejected, Err((OrdSizeOf(1), "beyond")));
    assert_eq!(tree.len(), 1);
    // the end boundary itself is fine
    assert!(tree.insert(3, OrdSizeOf(2), "end").is_ok());
    assert_eq!(tree.len(), 2);
}

#[test]
fn misaligned_remove_returns_nothing() {
    let mut tree: OrdBTree<OrdSizeOf, u8> = OrdBTree::new();
    assert!(tree.insert(0, OrdSizeOf(2), 7).is_ok());
    assert!(tree.remove(1).is_none());
    assert!(tree.remove(2).is_none());
    assert_eq!(tree.len(), 1);
    assert_eq!(tree.remove(0), Some((OrdSizeOf(2), 7)));
    assert_eq!(tree.len(), 0);
}

// Inserts at recorded boundaries followed by `get` at every element's start
// offset return exactly what was inserted, also with mixed weights.
#[test]
fn get_at_recorded_start_offsets() {
    let mut tree: OrdBTree<OrdSizeOf, usize> = OrdBTree::new();
    let weights = [3usize, 1, 4, 1, 5, 9, 2, 6, 5, 3, 5, 8, 9, 7, 9, 3, 2, 3, 8, 4];
    let mut offset = 0usize;
    let mut starts = Vec::new();
    for (i, &w) in weights.iter().enumerate() {
        starts.push(offset);
        assert!(tree.insert(offset, OrdSizeOf(w), i).is_ok());
        offset += w;
    }
    assert_eq!(tree.size(), offset);
    for (i, &start) in starts.iter().enumerate() {
        let (s, k, v) = tree.get(start).expect("present");
        assert_eq!(s, start);
        assert_eq!(k.0, weights[i]);
        assert_eq!(*v, i);
    }
}

// Insert-then-remove at the same offset is a no-op on `len` and on every
// other element's relative order and value.
#[test]
fn insert_then_remove_round_trip() {
    let mut tree: OrdBTree<OrdSizeOf, u32> = OrdBTree::new();
    let mut offset = 0usize;
    for i in 0..50u32 {
        let w = 1 + (i as usize % 4);
        assert!(tree.insert(offset, OrdSizeOf(w), i).is_ok());
        offset += w;
    }
    let before: Vec<(usize, u32)> = {
        let mut it = tree.iter();
        let mut out = Vec::new();
        while let Some((k, v)) = it.next() {
            out.push((k.0, *v));
        }
        out
    };
    let len_before = tree.len();
    // a boundary in the middle: the start offset of element 20
    let mut mid = 0usize;
    for item in before.iter().take(20) {
        mid += item.0;
    }
    assert!(tree.insert(mid, OrdSizeOf(7), 999).is_ok());
    assert_eq!(tree.len(), len_before + 1);
    assert_eq!(tree.remove(mid), Some((OrdSizeOf(7), 999)));
    assert_eq!(tree.len(), len_before);
    let after: Vec<(usize, u32)> = {
        let mut it = tree.iter();
        let mut out = Vec::new();
        while let Some((k, v)) = it.next() {
            out.push((k.0, *v));
        }
        out
    };
    assert_eq!(before, after);
}

// Forward and reverse traversals yield exactly reversed sequences of the
// same pairs, and together exactly `len()` items.
#[test]
fn forward_and_reverse_iteration_mirror() {
    let mut tree: OrdBTree<OrdSizeOne, i64> = OrdBTree::new();
    for i in 0..200i64 {
        assert!(tree.insert(i as usize, OrdSizeOne, i * i).is_ok());
    }
    let forward: Vec<i64> = {
        let mut it = tree.iter();
        assert_eq!(it.len(), 200);
        let mut out = Vec::new();
        while let Some((_k, v)) = it.next() {
            out.push(*v);
        }
        out
    };
    let mut backward: Vec<i64> = {
        let mut it = tree.iter();
        let mut out = Vec::new();
        while let Some((_k, v)) = it.next_back() {
            out.push(*v);
        }
        out
    };
    assert_eq!(forward.len(), 200);
    assert_eq!(backward.len(), 200);
    backward.reverse();
    assert_eq!(forward, backward);

    // the two cursors may also be consumed alternately until they meet
    let mut it = tree.iter();
    let mut taken = 0usize;
    loop {
        let from_front = taken % 2 == 0;
        let item = if from_front { it.next() } else { it.next_back() };
        match item {
            Some(_) => taken += 1,
            None => break,
        }
    }
    assert_eq!(taken, 200);
}

// Scenario: 10,000 appended unit-weight elements; the tree reports them all
// in order, both through iteration and through every point lookup.
#[test]
fn ten_thousand_appends() {
    let mut tree: OrdBTree<OrdSizeOne, usize> = OrdBTree::new();
    for i in 0..10_000usize {
        assert!(tree.insert(i, OrdSizeOne, i).is_ok());
    }
    assert_eq!(tree.len(), 10_000);
    let mut it = tree.iter();
    let mut expect = 0usize;
    while let Some((_k, v)) = it.next() {
        assert_eq!(*v, expect);
        expect += 1;
    }
    assert_eq!(expect, 10_000);
    for i in 0..10_000usize {
        let (start, _k, v) = tree.get(i).expect("present");
        assert_eq!(start, i);
        assert_eq!(*v, i);
    }
}

// Scenario: 1024 unit-weight elements removed in a shuffled order; the
// count drops one at a time, the rest stay retrievable at shifted offsets,
// and the emptied tree equals a freshly constructed one.
#[test]
fn remove_all_in_shuffled_order() {
    let mut tree: OrdBTree<OrdSizeOne, u64> = OrdBTree::new();
    let n = 1024u64;
    for i in 0..n {
        assert!(tree.insert(i as usize, OrdSizeOne, i).is_ok());
    }
    let mut remaining: Vec<u64> = (0..n).collect();
    let mut rng = Lcg::new(0x5eed);
    while !remaining.is_empty() {
        let pick = rng.below(remaining.len() as u64) as usize;
        let expected_value = remaining.remove(pick);
        let len_before = tree.len();
        assert_eq!(tree.remove(pick), Some((OrdSizeOne, expected_value)));
        assert_eq!(tree.len(), len_before - 1);
        for (idx, &val) in remaining.iter().enumerate() {
            let (start, _k, v) = tree.get(idx).expect("still present");
            assert_eq!(start, idx);
            assert_eq!(*v, val);
        }
    }
    assert_eq!(tree.len(), 0);
    assert_eq!(tree.size(), 0);
    assert_eq!(tree.depth(), 1);
    assert!(tree.get(0).is_none());
}

// Scenario: one element of weight 2 at offset 0 answers lookups at offsets
// 0 and 1 with the same element, and nothing at offset 2.
#[test]
fn weight_two_element_spans_two_offsets() {
    let mut tree: OrdBTree<OrdSizeOf, &str> = OrdBTree::new();
    assert!(tree.insert(0, OrdSizeOf(2), "wide").is_ok());
    let (s0, k0, v0) = tree.get(0).expect("offset 0");
    assert_eq!((s0, k0.0, *v0), (0, 2, "wide"));
    let (s1, k1, v1) = tree.get(1).expect("offset 1");
    assert_eq!((s1, k1.0, *v1), (0, 2, "wide"));
    assert!(tree.get(2).is_none());
}

#[test]
fn shuffled_inserts_at_random_boundaries() {
    // insert at a random existing boundary each time, mirroring the tree
    // against a plain vector
    let mut tree: OrdBTree<OrdSizeOne, u64> = OrdBTree::new();
    let mut mirror: Vec<u64> = Vec::new();
    let mut rng = Lcg::new(42);
    for i in 0..2000u64 {
        let at = rng.below(mirror.len() as u64 + 1) as usize;
        assert!(tree.insert(at, OrdSizeOne, i).is_ok());
        mirror.insert(at, i);
    }
    assert_eq!(tree.len(), mirror.len());
    for (idx, &val) in mirror.iter().enumerate() {
        let (start, _k, v) = tree.get(idx).expect("present");
        assert_eq!(start, idx);
        assert_eq!(*v, val);
    }
}
