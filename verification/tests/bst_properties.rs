use std::cell::Cell;

use bst::bst::BST;

#[derive(Debug, Default)]
struct DropCounter(Cell<u64>);

impl DropCounter {
    fn new() -> Self {
        DropCounter(Cell::new(0))
    }

    fn add_one(&self) {
        self.0.set(self.0.get() + 1);
    }

    fn get_count(&self) -> u64 {
        self.0.get()
    }
}

#[derive(Debug)]
struct Td<'a> {
    dc: &'a DropCounter,
    id: u64,
}

impl<'a> Td<'a> {
    fn new<'b: 'a>(id: u64, dc: &'b DropCounter) -> Self {
        Td::<'b> { dc, id }
    }
}

impl<'a> Drop for Td<'a> {
    fn drop(&mut self) {
        self.dc.add_one();
    }
}

#[test]
fn test_scenario_mixed_inserts() {
    let mut bst: BST<u64> = Default::default();
    for k in [5u64, 3, 1, 4, 7, 6, 8] {
        assert!(bst.insert(k, k));
    }
    let mut keys: Vec<u64> = vec![];
    let mut it = bst.iter();
    while let Some((k, _v)) = it.next() {
        keys.push(k);
    }
    assert_eq!(keys, vec![1, 3, 4, 5, 6, 7, 8]);
    assert_eq!(true, bst.search(5));
    assert_eq!(false, bst.search(10));
}

#[test]
fn test_empty_tree() {
    let bst: BST<u64> = Default::default();
    assert_eq!(false, bst.search(0));
    assert_eq!(false, bst.search(17));
    assert_eq!(false, bst.search(u64::MAX));
    let mut n: u32 = 0;
    let mut it = bst.iter();
    while let Some(_) = it.next() {
        n += 1;
    }
    assert_eq!(0, n);
    let mut it = bst.into_iterator();
    let mut m: u32 = 0;
    while let Some(_) = it.next() {
        m += 1;
    }
    assert_eq!(0, m);
}

#[test]
fn test_drain_destroys_each_once() {
    let dc = DropCounter::new();
    {
        let mut bst: BST<Td> = Default::default();
        for k in [5u64, 3, 1, 4, 7, 6, 8] {
            bst.insert(k, Td::new(k, &dc));
        }
        let mut keys: Vec<u64> = vec![];
        let mut it = bst.into_iterator();
        while let Some((k, _v)) = it.next() {
            keys.push(k);
        }
        assert_eq!(keys, vec![1, 3, 4, 5, 6, 7, 8]);
        assert_eq!(7, dc.get_count());
    }
    assert_eq!(7, dc.get_count());
}

#[test]
fn test_duplicate_rejected_and_dropped() {
    let dc = DropCounter::new();
    let mut bst: BST<Td> = Default::default();
    assert!(bst.insert(5, Td::new(5, &dc)));
    assert!(!bst.insert(5, Td::new(5, &dc)));
    assert_eq!(1, dc.get_count());
    assert!(bst.search(5));
    drop(bst);
    assert_eq!(2, dc.get_count());
}

#[test]
fn test_deep_sorted_insertions_release() {
    let n: u64 = 20_000;
    let mut bst: BST<()> = Default::default();
    let mut k: u64 = 0;
    while k < n {
        assert!(bst.insert(k, ()));
        k += 1;
    }
    assert!(bst.search(n - 1));
    assert!(!bst.search(n));
    let mut it = bst.iter();
    if let Some((first, _v)) = it.next() {
        assert_eq!(0, first);
    } else {
        panic!("populated tree yielded nothing");
    }
    drop(bst);
}

#[test]
fn test_iter_mut_updates_payloads_only() {
    let mut bst: BST<u64> = Default::default();
    for k in [2u64, 1, 3] {
        bst.insert(k, k * 10);
    }
    let mut it = bst.iter_mut();
    while it.has_next() {
        let (_k, v) = it.next(&mut bst);
        *v += 1;
    }
    let mut pairs: Vec<(u64, u64)> = vec![];
    let mut it = bst.iter();
    while let Some((k, v)) = it.next() {
        pairs.push((k, *v));
    }
    assert_eq!(pairs, vec![(1, 11), (2, 21), (3, 31)]);
}

#[test]
fn test_remove_min_in_order() {
    let mut bst: BST<u64> = Default::default();
    for k in [5u64, 3, 1, 4] {
        bst.insert(k, k);
    }
    assert_eq!(Some((1, 1)), bst.remove_min());
    assert_eq!(Some((3, 3)), bst.remove_min());
    assert_eq!(Some((4, 4)), bst.remove_min());
    assert_eq!(Some((5, 5)), bst.remove_min());
    assert_eq!(None, bst.remove_min());
    assert_eq!(false, bst.search(1));
}

#[test]
fn test_membership_matches_distinct_inserts() {
    let mut bst: BST<u64> = Default::default();
    let inserted = [8u64, 2, 8, 6, 2, 4];
    for k in inserted {
        bst.insert(k, k);
    }
    for k in [2u64, 4, 6, 8] {
        assert!(bst.search(k));
    }
    for k in [0u64, 1, 3, 5, 7, 9, 100] {
        assert!(!bst.search(k));
    }
    let mut keys: Vec<u64> = vec![];
    let mut it = bst.iter();
    while let Some((k, _v)) = it.next() {
        keys.push(k);
    }
    assert_eq!(keys, vec![2, 4, 6, 8]);
}
