use std::cell::Cell;

use bst::bst::BST;

#[derive(Debug, Default)]
struct DropCounter(Cell<u64>);

impl DropCounter {
    fn new() -> Self {
        DropCounter(Cell::new(0))
    }

    fn add_one(&self) {
        self.0.set(self.0.get() + 1);
    }

    fn get_count(&self) -> u64 {
        self.0.get()
    }
}

#[derive(Debug)]
struct Td<'a> {
    dc: &'a DropCounter,
    id: u64,
}

impl<'a> Td<'a> {
    fn new<'b: 'a>(id: u64, dc: &'b DropCounter) -> Self {
        Td::<'b> { dc, id }
    }
}

impl<'a> Drop for Td<'a> {
    fn drop(&mut self) {
        self.dc.add_one();
    }
}

#[test]
fn test_bst() {}

#[test]
fn test_drop() {
    let dc = DropCounter::new();
    {
        let mut bst: BST<Td> = Default::default();
        bst.insert(5, Td::new(5, &dc));
        bst.insert(3, Td::new(3, &dc));
        bst.insert(1, Td::new(1, &dc));
        bst.insert(4, Td::new(4, &dc));
        bst.insert(7, Td::new(7, &dc));
        bst.insert(6, Td::new(6, &dc));
        bst.insert(8, Td::new(8, &dc));
    }
    assert_eq!(7, dc.get_count());

    let dc = DropCounter::new();
    {
        let mut bst: BST<Td> = Default::default();
        bst.insert(5, Td::new(5, &dc));
    }
    assert_eq!(1, dc.get_count());
}

#[test]
fn test_search() {
    let dc = DropCounter::new();
    {
        let mut bst: BST<Td> = Default::default();
        bst.insert(5, Td::new(5, &dc));
        bst.insert(3, Td::new(3, &dc));
        bst.insert(1, Td::new(1, &dc));
        bst.insert(4, Td::new(4, &dc));
        bst.insert(7, Td::new(7, &dc));
        bst.insert(6, Td::new(6, &dc));
        bst.insert(8, Td::new(8, &dc));

        assert_eq!(true, bst.search(5));
        assert_eq!(false, bst.search(10));

        let bst: BST<u32> = Default::default();
        assert_eq!(false, bst.search(3));
    }
}

#[test]
fn test_iter() {
    let mut bst: BST<i32> = Default::default();
    bst.insert(5, 5);
    bst.insert(3, 3);
    bst.insert(1, 1);
    bst.insert(4, 4);
    bst.insert(7, 7);
    bst.insert(6, 6);
    bst.insert(8, 8);

    let a = vec![1, 3, 4, 5, 6, 7, 8];

    let mut b: Vec<i32> = vec![];
    let mut it = bst.iter();
    while let Some((_k, v)) = it.next() {
        b.push(*v);
    }
    assert_eq!(a, b);

    let mut c = vec![];
    for t in &b {
        c.push(*t);
    }
    assert_eq!(a, c);

    let mut b: Vec<i32> = vec![];
    let mut it = bst.iter_mut();
    while it.has_next() {
        let (_k, v) = it.next(&mut bst);
        b.push(*v);
    }
    assert_eq!(a, b);

    let mut c = vec![];
    for t in &mut b {
        *t += 1;
    }
    for t in &b {
        c.push(*t);
    }
    let d: Vec<i32> = a.clone().into_iter().map(|t| t + 1).collect();
    assert_eq!(c, d);

    let mut b: Vec<i32> = vec![];
    let mut it = bst.into_iterator();
    while let Some((_k, v)) = it.next() {
        b.push(v);
    }
    assert_eq!(a, b);

    let bst: BST<i32> = Default::default();
    let mut it = bst.iter();
    let mut n: u32 = 0;
    while let Some(_) = it.next() {
        n += 1;
    }
    assert_eq!(0, n);
}
