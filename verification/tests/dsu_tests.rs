use kyopro_lib::data_structure::dsu::{Dsu, DsuWithData};
use std::cell::Cell;
use std::rc::Rc;

#[test]
fn dsu_unite_and_size() {
    let mut d = Dsu::new(6);
    assert!(!d.is_same(0, 1));
    assert_eq!(d.unite(0, 1), (0, 1));
    assert_eq!(d.unite(2, 3), (2, 3));
    assert_eq!(d.unite(1, 3), (0, 2));
    assert!(d.is_same(1, 2));
    assert!(!d.is_same(1, 4));
    assert_eq!(d.size(3), 4);
    assert_eq!(d.size(5), 1);
    assert_eq!(d.unite(3, 0), (0, 0));
    assert_eq!(d.unite(5, 0), (0, 5));
    assert!(d.is_root(0));
    assert!(!d.is_root(5));
    assert_eq!(d.root(5), 0);
}

#[test]
fn dsu_with_data_sum() {
    let mut d = DsuWithData::from_vec(vec![1i64, 2, 3, 4]);
    d.unite(0, 1, |a, b| a + b);
    d.unite(2, 3, |a, b| a + b);
    assert_eq!(*d.get(1), 3);
    assert_eq!(*d.get(3), 7);
    d.unite(1, 2, |a, b| a + b);
    assert_eq!(*d.get(3), 10);
    assert_eq!(d.size(0), 4);
    assert!(d.is_same(0, 3));
    assert_eq!(d.root(3), 0);
    assert!(d.is_root(0));
}

struct S(i32, Rc<Cell<i32>>);

impl Drop for S {
    fn drop(&mut self) {
        let x = self.1.get();
        self.1.set(x - self.0);
    }
}

#[test]
fn dsu_with_data_drop() {
    let n = 23;
    let cnt = Rc::new(Cell::new(n * (n + 1) / 2));
    let mut dsu = DsuWithData::from_vec((1..=n).map(|i| S(i, cnt.clone())).collect());
    for i in 0..n as usize / 3 {
        dsu.unite(i, i * i % n as usize, |mut s: S, t: S| {
            s.0 += t.0;
            std::mem::forget(t);
            s
        });
    }
    drop(dsu);
    assert_eq!(cnt.get(), 0);
}
