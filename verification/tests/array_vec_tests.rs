use kyopro_lib::other::array_vec::ArrayVec;

#[test]
fn array_vec_test() {
    let mut a = ArrayVec::<i32, 3>::new();
    assert_eq!(a.push(10), None);
    assert_eq!(a.as_slice(), [10]);
    assert_eq!(a.push(20), None);
    assert_eq!(a.as_slice(), [10, 20]);
    assert_eq!(a.push(30), None);
    assert_eq!(a.as_slice(), [10, 20, 30]);
    assert_eq!(a.push(40), Some(40));
    assert_eq!(a.as_slice(), [10, 20, 30]);
}

#[test]
fn insert() {}

#[test]
fn dedup() {
    let mut a = ArrayVec::<i32, 20>::new();
    for x in [1, 1, 2, 3, 3, 3, 4, 5, 5, 5] {
        a.push(x);
    }
    a.dedup();
    assert_eq!(a.as_slice(), [1, 2, 3, 4, 5]);
}

#[test]
fn into_iter() {
    let mut a = ArrayVec::<i32, 10>::new();
    for x in 0..5 {
        a.push(x);
    }
    let mut it = a.into_iter();
    assert_eq!(it.next_back(), Some(4));
    let mut firsts = vec![];
    for _ in 0..3 {
        firsts.push(it.next().unwrap());
    }
    assert_eq!(firsts, vec![0, 1, 2]);
}

#[test]
fn array_vec_insert_remove_pop() {
    let mut a = ArrayVec::<i32, 8>::new();
    for x in 1..=5 {
        a.push(x);
    }
    a.insert(2, 10);
    assert_eq!(a.as_slice(), [1, 2, 10, 3, 4, 5]);
    assert_eq!(a.remove(0), 1);
    assert_eq!(a.pop(), Some(5));
    assert_eq!(a.as_slice(), [2, 10, 3, 4]);
    a.truncate(2);
    assert_eq!(a.as_slice(), [2, 10]);
    a.clear();
    assert!(a.is_empty());
    assert_eq!(a.pop(), None);
}

#[test]
fn array_vec_retain_and_drain() {
    let mut a = ArrayVec::<i32, 10>::new();
    for x in [3, 1, 4, 1, 5, 9, 2, 6, 5] {
        a.push(x);
    }
    a.retain(|x| *x <= 2);
    assert_eq!(a.as_slice(), [1, 1, 2]);
    let mut b = ArrayVec::<i32, 13>::new();
    for x in 0..10 {
        b.push(x);
    }
    let mut d = b.drain(3, 8);
    assert_eq!(d.next(), Some(3));
    assert_eq!(d.next(), Some(4));
    assert_eq!(b.as_slice(), [0, 1, 2, 8, 9]);
}

struct S<'a, T: Copy>(T, &'a std::cell::RefCell<Vec<T>>);

impl<'a, T: Copy> Drop for S<'a, T> {
    fn drop(&mut self) {
        self.1.borrow_mut().push(self.0);
    }
}

#[test]
fn drop_test() {
    let dropped = std::cell::RefCell::new(vec![]);
    let mut a: ArrayVec<_, 10> = ArrayVec::new();
    for x in 1..=5 {
        assert!(a.push(S(x, &dropped)).is_none());
    }
    drop(a);
    assert_eq!(dropped.borrow()[..], [1, 2, 3, 4, 5]);
}

#[test]
fn retain() {
    let dropped = std::cell::RefCell::new(vec![]);
    let b = vec![3, 1, 4, 1, 5, 9, 2, 6, 5];
    let mut a: ArrayVec<_, 10> = ArrayVec::new();
    for x in b {
        assert!(a.push(S(x, &dropped)).is_none());
    }
    a.retain(|S(x, _)| *x <= 2);
    assert_eq!(dropped.borrow()[..], [3, 4, 5, 9, 6, 5]);
    assert!(a.as_slice().iter().map(|S(x, _)| *x).eq(vec![1, 1, 2]));
}

#[test]
fn drain() {
    let dropped = std::cell::RefCell::new(vec![]);
    let mut a: ArrayVec<_, 13> = ArrayVec::new();
    for x in 0..10 {
        assert!(a.push(S(x, &dropped)).is_none());
    }
    let mut d = a.drain(3, 8);
    assert_eq!(d.next().map(|s| s.0), Some(3));
    assert_eq!(d.next().map(|s| s.0), Some(4));
    assert_eq!(d.next().map(|s| s.0), Some(5));
    assert_eq!(dropped.borrow()[..], [3, 4, 5]);
    drop(d);
    assert_eq!(dropped.borrow()[..], [3, 4, 5, 6, 7]);
    assert!(a.as_slice().iter().map(|S(x, _)| *x).eq(vec![0, 1, 2, 8, 9]));

    let mut a: ArrayVec<_, 13> = ArrayVec::new();
    a.push(0);
    a.push(1);
    let len = a.len();
    let mut d = a.drain(0, len);
    assert_eq!(d.next(), Some(0));
    assert_eq!(d.next(), Some(1));
    assert_eq!(d.next(), None);
    assert_eq!(d.next(), None);
}

#[test]
fn array_vec_dedup_by_key() {
    let mut a = ArrayVec::<i32, 8>::new();
    for x in [1, 3, 5, 2, 4, 7, 9, 6] {
        a.push(x);
    }
    a.dedup_by_key(|x| *x % 2);
    assert_eq!(a.as_slice(), [1, 2, 7]);
}

#[test]
fn array_vec_compaction_keeps_only_closed_runs() {
    let mut a = ArrayVec::<i32, 8>::new();
    for x in [1, 2, 3] {
        a.push(x);
    }
    a.dedup();
    assert!(a.is_empty());
    let mut b = ArrayVec::<i32, 8>::new();
    for x in [1, 2, 2, 3, 4] {
        b.push(x);
    }
    b.dedup();
    assert_eq!(b.as_slice(), [1, 2]);
    let mut c = ArrayVec::<i32, 8>::new();
    for x in [1, 5, 2, 7, 3] {
        c.push(x);
    }
    c.retain(|x| *x <= 3);
    assert_eq!(c.as_slice(), [1, 2]);
    let mut d = ArrayVec::<i32, 8>::new();
    for x in [1, 1, 2, 3] {
        d.push(x);
    }
    d.dedup_by(|x, y| x == y);
    assert_eq!(d.as_slice(), [1]);
}
