use kyopro_lib::iterext::{cartesian_product, IterExt};

#[test]
fn partial_sum_test() {
    let a = vec![1, 10, 100, 1000, 10000];
    let n = a.len();
    let mut ps = a.partial_sum(0, |x, y| x + y);
    assert_eq!(ps.size_hint(), (n + 1, Some(n + 1)));
    let mut out = vec![];
    while let Some(x) = ps.next() {
        out.push(x);
    }
    assert_eq!(out, vec![0, 1, 11, 111, 1111, 11111]);
}

#[test]
fn adjacent_difference_test() {
    let a = vec![3, 1, 4, 1, 5, 9, 2];
    let n = a.len();
    let mut ad = a.adjacent_difference(|x, y| x - y);
    assert_eq!(ad.size_hint(), (n - 1, Some(n - 1)));
    let mut out = vec![];
    while let Some(x) = ad.next() {
        out.push(x);
    }
    assert_eq!(out, vec![2, -3, 3, -4, -4, 7]);
}

#[test]
fn inner_product_test() {
    let a = vec![1, 10, 3, 1000, 5];
    let b = vec![1, 2, 100, 4, 10000];
    let ip = a.iter().collect::<Vec<_>>().inner_product(b, 0, |x, y| x * y, |x, y| x + y);
    assert_eq!(ip, 54321);
}

#[test]
fn cartesian_product_test() {
    let a = vec![1, 2, 3];
    let b = "abcd";
    let mut rest = a.len() * b.len();
    let mut cp = cartesian_product(a.iter().collect(), b.bytes().collect());
    for x in &a {
        for y in b.bytes() {
            assert_eq!(cp.size_hint(), (rest, Some(rest)));
            assert_eq!(cp.next(), Some((x, y)));
            rest -= 1;
        }
    }
    assert_eq!(cp.size_hint(), (0, Some(0)));
    assert_eq!(cp.next(), None);
}
