use kyopro_lib::data_structure::fenwick_tree::FenwickTree;
use kyopro_lib::data_structure::wavelet_matrix::WaveletMatrix;
use kyopro_lib::random::pcg::Pcg;
use kyopro_lib::random::RngCore;

#[test]
fn fenwick_tree_add() {
    const N: usize = 20;
    let mut rand = Pcg::seed_from_u64(11922960);
    let mut ft = FenwickTree::new(N, || 0, |x, y| x + y);
    let mut a = vec![0; N];
    for i in 0..30 {
        if i % 3 == 0 {
            let r = rand.next_u32() as usize % (N + 1);
            let asum: u32 = a[..r].iter().sum();
            let ftsum = ft.sum(r);
            assert_eq!(asum, ftsum);
        } else if i == 20 {
            ft.reset();
            for v in &mut a {
                *v = 0;
            }
        } else {
            let i = rand.next_u32() as usize % N;
            let x = rand.next_u32() >> 5;
            ft.add(i, x);
            a[i] += x;
        }
    }
}

#[test]
fn wavelet_matrix_rank() {
    const N: usize = 1000;
    const K: usize = 50;
    let mut rand = Pcg::seed_from_u64(1352);
    let values: Vec<u32> = std::iter::repeat_with(|| rand.next_u32()).take(K).collect();
    let mut cnt = [0; 100];
    let a: Vec<u32> = std::iter::repeat_with(|| {
        let i = rand.next_u32() as usize % K;
        cnt[i] += 1;
        values[i]
    })
    .take(N)
    .collect();
    let wm = WaveletMatrix::new(a);
    for i in 0..K {
        assert_eq!(wm.rank(0, N, values[i]), cnt[i]);
    }
}

#[test]
fn wavelet_matrix_quantile() {
    let a: Vec<u32> = vec![5, 1, 4, 1, 5, 9, 2, 6, 5, 3];
    let wm = WaveletMatrix::new(a.clone());
    for l in 0..a.len() {
        for r in l + 1..=a.len() {
            let mut s = a[l..r].to_vec();
            s.sort();
            for k in 0..r - l {
                assert_eq!(wm.quantile(l, r, k), s[k]);
            }
            assert_eq!(wm.rank(l, r, 5), a[l..r].iter().filter(|&&x| x == 5).count());
        }
    }
    let empty = WaveletMatrix::new(Vec::new());
    assert_eq!(empty.rank(0, 0, 7), 0);
}

use kyopro_lib::data_structure::splay_tree::SplayTreeMap;

#[test]
fn splay_tree_insert_get() {
    let mut m: SplayTreeMap<i64, u32> = SplayTreeMap::new();
    assert_eq!(m.get(&5), None);
    let keys: Vec<i64> = vec![50, 20, 80, 10, 30, 70, 90, 25, 35, 5, -3];
    for (i, &k) in keys.iter().enumerate() {
        m.insert(k, i as u32);
    }
    for (i, &k) in keys.iter().enumerate() {
        assert_eq!(m.get(&k), Some(&(i as u32)));
    }
    assert_eq!(m.get(&0), None);
    assert_eq!(m.get(&100), None);
    m.insert(30, 99);
    assert_eq!(m.get(&30), Some(&99));
    assert_eq!(m.get(&25), Some(&7));
}

#[test]
fn splay_tree_against_vec() {
    let mut rand = Pcg::seed_from_u64(77);
    let mut m: SplayTreeMap<u32, u32> = SplayTreeMap::new();
    let mut a: Vec<Option<u32>> = vec![None; 64];
    for i in 0..500u32 {
        let k = rand.next_u32() % 64;
        if rand.next_u32() % 2 == 0 {
            m.insert(k, i);
            a[k as usize] = Some(i);
        } else {
            assert_eq!(m.get(&k).copied(), a[k as usize]);
        }
    }
}

use kyopro_lib::data_structure::lazy_seg_tree::LazySegTree;
use kyopro_lib::data_structure::monoid::{Max, Sum};
use kyopro_lib::data_structure::segment_tree::SegmentTree;
use kyopro_lib::data_structure::sparse_table::SparseTable;

#[test]
fn sparse_table() {
    const N: usize = 19;
    let mut rand = Pcg::seed_from_u64(11922960);
    let a: Vec<u32> = (0..N).map(|_| rand.next_u32()).collect();
    let st = SparseTable::new(a.clone());
    for _ in 0..20 {
        let l = rand.next_u32() as usize % N;
        let r = l + rand.next_u32() as usize % (N - l) + 1;
        let min = a[l..r].iter().min().unwrap();
        assert_eq!(st.min(l, r), min);
    }
}

#[test]
fn seg_tree_max() {
    const N: usize = 20;
    let mut rand = Pcg::seed_from_u64(8181);
    let mut a: Vec<u32> = (0..N).map(|_| rand.next_u32()).collect();
    let mut st = SegmentTree::from_vec(a.iter().map(|&x| Max(x)).collect());
    for i in 0..30 {
        if i % 3 == 0 {
            let l = rand.next_u32() as usize % N;
            let r = l + rand.next_u32() as usize % (N - l) + 1;
            let stmax = st.prod(l, r);
            let amax = *a[l..r].iter().max().unwrap();
            assert_eq!(stmax.0, amax);
        } else {
            let i = rand.next_u32() as usize % N;
            let x = rand.next_u32();
            if i % 3 == 1 {
                st.set(i, Max(x));
                a[i] = x;
            } else {
                st.update(i, &Max(x));
                a[i] = a[i].max(x);
            }
        }
    }
}

#[test]
fn lazy_seg_tree_range_add_range_max() {
    const N: usize = 20;
    let mut rand = Pcg::seed_from_u64(1818);
    let mut lst = LazySegTree::new(N, |f: &Sum, s: &Max| Max(s.0.wrapping_add(f.0)));
    let mut a = vec![0u32; N];
    for i in 0..30 {
        if i % 3 == 0 {
            let l = rand.next_u32() as usize % N;
            let r = l + rand.next_u32() as usize % (N - l) + 1;
            let stmax = lst.prod(l, r);
            let amax = *a[l..r].iter().max().unwrap();
            assert_eq!(stmax.0, amax);
        } else {
            let l = rand.next_u32() as usize % N;
            let r = l + rand.next_u32() as usize % (N - l) + 1;
            let x = rand.next_u32() / N as u32;
            lst.apply(l, r, &Sum(x));
            for a in &mut a[l..r] {
                *a += x;
            }
        }
    }
}

#[test]
fn lazy_seg_tree_from_slice() {
    let a: Vec<Max> = [3u32, 1, 4, 1, 5, 9, 2].iter().map(|&x| Max(x)).collect();
    let mut t = LazySegTree::from_slice(&a, |f: &Sum, s: &Max| Max(s.0.wrapping_add(f.0)));
    assert_eq!(t.prod(0, 7).0, 9);
    assert_eq!(t.prod(1, 4).0, 4);
    t.apply(0, 3, &Sum(10));
    assert_eq!(t.prod(0, 2).0, 13);
    assert_eq!(t.prod(3, 5).0, 5);
    t.set(5, Max(0));
    assert_eq!(t.prod(3, 7).0, 5);
    assert_eq!(t.prod(2, 2).0, 0);
}
