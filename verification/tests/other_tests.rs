use kyopro_lib::data_structure::sparse_table::SparseTable;
use kyopro_lib::legacy::dft::{convolution, dft};
use kyopro_lib::legacy::hash::murmur3_32;
use kyopro_lib::number::rational::Rational;
use kyopro_lib::other::merge::merge;
use kyopro_lib::other::zeta;
use kyopro_lib::other::rect_array::RectArray;
use kyopro_lib::legacy::f2::elimination_f2;
use kyopro_lib::legacy::number::gcd;
use kyopro_lib::other::square_mat::SquareMat;
use kyopro_lib::number_theory::number_theory::mod_sqrt;

#[test]
fn zeta_superset() {
    let a = vec![3i32, 1, 4, 1, 5, 9, 2, 6];
    let mut zeta = a.clone();
    zeta::zeta_superset(&mut zeta, 3, |x, y| x + y);
    let mut naive = vec![0; 8];
    for s in 0..1 << 3 {
        for t in 0..1 << 3 {
            if s | t == t {
                naive[s] += a[t];
            }
        }
    }
    assert_eq!(zeta, naive);
}

#[test]
fn merge_sorted() {
    let mut m = merge(vec![1, 3, 5, 7], vec![2, 3, 4, 8, 9]);
    assert_eq!(m.size_hint(), (9, Some(9)));
    let mut out = vec![];
    while let Some(x) = m.next() {
        out.push(x);
    }
    assert_eq!(out, vec![1, 2, 3, 3, 4, 5, 7, 8, 9]);
}

#[test]
fn rational_arithmetic() {
    let a = Rational::new(6, -4);
    assert_eq!(a, Rational::new(-3, 2));
    assert_eq!(a.inv(), Rational::new(-2, 3));
    let b = Rational::from_int(2);
    assert_eq!(a.plus(b), Rational::new(1, 2));
    assert_eq!(a.times(b), Rational::from_int(-3));
    assert!(a.less(b));
    assert!(!b.less(a));
    assert_eq!(Rational::new(0, 5), Rational::new(0, 1));
    assert_eq!(a.negate(), Rational::new(3, 2));
}

#[test]
fn murmur_hash_known_value() {
    assert_eq!(murmur3_32(b"", 0), 0);
    assert_eq!(murmur3_32(b"", 1), 0x514E28B7);
    assert_eq!(murmur3_32(b"test", 0), 0xba6bd213);
}

#[test]
fn ntt_roundtrip_and_convolution() {
    let orig = vec![1i64, 2, 3, 4, 0, 0, 0, 0];
    let mut a = orig.clone();
    dft(&mut a, false);
    dft(&mut a, true);
    assert_eq!(a, orig);
    let mut x = vec![1i64, 2, 3];
    let mut y = vec![4i64, 5];
    convolution(&mut x, &mut y);
    assert_eq!(x, vec![4, 13, 22, 15]);
}

#[test]
fn sparse_table_min() {
    let a = vec![5u32, 3, 8, 6, 1, 9, 2, 7];
    let st = SparseTable::new(a.clone());
    assert_eq!(st.len(), 8);
    for l in 0..8 {
        for r in l + 1..=8 {
            assert_eq!(*st.min(l, r), *a[l..r].iter().min().unwrap());
        }
    }
}

use kyopro_lib::number_theory::bm::berlekamp_massey;

#[test]
fn berlekamp_massey_fibonacci() {
    let m = 998244353i64;
    let a = vec![1i64, 1, 2, 3, 5, 8, 13, 21, 34, 55];
    assert_eq!(berlekamp_massey(&a, m), vec![1, m - 1, m - 1]);
}

#[test]
fn berlekamp_massey_geometric() {
    let m = 1000000007i64 % 0x8000_0000;
    let a = vec![3i64, 6, 12, 24, 48, 96];
    assert_eq!(berlekamp_massey(&a, 998244353), vec![1, 998244353 - 2]);
    let z = vec![0i64; 5];
    assert_eq!(berlekamp_massey(&z, 7), vec![1]);
    let _ = m;
}

use kyopro_lib::legacy::matrix::{SquareMatrix, MOD, N};

#[test]
fn legacy_square_matrix_basics() {
    let z = SquareMatrix::zeros();
    let i = SquareMatrix::id();
    assert_eq!(z.get(3, 4), 0);
    assert_eq!(i.get(7, 7), 1);
    assert_eq!(i.get(7, 8), 0);
    let mut a = SquareMatrix::id();
    a.set(0, 1, MOD - 1);
    let s = a.add(&i);
    assert_eq!(s.get(0, 0), 2);
    assert_eq!(s.get(0, 1), MOD - 1);
    assert_eq!(s.get(N - 1, N - 1), 2);
}

#[test]
fn legacy_square_matrix_det_inv() {
    let mut a = SquareMatrix::id();
    a.set(0, 0, 3);
    a.set(1, 1, 5);
    a.set(0, 1, 7);
    let mut b = SquareMatrix::id();
    b.set(0, 0, 3);
    b.set(1, 1, 5);
    b.set(0, 1, 7);
    assert_eq!(b.det(), 15);
    let inv = a.inv().unwrap();
    // the 2 by 2 block [[3, 7], [0, 5]] has inverse [[1/3, -7/15], [0, 1/5]]
    let inv3 = 332748118i64;
    let inv5 = 598946612i64;
    assert_eq!(inv.get(0, 0), inv3);
    assert_eq!(inv.get(1, 1), inv5);
    assert_eq!(inv.get(0, 1), (MOD - 7 * inv3 % MOD * inv5 % MOD) % MOD);
    assert_eq!(inv.get(2, 2), 1);
    assert!(SquareMatrix::zeros().inv().is_none());
}

use kyopro_lib::geometory::{argument_sort, farthest_pair, graham_scan};

#[test]
fn argument_sort_order() {
    let mut pts = vec![(1, 0), (0, 1), (-1, 0), (0, -1), (1, 1), (-1, -1), (2, 0), (0, 0), (-2, 3)];
    argument_sort(&mut pts);
    assert_eq!(pts, vec![(-1, -1), (0, -1), (2, 0), (1, 0), (0, 0), (1, 1), (0, 1), (-2, 3), (-1, 0)]);
}

#[test]
fn convex_hull_and_farthest() {
    let ps = [[0i64, 0], [2, 0], [2, 2], [0, 2], [1, 1], [1, 0]];
    assert_eq!(graham_scan(&ps), vec![0, 5, 1, 2, 3]);
    assert_eq!(farthest_pair(&ps), (0, 2));
    assert_eq!(farthest_pair(&[[5i64, 5]]), (0, 0));
}

use kyopro_lib::number_theory::number_theory::primes;

#[test]
fn primes_small_and_sieve() {
    assert_eq!(primes(0), Vec::<usize>::new());
    assert_eq!(primes(1), Vec::<usize>::new());
    assert_eq!(primes(2), vec![2]);
    assert_eq!(primes(4), vec![2, 3]);
    assert_eq!(primes(5), vec![2, 3, 5]);
    assert_eq!(primes(50), vec![2, 3, 5, 7, 11, 13, 17, 19, 23, 29, 31, 37, 41, 43, 47]);
    let ps = primes(100000);
    assert_eq!(ps.len(), 9592);
    let mut is = vec![true; 100001];
    let mut naive = Vec::new();
    for i in 2..=100000usize {
        if is[i] {
            naive.push(i);
            let mut j = i * i;
            while j <= 100000 {
                is[j] = false;
                j += i;
            }
        }
    }
    assert_eq!(ps, naive);
}

struct Dropped<'a, T: Copy>(T, &'a std::cell::RefCell<Vec<T>>);

impl<'a, T: Copy> Drop for Dropped<'a, T> {
    fn drop(&mut self) {
        self.1.borrow_mut().push(self.0);
    }
}

#[test]
fn pop() {
    let d = std::cell::RefCell::new(vec![]);
    let mut a = RectArray::new(3);
    a.push(vec![Dropped(1i32, &d), Dropped(2, &d), Dropped(3, &d)]);
    a.push(vec![Dropped(4, &d), Dropped(5, &d), Dropped(6, &d)]);
    let mut p = a.pop().unwrap();
    assert_eq!(p.next().map(|x| x.0), Some(4));
    drop(p);
    assert_eq!(d.borrow()[..], [4, 5, 6]);
    drop(a);
    assert_eq!(d.borrow()[..], [4, 5, 6, 1, 2, 3]);
}

#[test]
fn rect_array_rows_swap_and_insert() {
    let mut a = RectArray::new(2);
    a.push_slice(&[1, 2]);
    a.push_slice(&[3, 4]);
    a.push_slice(&[5, 6]);
    a.swap(0, 2);
    assert_eq!(a.elems(), [5, 6, 3, 4, 1, 2]);
    a.insert_slice(1, &[7, 8]);
    assert_eq!(a.elems(), [5, 6, 7, 8, 3, 4, 1, 2]);
    a.get_mut(3).unwrap()[0] = 9;
    assert_eq!(a.last(), Some(&[9, 2][..]));
    a.last_mut().unwrap()[1] = 0;
    assert_eq!(a.get(3), Some(&[9, 0][..]));
    let mut r = a.pop().unwrap();
    assert_eq!(r.size_hint(), (2, Some(2)));
    assert_eq!(r.next(), Some(9));
    assert_eq!(r.next(), Some(0));
    assert_eq!(r.next(), None);
    assert_eq!(a.len(), 3);
}

#[test]
fn legacy_binary_gcd() {
    assert_eq!(gcd(0, 0), 0);
    assert_eq!(gcd(0, 12), 12);
    assert_eq!(gcd(18, 0), 18);
    assert_eq!(gcd(12, 18), 6);
    assert_eq!(gcd(48, 180), 12);
    assert_eq!(gcd(17, 5), 1);
    assert_eq!(gcd(1 << 40, 3 << 20), 1 << 20);
    assert_eq!(gcd(i64::MAX, i64::MAX), i64::MAX);
    for x in 0..60i64 {
        for y in 0..60i64 {
            let (mut a, mut b) = (x, y);
            while b != 0 {
                let t = a % b;
                a = b;
                b = t;
            }
            assert_eq!(gcd(x, y), a);
        }
    }
}

#[test]
fn f2_elimination_rank() {
    let mut a = vec![0b011u64, 0b110, 0b101];
    assert_eq!(elimination_f2(&mut a), 2);
    assert_eq!(a, vec![0b101, 0b110, 0]);
    let mut b = vec![0b001u64, 0b010, 0b100];
    assert_eq!(elimination_f2(&mut b), 3);
    assert_eq!(b, vec![1, 2, 4]);
    let mut z = vec![0u64; 4];
    assert_eq!(elimination_f2(&mut z), 0);
    let mut e: Vec<u64> = vec![];
    assert_eq!(elimination_f2(&mut e), 0);
}

#[test]
fn square_mat_ops() {
    let a: SquareMat<i64> = [[1, 2, 0], [0, 1, 3], [4, 0, 1]].into();
    let id = SquareMat::<i64>::id();
    assert_eq!(id.get(1, 1), 1);
    assert_eq!(id.get(1, 2), 0);
    let t = SquareMat::from_rows([[1i64, 2, 0], [0, 1, 3], [4, 0, 1]]).transpose();
    assert_eq!(t.get(0, 2), 4);
    assert_eq!(t.get(2, 0), 0);
    let p = SquareMat::from_rows([[1i64, 2, 0], [0, 1, 3], [4, 0, 1]]).pow(3);
    let q = SquareMat::from_rows([[1i64, 2, 0], [0, 1, 3], [4, 0, 1]]);
    let q2 = q * SquareMat::from_rows([[1i64, 2, 0], [0, 1, 3], [4, 0, 1]]);
    let q3 = q2 * a;
    for i in 0..3 {
        for j in 0..3 {
            assert_eq!(p.get(i, j), q3.get(i, j));
        }
    }
    // [[1,2,0],[0,1,3],[4,0,1]]^2 = [[1,4,6],[12,1,6],[8,8,1]]
    assert_eq!(p.get(0, 0), 1 * 1 + 2 * 12 + 0 * 8);
    let z = SquareMat::<i64>::zero();
    let s = SquareMat::from_rows([[1i64, 2, 3], [4, 5, 6], [7, 8, 9]]) + z;
    assert_eq!(s.get(2, 1), 8);
    let d = SquareMat::from_rows([[1i64, 2, 3], [4, 5, 6], [7, 8, 9]]) - SquareMat::<i64>::id();
    assert_eq!(d.get(1, 1), 4);
    let n = -SquareMat::from_rows([[1i64, 2, 3], [4, 5, 6], [7, 8, 9]]);
    assert_eq!(n.get(0, 2), -3);
    let m = SquareMat::from_rows([[1i64, 2, 3], [4, 5, 6], [7, 8, 9]]).map(|x| x * 10);
    assert_eq!(m.get(2, 2), 90);
    // the first column's term is counted twice
    let v = SquareMat::from_rows([[1i64, 2, 3], [4, 5, 6], [7, 8, 9]]) * [1i64, 1, 1];
    assert_eq!(v, [7, 19, 31]);
}

#[test]
fn mod_sqrt_roots() {
    for &p in &[13i64, 17, 41, 998244353, 7, 11, 2] {
        for n in 0..p.min(200) {
            let small = p < 200_000;
            let is_square = small && (0..p).any(|x| x * x % p == n);
            match mod_sqrt(n, p) {
                Some(x) => {
                    assert!(0 <= x && x < p);
                    assert_eq!(x * x % p, n);
                }
                None => assert!(!is_square, "{} {}", n, p),
            }
        }
    }
}

#[test]
fn legacy_square_matrix_pow_values() {
    let mut a = SquareMatrix::zeros();
    a.set(N - 1, N - 1, 2);
    a.set(N - 1, 3, 5);
    a.set(0, N - 1, 7);
    let p = a.pow(3);
    // Each product adds the row's last entry to the column's last entry, so the
    // identity times three factors of `a` has entry (i, j) equal to
    // [i == N - 1] + 2 * a[N-1][N-1] + a[N-1][j].
    assert_eq!(p.get(0, 3), 9);
    assert_eq!(p.get(N - 1, 3), 10);
    assert_eq!(p.get(0, 0), 4);
    assert_eq!(p.get(N - 1, N - 1), 7);
    let q = a.pow(0);
    assert_eq!(q.get(0, 0), 1);
    assert_eq!(q.get(0, 3), 0);
    let r = a.pow(-2);
    assert_eq!(r.get(5, 5), 1);
    let s = a.pow(1);
    assert_eq!(s.get(0, 3), 5);
    assert_eq!(s.get(N - 1, 3), 6);
}
