use kyopro_lib::mod_int::{Mod998244353, ModInt};
use kyopro_lib::other::matrix::Matrix;
use kyopro_lib::random::pcg::Pcg;
use kyopro_lib::random::RngCore;

fn mat<T>(rows: Vec<Vec<T>>) -> Matrix<T> {
    let n = rows.len();
    let m = rows.first().map(|r| r.len()).unwrap_or(0);
    Matrix::from_elems(n, m, rows.into_iter().flatten().collect())
}

#[test]
fn matrix_macro() {
    let a = mat(vec![vec![1, 2, 3], vec![4, 5, 6]]);
    assert_eq!(a.dim(), (2, 3));
    assert_eq!(a.get(0).unwrap(), [1, 2, 3]);
    assert_eq!(a.get(1).unwrap(), [4, 5, 6]);
}

#[test]
fn matrix_create() {
    assert_eq!(
        Matrix::<i32>::id(3),
        mat(vec![vec![1, 0, 0], vec![0, 1, 0], vec![0, 0, 1]])
    );
}

#[test]
fn matrix_add() {
    let a = mat(vec![vec![1, 2, 3], vec![3, 4, 5]]);
    let b = mat(vec![vec![10, 20, 30], vec![30, 40, 50]]);
    let res = mat(vec![vec![11, 22, 33], vec![33, 44, 55]]);
    assert_eq!(&a + &b, res);
    assert_eq!(&a + b.clone(), res);
    assert_eq!(a.clone() + &b, res);
    assert_eq!(a + b, res);
}

#[test]
fn matrix_pow() {
    let a = mat(vec![vec![1, 2], vec![3, 4]]);
    let p = a.pow(5);
    assert_eq!(p, mat(vec![vec![1069, 1558], vec![2337, 3406]]));
}

#[test]
fn matrix_gaussian_elimination() {}

#[test]
fn matrix_pow_zero_is_identity() {
    let a = mat(vec![vec![5i64, 7], vec![1, 9]]);
    assert_eq!(a.pow(0), Matrix::<i64>::id(2));
}

#[test]
fn matrix_product_and_transpose() {
    let a = mat(vec![vec![1u32, 2, 3], vec![4, 5, 6]]);
    let b = mat(vec![vec![7u32, 8], vec![9, 10], vec![11, 12]]);
    let p = &a * &b;
    assert_eq!(p, mat(vec![vec![58, 64], vec![139, 154]]));
    let t = a.clone().transpose();
    assert_eq!(t, mat(vec![vec![1, 4], vec![2, 5], vec![3, 6]]));
    let v = &a * &[1u32, 0, 2][..];
    assert_eq!(v, vec![7, 16]);
}

#[test]
fn matrix_entrywise_ops() {
    let a = mat(vec![vec![5i32, 6], vec![7, 8]]);
    let b = mat(vec![vec![1i32, 2], vec![3, 4]]);
    assert_eq!(&a - &b, mat(vec![vec![4, 4], vec![4, 4]]));
    assert_eq!(&a ^ &b, mat(vec![vec![4, 4], vec![4, 12]]));
    assert_eq!(-a.clone(), mat(vec![vec![-5, -6], vec![-7, -8]]));
    assert_eq!(a * 3, mat(vec![vec![15, 18], vec![21, 24]]));
}

#[test]
fn matrix_swap_rows_and_iter() {
    let mut a = mat(vec![vec![1, 2], vec![3, 4], vec![5, 6]]);
    a.swap(0, 2);
    assert_eq!(a, mat(vec![vec![5, 6], vec![3, 4], vec![1, 2]]));
    let mut it = a.iter();
    assert_eq!(it.next(), Some(&[5, 6][..]));
    assert_eq!(it.next(), Some(&[3, 4][..]));
    assert_eq!(it.next(), Some(&[1, 2][..]));
    assert_eq!(it.next(), None);
    if let Some(row) = a.get_mut(1) {
        row[0] = 30;
    }
    assert_eq!(a.get(1).unwrap(), [30, 4]);
}

#[test]
fn matrix_gaussian_elimination_rank() {
    type M = ModInt<Mod998244353>;
    let f = |v: Vec<Vec<u32>>| mat(v.into_iter().map(|r| r.into_iter().map(M::new).collect()).collect());
    let mut a = f(vec![vec![2, 4, 6], vec![1, 3, 5], vec![3, 7, 11]]);
    assert_eq!(a.gaussian_elimination(), 2);
    let row2 = a.get(2).unwrap();
    assert_eq!(row2[2], M::new(0));
    let mut b = f(vec![vec![0, 1], vec![1, 0]]);
    assert_eq!(b.gaussian_elimination(), 2);
    assert_eq!(b, f(vec![vec![1, 0], vec![0, 1]]));
}

#[test]
fn matrix_mul() {
    let mut rand = Pcg::seed_from_u64(1818);
    let n = 10;
    let h = 15;
    let m = 20;
    let a = Matrix::from_elems(n, h, (0..n * h).map(|_| rand.next_u32() & 0xfff).collect());
    let b = Matrix::from_elems(h, m, (0..h * m).map(|_| rand.next_u32() & 0xfff).collect());
    let res = &a * &b;
    assert_eq!(res.dim(), (n, m));
    let tb = b.transpose();
    for i in 0..n {
        for j in 0..m {
            let p: u32 = a.get(i).unwrap().iter().zip(tb.get(j).unwrap().iter()).map(|(x, y)| x * y).sum();
            assert_eq!(res.get(i).unwrap()[j], p);
        }
    }
}
