use kyopro_lib::mod_int::fact::Fact;
use kyopro_lib::mod_int::precalc::mod_inv_table;
use kyopro_lib::mod_int::{mint, Mod1e9p7, Mod998244353, ModInt, Pow};

#[test]
fn mod_int() {
    type Mint = ModInt<Mod1e9p7>;
    let x = Mint::new(57577);
    assert_eq!(x / x, Mint::new(1));
    assert_eq!(x.half() * Mint::new(2), x);
    assert_eq!(x.pow((Mint::modulo() - 1) as u64 * 1234567), Mint::new(1));
    assert_eq!(x.pow((Mint::modulo() - 1) as i64 * -1234567), Mint::new(1));
    assert_eq!(Mint::from(-1000) + Mint::from(1000), Mint::new(0));
    assert_eq!(Mint::from(17i8), Mint::new(17));
    assert_eq!(Mint::from(-10i8), Mint::new(Mint::modulo() - 10));
}

#[test]
fn binom() {
    const N: usize = 20;
    let f = Fact::<Mod1e9p7>::new(N);
    let mut pascal = [[ModInt::new(0); N + 1]; N + 1];
    for i in 0..=N {
        pascal[i][0] = ModInt::new(1);
        for j in 1..=i {
            pascal[i][j] = pascal[i - 1][j - 1] + pascal[i - 1][j];
        }
    }
    for i in 0..=N {
        for j in 0..=N {
            assert_eq!(f.binom(i, j), pascal[i][j]);
        }
    }
}

#[test]
fn mod_int_arith_values() {
    type M = ModInt<Mod998244353>;
    assert_eq!((M::new(998244352) + M::new(5)).get(), 4);
    assert_eq!((M::new(3) - M::new(5)).get(), 998244351);
    assert_eq!((-M::new(0)).get(), 0);
    assert_eq!((-M::new(1)).get(), 998244352);
    assert_eq!((M::new(100000) * M::new(100000)).get(), (10_000_000_000u64 % 998244353) as u32);
    assert_eq!(M::new(2).pow(10u32).get(), 1024);
    assert_eq!(M::new(3).half().get(), 499122178);
    assert_eq!(M::new(7).normalize().get(), 7);
    assert_eq!(M::default().get(), 0);
    assert_eq!(mint(5).get(), 5);
    assert_eq!(M::new(2).inv() * M::new(2), M::new(1));
    assert_eq!(M::from(-1i64).get(), 998244352);
    assert_eq!(M::from(998244353u64 * 3 + 2).get(), 2);
}

#[test]
fn fact_values() {
    let f = Fact::<Mod998244353>::new(10);
    assert_eq!(f.fact(5).get(), 120);
    assert_eq!((f.fact(7) * f.fact_inv(7)).get(), 1);
    assert_eq!(f.binom(10, 3).get(), 120);
    assert_eq!(f.perm(10, 3).get(), 720);
    assert_eq!(f.binom(3, 10).get(), 0);
    assert_eq!(f.perm(3, 10).get(), 0);
}

#[test]
fn inverse_table() {
    let inv = mod_inv_table::<Mod998244353>(100);
    assert_eq!(inv.len(), 101);
    for x in 1..=100u64 {
        assert_eq!(x * inv[x as usize].get() as u64 % 998244353, 1);
    }
}

use kyopro_lib::mod_int::poly::Poly;

#[test]
fn poly_inv_geometric() {
    // 1 / (1 - x) = 1 + x + x^2 + ...
    let p = Poly::from_vec(vec![mint(1), mint(998244352)]);
    let q = p.inv(6);
    let got: Vec<u32> = q.as_slice().iter().map(|x| x.get()).collect();
    assert_eq!(got, vec![1, 1, 1, 1, 1, 1]);
}

#[test]
fn poly_inv_product_is_one() {
    let a: Vec<u32> = vec![3, 1, 4, 1, 5, 9, 2, 6];
    let p = Poly::from_vec(a.iter().map(|&x| mint(x)).collect());
    let n = 11;
    let q = p.inv(n);
    assert_eq!(q.len(), n);
    let qs: Vec<u64> = q.as_slice().iter().map(|x| x.get() as u64).collect();
    let m = 998244353u64;
    for k in 0..n {
        let mut s = 0u64;
        for i in 0..=k {
            if i < a.len() {
                s = (s + a[i] as u64 * qs[k - i]) % m;
            }
        }
        assert_eq!(s, if k == 0 { 1 } else { 0 });
    }
}

#[test]
fn poly_truncate_neg() {
    let mut p = Poly::from_vec(vec![mint(0), mint(5), mint(7)]);
    p.truncate(5);
    assert_eq!(p.len(), 3);
    p.truncate(2);
    assert_eq!(p.len(), 2);
    let q = -p;
    let got: Vec<u32> = q.as_slice().iter().map(|x| x.get()).collect();
    assert_eq!(got, vec![0, 998244348]);
    assert_eq!(Poly::new().len(), 0);
}
