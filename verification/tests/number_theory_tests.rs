use kyopro_lib::number_theory::number_theory::{prime_count, primes, totient_table};

#[test]
fn prime_count_small_values() {
    assert_eq!(prime_count(1), 0);
    assert_eq!(prime_count(2), 1);
    assert_eq!(prime_count(3), 2);
    assert_eq!(prime_count(10), 4);
    assert_eq!(prime_count(100), 25);
    assert_eq!(prime_count(1000), 168);
}

#[test]
fn prime_count_large_values() {
    assert_eq!(prime_count(1_000_000), 78498);
    assert_eq!(prime_count(10_000_000_000), 455052511);
}

#[test]
fn prime_count_agrees_with_sieve() {
    for n in 1..400 {
        assert_eq!(prime_count(n), primes(n).len(), "n = {}", n);
    }
}

fn gcd(a: usize, b: usize) -> usize {
    if b == 0 { a } else { gcd(b, a % b) }
}

#[test]
fn totient_table_small() {
    assert_eq!(totient_table(10), vec![0, 1, 1, 2, 2, 4, 2, 6, 4, 6, 4]);
    assert_eq!(totient_table(0), vec![0]);
    assert_eq!(totient_table(1), vec![0, 1]);
}

#[test]
fn totient_table_counts_coprimes() {
    let t = totient_table(300);
    for j in 1..=300usize {
        let c = (1..=j).filter(|&x| gcd(x, j) == 1).count();
        assert_eq!(t[j], c, "j = {}", j);
    }
}
