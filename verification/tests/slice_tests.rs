use kyopro_lib::slice;

#[test]
fn lower_bound() {
    let a = [1, 1, 2, 2, 2, 3, 4, 10, 10, 11];
    assert_eq!(slice::lower_bound(&a, &2), 2);
    assert_eq!(slice::lower_bound(&a, &1), 0);
    assert_eq!(slice::lower_bound(&a, &7), 7);
    assert_eq!(slice::lower_bound(&a, &100), a.len());
}

#[test]
fn next_permutation() {
    let mut a = [1, 2, 34, 56, 789];
    let mut cnt = 0;
    loop {
        cnt += 1;
        if !slice::next_permutation(&mut a) {
            break;
        }
    }
    assert_eq!(cnt, 2 * 3 * 4 * 5);
    let mut a = b"aabbbc".to_owned();
    let mut cnt = 0;
    let mut set = std::collections::HashSet::new();
    loop {
        assert!(!set.contains(&a));
        set.insert(a.clone());
        cnt += 1;
        if !slice::next_permutation(&mut a) {
            break;
        }
    }
    // 5C2 * 6C1
    assert_eq!(cnt, 10 * 6);
}

#[test]
fn next_permutation_steps() {
    let mut a = [1u32, 3, 2];
    assert!(slice::next_permutation(&mut a));
    assert_eq!(a, [2, 1, 3]);
    let mut b = [3i64, 2, 1];
    assert!(!slice::next_permutation(&mut b));
    assert_eq!(b, [1, 2, 3]);
    let mut c = [7usize];
    assert!(!slice::next_permutation(&mut c));
    assert_eq!(c, [7]);
}

#[test]
fn lower_bound_empty_and_all_smaller() {
    let e: [u64; 0] = [];
    assert_eq!(slice::lower_bound(&e, &5), 0);
    assert_eq!(slice::lower_bound(&[1u8, 2, 3], &0), 0);
}
