use kyopro_lib::data_structure::sqrtvec::SqrtVec;

#[test]
fn sqrtvec_fill_and_get() {
    let mut a: SqrtVec<i64> = SqrtVec::new();
    assert_eq!(a.get(0), None);
    a.resize(600, 0);
    a.fill(10..300, 5);
    assert_eq!(a.get(9), Some(&0));
    assert_eq!(a.get(10), Some(&5));
    assert_eq!(a.get(255), Some(&5));
    assert_eq!(a.get(256), Some(&5));
    assert_eq!(a.get(299), Some(&5));
    assert_eq!(a.get(300), Some(&0));
    assert_eq!(a.get(599), Some(&0));
    assert_eq!(a.get(600), None);
}

#[test]
fn sqrtvec_fill_whole_blocks() {
    let mut a: SqrtVec<u8> = SqrtVec::new();
    a.resize(1024, 1);
    a.fill(100..900, 2);
    for i in 0..1024 {
        let want = if (100..900).contains(&i) { 2 } else { 1 };
        assert_eq!(a.get(i), Some(&want));
    }
}

#[test]
fn sqrtvec_empty_fill_changes_nothing() {
    let mut a: SqrtVec<i32> = SqrtVec::new();
    a.resize(10, 3);
    a.fill(4..4, 9);
    for i in 0..10 {
        assert_eq!(a.get(i), Some(&3));
    }
}

#[test]
fn sqrtvec_resize_keeps_slots_of_kept_blocks() {
    let mut a: SqrtVec<i32> = SqrtVec::new();
    a.resize(10, 1);
    a.resize(20, 2);
    // The block that held the first ten values is kept, so the new values read 1.
    assert_eq!(a.get(15), Some(&1));
    a.resize(300, 2);
    assert_eq!(a.get(255), Some(&1));
    assert_eq!(a.get(256), Some(&2));
    a.resize(5, 0);
    assert_eq!(a.get(4), Some(&1));
    assert_eq!(a.get(5), None);
}
