use kyopro_lib::data_structure::bit_set::BitSet;

#[test]
fn bit_set() {}

#[test]
fn bit_set_get_set_flip_fill() {
    let mut s = BitSet::new(100, false);
    assert!(!s.get(0));
    s.set(70, true);
    assert!(s.get(70));
    s.set(70, false);
    assert!(!s.get(70));
    s.flip(60, 130);
    for i in 0..128 {
        assert_eq!(s.get(i), (60..130).contains(&i));
    }
    s.fill(62, 64, false);
    assert!(!s.get(62) && !s.get(63) && s.get(64) && s.get(61));
    s.fill(3, 5, true);
    assert!(s.get(3) && s.get(4) && !s.get(5));
    let t = BitSet::new(10, true);
    assert!((0..64).all(|i| t.get(i)));
}
