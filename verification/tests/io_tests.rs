use kyopro_lib::io::output::KOutput;
use kyopro_lib::io::{Input, KInput, Output};

#[test]
fn seq() {
    let s = b"1  2 3\n4 5";
    let mut kin = KInput::new(s as &[u8]);
    let a: Vec<i32> = kin.seq(5);
    assert_eq!(a, [1, 2, 3, 4, 5]);
}

#[test]
fn io_output_int() {
    let mut out = Vec::<u8>::new();
    let mut out_fmt = Vec::<u8>::new();
    let mut x = 0;
    for i in 1..10 {
        x = 10 * x + i;
        let y = if i % 3 == 0 { -x } else { x };
        out.output(&y);
        out_fmt.extend_from_slice(format!("{}", y).as_bytes());
    }
    assert_eq!(out, out_fmt);
}

#[test]
fn io_output_int_seq() {
    let a: Vec<_> = (-10..=10).collect();
    let mut out = Vec::<u8>::new();
    out.seq(&a, b' ');
    let mut out_fmt = Vec::new();
    for (i, x) in a.into_iter().enumerate() {
        if i > 0 {
            out_fmt.push(b' ');
        }
        out_fmt.extend_from_slice(format!("{}", x).as_bytes());
    }
    assert_eq!(out, out_fmt);
}

#[test]
fn collect() {
    let s = b"1  2 3\n4 5";
    let mut kin = KInput::new(s as &[u8]);
    let a: Vec<i32> = kin.collect(5);
    assert_eq!(a, [1, 2, 3, 4, 5]);
}

#[test]
fn test_output_int() {
    let mut out = KOutput::new(Vec::<u8>::new());
    let mut out_fmt = Vec::<u8>::new();
    let mut x = 0;
    for i in 1..10 {
        x = 10 * x + i;
        let y = if i % 3 == 0 { -x } else { x };
        out.output(&y);
        if i > 1 {
            out_fmt.push(b' ');
        }
        out_fmt.extend_from_slice(format!("{}", y).as_bytes());
    }
    assert_eq!(out.inner(), &out_fmt);
}

#[test]
fn test_output_int_seq() {
    let a: Vec<_> = (-10..=10).collect();
    let mut out = KOutput::new(Vec::<u8>::new());
    out.seq(&a);
    let mut out_fmt = Vec::new();
    for (i, x) in a.into_iter().enumerate() {
        if i > 0 {
            out_fmt.push(b' ');
        }
        out_fmt.extend_from_slice(format!("{}", x).as_bytes());
    }
    assert_eq!(out.inner(), &out_fmt);
}

#[test]
fn input_tokens_and_bytes() {
    let s = b"123 -3230     abcd \r\n  efgh\n";
    let mut kin = KInput::new(s as &[u8]);
    assert_eq!(kin.input::<u32>(), 123);
    assert_eq!(kin.input::<i64>(), -3230);
    assert_eq!(kin.input::<Vec<u8>>(), b"abcd");
    assert_eq!(kin.bytes(), b"efgh");
    assert_eq!(kin.bytes(), b"");
    let mut it = KInput::new(b"7 8" as &[u8]);
    let mut iter = it.iter::<usize>();
    assert_eq!(iter.next(), Some(7));
    assert_eq!(iter.next(), Some(8));
}

#[test]
fn output_extremes_and_lines() {
    let mut out = KOutput::new(Vec::new());
    out.output(i64::MIN);
    out.output(u64::MAX);
    out.ln();
    out.output("x");
    out.output(0u8);
    assert_eq!(out.inner().as_slice(), b"-9223372036854775808 18446744073709551615\nx 0");
}
