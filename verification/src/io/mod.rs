use vstd::prelude::*;
use std::marker::PhantomData;
use vstd::string::StringSliceAdditionalSpecFns;

verus! {

/// ASCII whitespace, as `u8::is_ascii_whitespace` defines it.
pub open spec fn is_ws(b: u8) -> bool {
    b == 32 || b == 9 || b == 10 || b == 12 || b == 13
}

/// The first index at or after `from` that does not hold whitespace, or the length.
pub open spec fn first_non_ws(s: Seq<u8>, from: int) -> int
    decreases s.len() - from,
{
    if from < 0 || from >= s.len() || !is_ws(s[from]) {
        from
    } else {
        first_non_ws(s, from + 1)
    }
}

/// The first index at or after `from` that holds whitespace, or the length.
pub open spec fn first_ws(s: Seq<u8>, from: int) -> int
    decreases s.len() - from,
{
    if from < 0 || from >= s.len() || is_ws(s[from]) {
        from
    } else {
        first_ws(s, from + 1)
    }
}

/// The first token of `s`: its bytes after any leading whitespace, up to the next
/// whitespace or the end.
pub open spec fn token(s: Seq<u8>) -> Seq<u8> {
    let k = first_non_ws(s, 0);
    s.subrange(k, first_ws(s, k))
}

/// What is left of `s` after its first token and the one whitespace byte after it.
pub open spec fn after_token(s: Seq<u8>) -> Seq<u8> {
    let e = first_ws(s, first_non_ws(s, 0));
    if e < s.len() {
        s.skip(e + 1)
    } else {
        Seq::empty()
    }
}

/// What is left of `s` after `k` tokens.
pub open spec fn after_tokens(s: Seq<u8>, k: nat) -> Seq<u8>
    decreases k,
{
    if k == 0 {
        s
    } else {
        after_token(after_tokens(s, (k - 1) as nat))
    }
}

proof fn lemma_first_non_ws(s: Seq<u8>, from: int)
    requires
        0 <= from <= s.len(),
    ensures
        from <= first_non_ws(s, from) <= s.len(),
        forall|i: int| from <= i < first_non_ws(s, from) ==> is_ws(#[trigger] s[i]),
        first_non_ws(s, from) < s.len() ==> !is_ws(s[first_non_ws(s, from)]),
    decreases s.len() - from,
{
    if from < s.len() && is_ws(s[from]) {
        lemma_first_non_ws(s, from + 1);
    }
}

proof fn lemma_first_ws(s: Seq<u8>, from: int)
    requires
        0 <= from <= s.len(),
    ensures
        from <= first_ws(s, from) <= s.len(),
        forall|i: int| from <= i < first_ws(s, from) ==> !is_ws(#[trigger] s[i]),
        first_ws(s, from) < s.len() ==> is_ws(s[first_ws(s, from)]),
    decreases s.len() - from,
{
    if from < s.len() && !is_ws(s[from]) {
        lemma_first_ws(s, from + 1);
    }
}

/// A source of whitespace-separated tokens.
pub trait Input {
    /// The bytes not read yet.
    spec fn rest(&self) -> Seq<u8>;

    /// The next token; empty at the end of the input.
    fn bytes(&mut self) -> (t: &[u8])
        ensures
            t@ == token(old(self).rest()),
            final(self).rest() == after_token(old(self).rest()),
    ;

    /// The next token, parsed.
    fn input<T: InputItem>(&mut self) -> (r: T)
        ensures
            T::parsed(token(old(self).rest()), r),
            final(self).rest() == after_token(old(self).rest()),
    {
        let t = self.bytes();
        T::parse(t)
    }

    /// The next `n` tokens, parsed.
    fn seq<T: InputItem>(&mut self, n: usize) -> (r: Vec<T>)
        ensures
            r@.len() == n,
            forall|k: int|
                0 <= k < n ==> T::parsed(token(after_tokens(old(self).rest(), k as nat)), #[trigger] r@[k]),
            final(self).rest() == after_tokens(old(self).rest(), n as nat),
    {
        let ghost s0 = self.rest();
        let mut r: Vec<T> = Vec::new();
        let mut k: usize = 0;
        while k < n
            invariant
                k <= n,
                r@.len() == k,
                self.rest() == after_tokens(s0, k as nat),
                forall|q: int| 0 <= q < k ==> T::parsed(token(after_tokens(s0, q as nat)), #[trigger] r@[q]),
            decreases n - k,
        {
            let x = self.input::<T>();
            r.push(x);
            k += 1;
        }
        r
    }
}

/// Whitespace-separated tokens read from bytes held in memory.
pub struct KInput {
    buf: Vec<u8>,
    pos: usize,
}

impl KInput {
    /// Reads tokens from a copy of `src`.
    pub fn new(src: &[u8]) -> (k: Self)
        ensures
            k.rest() == src@,
    {
        let buf = vstd::slice::slice_to_vec(src);
        let k = KInput { buf, pos: 0 };
        assert(k.buf@.skip(0) =~= src@);
        k
    }

    /// A cursor that parses token after token.
    pub fn iter<T: InputItem>(&mut self) -> (it: Iter<'_, T, KInput>)
        ensures
            it.source() == *old(self),
    {
        Iter(self, PhantomData)
    }

    /// The next `n` tokens, parsed; [`Input::seq`] under its other name.
    pub fn collect<T: InputItem>(&mut self, n: usize) -> (r: Vec<T>)
        ensures
            r@.len() == n,
            forall|k: int|
                0 <= k < n ==> T::parsed(token(after_tokens(old(self).rest(), k as nat)), #[trigger] r@[k]),
            final(self).rest() == after_tokens(old(self).rest(), n as nat),
    {
        self.seq(n)
    }
}

impl Input for KInput {
    closed spec fn rest(&self) -> Seq<u8> {
        if self.pos <= self.buf@.len() {
            self.buf@.skip(self.pos as int)
        } else {
            Seq::empty()
        }
    }

    fn bytes(&mut self) -> (t: &[u8]) {
        let len = self.buf.len();
        if self.pos > len {
            self.pos = len;
        }
        let ghost s = self.buf@.skip(self.pos as int);
        let start = self.pos;
        let mut k = start;
        while k < len && is_ascii_ws(self.buf[k])
            invariant
                start <= k <= len == self.buf@.len(),
                s == self.buf@.skip(start as int),
                first_non_ws(s, 0) == first_non_ws(s, k - start),
            decreases len - k,
        {
            k += 1;
        }
        let mut e = k;
        while e < len && !is_ascii_ws(self.buf[e])
            invariant
                start <= k <= e <= len == self.buf@.len(),
                s == self.buf@.skip(start as int),
                first_ws(s, k - start) == first_ws(s, e - start),
            decreases len - e,
        {
            e += 1;
        }
        proof {
            lemma_first_non_ws(s, k - start);
            lemma_first_ws(s, e - start);
        }
        self.pos = if e < len { e + 1 } else { len };
        proof {
            if e < len {
                assert(self.buf@.skip(self.pos as int) =~= s.skip(e - start + 1));
            } else {
                assert(self.buf@.skip(self.pos as int) =~= Seq::<u8>::empty());
            }
        }
        let t = vstd::slice::slice_subrange(self.buf.as_slice(), k, e);
        assert(t@ =~= s.subrange(k - start, e - start));
        t
    }
}

/// Whether `b` is ASCII whitespace.
pub fn is_ascii_ws(b: u8) -> (r: bool)
    ensures
        r == is_ws(b),
{
    b == 32 || b == 9 || b == 10 || b == 12 || b == 13
}

/// An endless cursor that parses token after token.
pub struct Iter<'a, T, I>(&'a mut I, PhantomData<T>);

impl<'a, T: InputItem, I: Input> Iter<'a, T, I> {
    pub closed spec fn source(&self) -> I {
        *self.0
    }

    /// The next token, parsed; never `None`.
    pub fn next(&mut self) -> (r: Option<T>)
        ensures
            r matches Some(x) && T::parsed(token(old(self).source().rest()), x),
            final(self).source().rest() == after_token(old(self).source().rest()),
    {
        Some(self.0.input())
    }
}

/// What a token can be parsed into.
pub trait InputItem: Sized {
    /// `r` is what the token `t` reads as.
    spec fn parsed(t: Seq<u8>, r: Self) -> bool;

    fn parse(t: &[u8]) -> (r: Self)
        ensures
            Self::parsed(t@, r),
    ;
}

/// The decimal digits of `t` read as a number, wrapping modulo `2^64`; each byte
/// counts as its low four bits.
pub open spec fn digits_u64(t: Seq<u8>) -> u64
    decreases t.len(),
{
    if t.len() == 0 {
        0
    } else {
        digits_u64(t.drop_last()).wrapping_mul(10).wrapping_add((t.last() % 16) as u64)
    }
}

/// The exact value of the digits of `t`, each byte counting as its low four bits.
pub open spec fn digits_value(t: Seq<u8>) -> nat
    decreases t.len(),
{
    if t.len() == 0 {
        0
    } else {
        digits_value(t.drop_last()) * 10 + (t.last() % 16) as nat
    }
}

/// `t` read as a signed number: an optional `-` and digits, wrapping modulo `2^64`.
pub open spec fn signed_u64(t: Seq<u8>) -> u64 {
    if t.len() > 0 && t[0] == 45 {
        (0u64).wrapping_sub(digits_u64(t.skip(1)))
    } else {
        digits_u64(t)
    }
}

/// Without overflow the wrapping reading is the exact value.
pub proof fn lemma_digits_exact(t: Seq<u8>)
    requires
        digits_value(t) <= u64::MAX,
    ensures
        digits_u64(t) == digits_value(t),
    decreases t.len(),
{
    if t.len() > 0 {
        assert(digits_value(t.drop_last()) <= digits_value(t)) by (nonlinear_arith)
            requires digits_value(t) == digits_value(t.drop_last()) * 10 + (t.last() % 16) as nat;
        lemma_digits_exact(t.drop_last());
    }
}

fn parse_digits(t: &[u8]) -> (r: u64)
    ensures
        r == digits_u64(t@),
{
    let mut x: u64 = 0;
    let mut i: usize = 0;
    while i < t.len()
        invariant
            i <= t@.len(),
            x == digits_u64(t@.take(i as int)),
        decreases t@.len() - i,
    {
        let b = t[i];
        assert(t@.take(i + 1).drop_last() =~= t@.take(i as int));
        assert(b & 0xf == b % 16) by (bit_vector);
        x = x.wrapping_mul(10).wrapping_add((b & 0xf) as u64);
        i += 1;
    }
    assert(t@.take(t@.len() as int) =~= t@);
    x
}

fn parse_signed(t: &[u8]) -> (r: u64)
    ensures
        r == signed_u64(t@),
{
    if t.len() > 0 && t[0] == 45 {
        let rest = vstd::slice::slice_subrange(t, 1, t.len());
        assert(rest@ =~= t@.skip(1));
        (0u64).wrapping_sub(parse_digits(rest))
    } else {
        parse_digits(t)
    }
}

impl InputItem for u64 {
    open spec fn parsed(t: Seq<u8>, r: Self) -> bool {
        r == digits_u64(t)
    }

    fn parse(t: &[u8]) -> (r: Self) {
        parse_digits(t)
    }
}

impl InputItem for u32 {
    open spec fn parsed(t: Seq<u8>, r: Self) -> bool {
        r == digits_u64(t) as u32
    }

    fn parse(t: &[u8]) -> (r: Self) {
        parse_digits(t) as u32
    }
}

impl InputItem for usize {
    open spec fn parsed(t: Seq<u8>, r: Self) -> bool {
        r == digits_u64(t) as usize
    }

    fn parse(t: &[u8]) -> (r: Self) {
        parse_digits(t) as usize
    }
}

impl InputItem for i64 {
    open spec fn parsed(t: Seq<u8>, r: Self) -> bool {
        r == signed_u64(t) as i64
    }

    fn parse(t: &[u8]) -> (r: Self) {
        parse_signed(t) as i64
    }
}

impl InputItem for i32 {
    open spec fn parsed(t: Seq<u8>, r: Self) -> bool {
        r == signed_u64(t) as i32
    }

    fn parse(t: &[u8]) -> (r: Self) {
        parse_signed(t) as i32
    }
}

impl InputItem for isize {
    open spec fn parsed(t: Seq<u8>, r: Self) -> bool {
        r == signed_u64(t) as isize
    }

    fn parse(t: &[u8]) -> (r: Self) {
        parse_signed(t) as isize
    }
}

impl InputItem for Vec<u8> {
    open spec fn parsed(t: Seq<u8>, r: Self) -> bool {
        r@ == t
    }

    fn parse(t: &[u8]) -> (r: Self) {
        let v = vstd::slice::slice_to_vec(t);
        assert(v@ == t@);
        v
    }
}

/// The ASCII digit for `d < 10`.
pub open spec fn digit_byte(d: nat) -> u8 {
    (48 + d) as u8
}

/// The decimal representation of `x`, without leading zeros.
pub open spec fn decimal(x: nat) -> Seq<u8>
    decreases x,
{
    if x < 10 {
        seq![digit_byte(x)]
    } else {
        decimal(x / 10).push(digit_byte(x % 10))
    }
}

/// The decimal representation of `x`, with a `-` before it when negative.
pub open spec fn signed_decimal(x: int) -> Seq<u8> {
    if x < 0 {
        seq![45u8] + decimal((-x) as nat)
    } else {
        decimal(x as nat)
    }
}

/// Appends the decimal representation of `x` to `dest`.
pub fn write_u64(x: u64, dest: &mut Vec<u8>)
    ensures
        final(dest)@ == old(dest)@ + decimal(x as nat),
{
    let mut rev: Vec<u8> = Vec::new();
    let mut y = x;
    loop
        invariant_except_break
            decimal(x as nat) == decimal(y as nat) + rev@.reverse(),
        ensures
            decimal(x as nat) == rev@.reverse(),
        decreases y,
    {
        let d = (y % 10) as u8;
        let ghost before = rev@;
        rev.push(48 + d);
        if y < 10 {
            assert(rev@.reverse() =~= seq![digit_byte(y as nat)] + before.reverse());
            assert(decimal(y as nat) == seq![digit_byte(y as nat)]);
            break;
        }
        assert(rev@.reverse() =~= seq![digit_byte((y % 10) as nat)] + before.reverse());
        assert(decimal(y as nat) =~= decimal((y / 10) as nat) + seq![digit_byte((y % 10) as nat)]);
        y = y / 10;
    }
    let ghost d0 = dest@;
    let mut i = rev.len();
    while i > 0
        invariant
            i <= rev@.len(),
            dest@ == d0 + rev@.reverse().take(rev@.len() - i),
        decreases i,
    {
        i -= 1;
        dest.push(rev[i]);
        assert(rev@.reverse().take(rev@.len() - i) =~= rev@.reverse().take(rev@.len() - i - 1).push(rev@[i as int]));
    }
    assert(rev@.reverse().take(rev@.len() as int) =~= rev@.reverse());
}

/// Appends the decimal representation of `x`, with a `-` when negative, to `dest`.
pub fn write_i64(x: i64, dest: &mut Vec<u8>)
    ensures
        final(dest)@ == old(dest)@ + signed_decimal(x as int),
{
    if x < 0 {
        dest.push(45);
        let ghost d1 = dest@;
        let u: u64 = ((-(x + 1)) as u64) + 1;
        write_u64(u, dest);
        assert(dest@ =~= old(dest)@ + (seq![45u8] + decimal(u as nat)));
    } else {
        write_u64(x as u64, dest);
    }
}

/// What can be written as bytes.
pub trait OutputItem {
    spec fn text(&self) -> Seq<u8>;

    fn output(&self, dest: &mut Vec<u8>)
        ensures
            final(dest)@ == old(dest)@ + self.text(),
    ;
}

impl OutputItem for i64 {
    open spec fn text(&self) -> Seq<u8> {
        signed_decimal(*self as int)
    }

    fn output(&self, dest: &mut Vec<u8>) {
        write_i64(*self, dest)
    }
}

impl OutputItem for i32 {
    open spec fn text(&self) -> Seq<u8> {
        signed_decimal(*self as int)
    }

    fn output(&self, dest: &mut Vec<u8>) {
        write_i64(*self as i64, dest)
    }
}

impl OutputItem for isize {
    open spec fn text(&self) -> Seq<u8> {
        signed_decimal(*self as int)
    }

    fn output(&self, dest: &mut Vec<u8>) {
        write_i64(*self as i64, dest)
    }
}

impl OutputItem for u64 {
    open spec fn text(&self) -> Seq<u8> {
        decimal(*self as nat)
    }

    fn output(&self, dest: &mut Vec<u8>) {
        write_u64(*self, dest)
    }
}

impl OutputItem for u32 {
    open spec fn text(&self) -> Seq<u8> {
        decimal(*self as nat)
    }

    fn output(&self, dest: &mut Vec<u8>) {
        write_u64(*self as u64, dest)
    }
}

impl OutputItem for usize {
    open spec fn text(&self) -> Seq<u8> {
        decimal(*self as nat)
    }

    fn output(&self, dest: &mut Vec<u8>) {
        write_u64(*self as u64, dest)
    }
}

impl OutputItem for u8 {
    open spec fn text(&self) -> Seq<u8> {
        decimal(*self as nat)
    }

    fn output(&self, dest: &mut Vec<u8>) {
        write_u64(*self as u64, dest)
    }
}

impl<'a, T: OutputItem> OutputItem for &'a T {
    open spec fn text(&self) -> Seq<u8> {
        (**self).text()
    }

    fn output(&self, dest: &mut Vec<u8>) {
        (**self).output(dest)
    }
}

impl<'a> OutputItem for &'a str {
    open spec fn text(&self) -> Seq<u8> {
        self.spec_bytes()
    }

    fn output(&self, dest: &mut Vec<u8>) {
        let b = self.as_bytes();
        let ghost d0 = dest@;
        let mut i: usize = 0;
        while i < b.len()
            invariant
                i <= b@.len(),
                b@ == self.spec_bytes(),
                dest@ == d0 + b@.take(i as int),
            decreases b@.len() - i,
        {
            dest.push(b[i]);
            i += 1;
            assert(b@.take(i as int) =~= b@.take(i - 1).push(b@[i - 1]));
        }
        assert(b@.take(b@.len() as int) =~= b@);
    }
}

/// The texts of `items` joined by `delim`.
pub open spec fn joined<T: OutputItem>(items: Seq<T>, delim: u8) -> Seq<u8>
    decreases items.len(),
{
    if items.len() == 0 {
        Seq::empty()
    } else if items.len() == 1 {
        items[0].text()
    } else {
        joined(items.drop_last(), delim).push(delim) + items.last().text()
    }
}

/// Writing the items of a line one at a time, each after a delimiter unless it is the
/// first, writes them joined by that delimiter.
pub proof fn lemma_joined_push<T: OutputItem>(items: Seq<T>, x: T, delim: u8)
    ensures
        joined(items.push(x), delim) == joined(items, delim) + (if items.len() > 0 {
            seq![delim]
        } else {
            Seq::empty()
        }) + x.text(),
{
    let t = items.push(x);
    assert(t.drop_last() =~= items);
    if items.len() == 0 {
        assert(joined(items, delim) =~= Seq::<u8>::empty());
        assert(Seq::<u8>::empty() + Seq::<u8>::empty() + x.text() =~= x.text());
    } else {
        assert(joined(items, delim).push(delim) =~= joined(items, delim) + seq![delim]);
    }
}

/// A byte sink: every write appends to the bytes written so far.
pub trait Output: Sized {
    spec fn written(&self) -> Seq<u8>;

    fn bytes(&mut self, buf: &[u8])
        ensures
            final(self).written() == old(self).written() + buf@,
    ;

    fn output<T: OutputItem>(&mut self, x: T)
        ensures
            final(self).written() == old(self).written() + x.text(),
    ;

    fn byte(&mut self, b: u8)
        ensures
            final(self).written() == old(self).written().push(b),
    ;

    /// The items, `delim` between each two.
    fn seq<T: OutputItem + Copy>(&mut self, items: &[T], delim: u8)
        ensures
            final(self).written() == old(self).written() + joined(items@, delim),
    {
        let ghost w0 = self.written();
        let mut i: usize = 0;
        while i < items.len()
            invariant
                i <= items@.len(),
                self.written() == w0 + joined(items@.take(i as int), delim),
            decreases items@.len() - i,
        {
            let ghost w1 = self.written();
            if i > 0 {
                self.byte(delim);
            }
            self.output(items[i]);
            proof {
                let t = items@.take(i + 1);
                assert(t.drop_last() =~= items@.take(i as int));
                if i == 0 {
                    assert(joined(t, delim) =~= items@[0].text());
                    assert(joined(items@.take(0), delim) =~= Seq::<u8>::empty());
                }
            }
            i += 1;
        }
        assert(items@.take(items@.len() as int) =~= items@);
    }

    /// Nothing to do for bytes held in memory.
    fn flush_debug(&mut self)
        ensures
            final(self).written() == old(self).written(),
    ;
}

impl Output for Vec<u8> {
    open spec fn written(&self) -> Seq<u8> {
        self@
    }

    fn bytes(&mut self, buf: &[u8]) {
        let ghost d0 = self@;
        let mut i: usize = 0;
        while i < buf.len()
            invariant
                i <= buf@.len(),
                self@ == d0 + buf@.take(i as int),
            decreases buf@.len() - i,
        {
            self.push(buf[i]);
            i += 1;
            assert(buf@.take(i as int) =~= buf@.take(i - 1).push(buf@[i - 1]));
        }
        assert(buf@.take(buf@.len() as int) =~= buf@);
    }

    fn output<T: OutputItem>(&mut self, x: T) {
        x.output(self)
    }

    fn byte(&mut self, b: u8) {
        self.push(b)
    }

    fn flush_debug(&mut self) {
    }
}

} // verus!

pub mod output;
