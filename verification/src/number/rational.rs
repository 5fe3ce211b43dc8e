use vstd::prelude::*;
use crate::num_lemmas::{gcd, lemma_gcd_divides};

verus! {

/// `|x|`.
pub open spec fn abs(x: int) -> nat {
    if x < 0 {
        (-x) as nat
    } else {
        x as nat
    }
}

/// `n / d` in lowest terms with a nonnegative denominator, for `(n, d) != (0, 0)`.
pub open spec fn reduce(n: int, d: int) -> (int, int) {
    let g = gcd(abs(n), abs(d));
    let q = (abs(n) / g) as int;
    (if (n < 0) != (d < 0) { -q } else { q }, (abs(d) / g) as int)
}

/// A fraction `numerator / denominator` kept in lowest terms with a nonnegative
/// denominator; `1 / 0` and `-1 / 0` stand for the infinities.
#[derive(Clone, Copy, PartialEq, Eq, Structural, Debug, Default, Hash)]
pub struct Rational(i64, i64);

/// The Euclidean greatest common divisor of two nonnegative numbers.
fn gcd_i64(x: i64, y: i64) -> (g: i64)
    requires
        x >= 0,
        y >= 0,
    ensures
        g == gcd(x as nat, y as nat),
    decreases y,
{
    if y == 0 {
        x
    } else {
        gcd_i64(y, x % y)
    }
}

impl Rational {
    pub closed spec fn num(self) -> int {
        self.0 as int
    }

    pub closed spec fn den(self) -> int {
        self.1 as int
    }

    /// Lowest terms of `n / d` with a nonnegative denominator.
    fn reduced(n: i64, d: i64) -> (r: Self)
        requires
            n != 0 || d != 0,
            n > i64::MIN,
            d > i64::MIN,
        ensures
            (r.num(), r.den()) == reduce(n as int, d as int),
            r.num() != 0 || r.den() != 0,
    {
        let an = if n < 0 { -n } else { n };
        let ad = if d < 0 { -d } else { d };
        let g = gcd_i64(an, ad);
        proof {
            lemma_gcd_divides(an as nat, ad as nat);
            vstd::arithmetic::div_mod::lemma_fundamental_div_mod(an as int, g as int);
            vstd::arithmetic::div_mod::lemma_fundamental_div_mod(ad as int, g as int);
        }
        let q1 = an / g;
        let q2 = ad / g;
        let r = Rational(if (n < 0) != (d < 0) { -q1 } else { q1 }, q2);
        proof {
            if q1 == 0 && q2 == 0 {
                assert(an == 0 && ad == 0) by (nonlinear_arith)
                    requires
                        an == g * q1 + 0,
                        ad == g * q2 + 0,
                        q1 == 0,
                        q2 == 0,
                ;
            }
        }
        r
    }

    /// `nom / den` in lowest terms; `(0, 0)` is no number.
    pub fn new(nom: i64, den: i64) -> (r: Self)
        requires
            nom != 0 || den != 0,
            nom > i64::MIN,
            den > i64::MIN,
        ensures
            (r.num(), r.den()) == reduce(nom as int, den as int),
    {
        Self::reduced(nom, den)
    }

    /// `den / nom`, the sign kept in the numerator.
    pub fn inv(self) -> (r: Self)
        requires
            self.num() > i64::MIN,
            self.den() > i64::MIN,
        ensures
            (r.num(), r.den()) == if self.num() >= 0 {
                (self.den(), self.num())
            } else {
                (-self.den(), -self.num())
            },
    {
        if self.0 >= 0 {
            Rational(self.1, self.0)
        } else {
            Rational(-self.1, -self.0)
        }
    }

    /// The integer `x`.
    pub fn from_int(x: i64) -> (r: Self)
        ensures
            r.num() == x,
            r.den() == 1,
    {
        Rational(x, 1)
    }

    /// `-self`.
    pub fn negate(self) -> (r: Self)
        requires
            self.num() > i64::MIN,
        ensures
            r.num() == -self.num(),
            r.den() == self.den(),
    {
        Rational(-self.0, self.1)
    }

    /// The sum in lowest terms.
    pub fn plus(self, other: Self) -> (r: Self)
        requires
            i64::MIN < self.num() * other.den() + self.den() * other.num() <= i64::MAX,
            i64::MIN < self.num() * other.den() <= i64::MAX,
            i64::MIN < self.den() * other.num() <= i64::MAX,
            i64::MIN < self.den() * other.den() <= i64::MAX,
            self.num() * other.den() + self.den() * other.num() != 0 || self.den() * other.den() != 0,
        ensures
            (r.num(), r.den()) == reduce(
                self.num() * other.den() + self.den() * other.num(),
                self.den() * other.den(),
            ),
    {
        Self::reduced(self.0 * other.1 + self.1 * other.0, self.1 * other.1)
    }

    /// The product in lowest terms.
    pub fn times(self, other: Self) -> (r: Self)
        requires
            i64::MIN < self.num() * other.num() <= i64::MAX,
            i64::MIN < self.den() * other.den() <= i64::MAX,
            self.num() * other.num() != 0 || self.den() * other.den() != 0,
        ensures
            (r.num(), r.den()) == reduce(self.num() * other.num(), self.den() * other.den()),
    {
        Self::reduced(self.0 * other.0, self.1 * other.1)
    }

    /// `self < other` by value: the cross products compare, or for two infinities
    /// the numerators.
    pub fn less(self, other: Self) -> (b: bool)
        ensures
            b == if self.den() == 0 && other.den() == 0 {
                self.num() < other.num()
            } else {
                self.num() * other.den() < self.den() * other.num()
            },
    {
        if self.1 == 0 && other.1 == 0 {
            self.0 < other.0
        } else {
            let (a, b, c, d) = (self.0 as i128, other.1 as i128, self.1 as i128, other.0 as i128);
            assert(-0x8000_0000_0000_0000 * 0x8000_0000_0000_0000 <= a * b <= 0x8000_0000_0000_0000 * 0x8000_0000_0000_0000)
                by (nonlinear_arith)
                requires
                    -0x8000_0000_0000_0000 <= a <= 0x8000_0000_0000_0000,
                    -0x8000_0000_0000_0000 <= b <= 0x8000_0000_0000_0000,
            ;
            assert(-0x8000_0000_0000_0000 * 0x8000_0000_0000_0000 <= c * d <= 0x8000_0000_0000_0000 * 0x8000_0000_0000_0000)
                by (nonlinear_arith)
                requires
                    -0x8000_0000_0000_0000 <= c <= 0x8000_0000_0000_0000,
                    -0x8000_0000_0000_0000 <= d <= 0x8000_0000_0000_0000,
            ;
            a * b < c * d
        }
    }
}

} // verus!
