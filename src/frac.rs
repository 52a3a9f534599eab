//! Exact signed fractions for time positions and durations.
//!
//! A `Frac` is a ratio of two `u32` magnitudes with a sign, always kept in
//! lowest terms, or one of the two infinities. Reduction and the arithmetic
//! on magnitudes are done by the `fraction` crate.
use fraction::GenericFraction;
use vstd::prelude::*;

verus! {

/// Greatest common divisor, by Euclid's algorithm.
pub open spec fn gcd(a: nat, b: nat) -> nat
    decreases b,
{
    if b == 0 {
        a
    } else {
        gcd(b, a % b)
    }
}

/// The mathematical value of a `Frac`.
pub enum Rational {
    Finite { num: int, den: int },
    PosInfinity,
    NegInfinity,
}

pub open spec fn abs(x: int) -> nat {
    if x < 0 {
        (-x) as nat
    } else {
        x as nat
    }
}

/// `(n, d)` is `num / den` in lowest terms.
pub open spec fn lowest_terms_of(n: nat, d: nat, num: nat, den: nat) -> bool {
    &&& d > 0
    &&& n * den == num * d
    &&& gcd(n, d) == 1
}

/// `r` is the signed ratio `num / den` in lowest terms (`den > 0`).
pub open spec fn reduces_to(r: Rational, num: int, den: int) -> bool {
    match r {
        Rational::Finite { num: n, den: d } => d > 0 && n * den == num * d && gcd(abs(n), d as nat)
            == 1,
        _ => false,
    }
}

/// Equality of values: cross-multiplication for finite values, same sign for infinities.
pub open spec fn same_value(a: Rational, b: Rational) -> bool {
    match (a, b) {
        (Rational::Finite { num: p, den: q }, Rational::Finite { num: s, den: t }) => p * t == s
            * q,
        (Rational::PosInfinity, Rational::PosInfinity) => true,
        (Rational::NegInfinity, Rational::NegInfinity) => true,
        _ => false,
    }
}

/// `a <= b`: cross-multiplication for finite values; the infinities bound all finite values.
pub open spec fn value_le(a: Rational, b: Rational) -> bool {
    match (a, b) {
        (Rational::Finite { num: p, den: q }, Rational::Finite { num: s, den: t }) => p * t <= s
            * q,
        (Rational::NegInfinity, _) => true,
        (_, Rational::PosInfinity) => true,
        _ => false,
    }
}

pub open spec fn value_cmp(a: Rational, b: Rational) -> core::cmp::Ordering {
    if same_value(a, b) {
        core::cmp::Ordering::Equal
    } else if value_le(a, b) {
        core::cmp::Ordering::Less
    } else {
        core::cmp::Ordering::Greater
    }
}

/// A value with a positive denominator, or an infinity.
pub open spec fn is_valid(a: Rational) -> bool {
    match a {
        Rational::Finite { num: _, den: d } => d > 0,
        _ => true,
    }
}

/// The value of `a + b`. Opposite infinities have no sum.
pub open spec fn sum_of(a: Rational, b: Rational) -> Rational {
    match (a, b) {
        (Rational::Finite { num: p, den: q }, Rational::Finite { num: s, den: t }) => {
            Rational::Finite { num: p * t + s * q, den: q * t }
        },
        (Rational::Finite { .. }, _) => b,
        _ => a,
    }
}

pub open spec fn negation_of(a: Rational) -> Rational {
    match a {
        Rational::Finite { num: p, den: q } => Rational::Finite { num: -p, den: q },
        Rational::PosInfinity => Rational::NegInfinity,
        Rational::NegInfinity => Rational::PosInfinity,
    }
}

/// `a + b` is defined and its numerator and denominator, before reduction, fit in a `u32`.
pub open spec fn sum_fits(a: Rational, b: Rational) -> bool {
    match (a, b) {
        (Rational::Finite { num: p, den: q }, Rational::Finite { num: s, den: t }) => {
            abs(p) * t + abs(s) * q <= u32::MAX && q * t <= u32::MAX
        },
        (Rational::PosInfinity, Rational::NegInfinity) => false,
        (Rational::NegInfinity, Rational::PosInfinity) => false,
        _ => true,
    }
}

/// The sign of a fraction.
#[derive(Debug, Clone, Copy, PartialEq, Eq, Structural, Hash)]
pub enum Sign {
    Plus,
    Minus,
}

/// An exact fraction in lowest terms, or an infinity.
///
/// A finite value is held as sign, numerator and a positive denominator whose gcd is 1;
/// zero is always `Plus`. An infinity has denominator 0.
#[derive(Debug, Clone, Copy, Hash)]
pub struct Frac {
    sign: Sign,
    numer: u32,
    denom: u32,
}

impl View for Frac {
    type V = Rational;

    closed spec fn view(&self) -> Rational {
        if self.denom == 0 {
            if self.sign == Sign::Minus {
                Rational::NegInfinity
            } else {
                Rational::PosInfinity
            }
        } else {
            Rational::Finite {
                num: if self.sign == Sign::Minus {
                    -(self.numer as int)
                } else {
                    self.numer as int
                },
                den: self.denom as int,
            }
        }
    }
}

/// Relies on fraction's `GenericFraction::new`: the ratio `num / den` (den > 0) in lowest
/// terms (num-rational's `Ratio::new` divides both by their gcd; zero becomes 0/1).
#[verifier::external_body]
fn lowest_terms(num: u32, den: u32) -> (r: (u32, u32))
    requires
        den > 0,
    ensures
        lowest_terms_of(r.0 as nat, r.1 as nat, num as nat, den as nat),
{
    let f = GenericFraction::<u32>::new(num, den);
    (*f.numer().unwrap(), *f.denom().unwrap())
}

/// Relies on fraction's `Add` for `GenericFraction`: `p/q + s/t` in lowest terms. The
/// magnitudes are combined over lcm(q, t), so no intermediate value exceeds `p*t + s*q`
/// or `q*t`.
#[verifier::external_body]
fn magnitude_sum(p: u32, q: u32, s: u32, t: u32) -> (r: (u32, u32))
    requires
        q > 0,
        t > 0,
        p * t + s * q <= u32::MAX,
        q * t <= u32::MAX,
    ensures
        lowest_terms_of(r.0 as nat, r.1 as nat, (p * t + s * q) as nat, (q * t) as nat),
{
    let f = GenericFraction::<u32>::new(p, q) + GenericFraction::<u32>::new(s, t);
    (*f.numer().unwrap(), *f.denom().unwrap())
}

/// Relies on fraction's `Sub` for `GenericFraction`: `p/q - s/t` in lowest terms, for
/// `p/q >= s/t` (the result then keeps the plus sign).
#[verifier::external_body]
fn magnitude_difference(p: u32, q: u32, s: u32, t: u32) -> (r: (u32, u32))
    requires
        q > 0,
        t > 0,
        p * t >= s * q,
        p * t <= u32::MAX,
        q * t <= u32::MAX,
    ensures
        lowest_terms_of(r.0 as nat, r.1 as nat, (p * t - s * q) as nat, (q * t) as nat),
{
    let f = GenericFraction::<u32>::new(p, q) - GenericFraction::<u32>::new(s, t);
    (*f.numer().unwrap(), *f.denom().unwrap())
}

proof fn lemma_zero_numerator(n: nat, d: nat, num: nat, den: nat)
    requires
        lowest_terms_of(n, d, num, den),
        den > 0,
    ensures
        n == 0 <==> num == 0,
{
    assert(n == 0 <==> num == 0) by (nonlinear_arith)
        requires
            n * den == num * d,
            d > 0,
            den > 0,
    ;
}

impl Frac {
    #[verifier::type_invariant]
    spec fn inv(&self) -> bool {
        if self.denom == 0 {
            self.numer == 1
        } else {
            &&& gcd(self.numer as nat, self.denom as nat) == 1
            &&& (self.numer == 0 ==> self.sign == Sign::Plus)
        }
    }

    /// `num / den` in lowest terms.
    pub fn new(num: u32, den: u32) -> (r: Frac)
        requires
            den > 0,
        ensures
            reduces_to(r@, num as int, den as int),
    {
        let (n, d) = lowest_terms(num, den);
        Frac { sign: Sign::Plus, numer: n, denom: d }
    }

    /// The value `n / 1`.
    pub fn from_integer(n: u32) -> (r: Frac)
        ensures
            r@ == (Rational::Finite { num: n as int, den: 1 }),
    {
        proof {
            assert(gcd(n as nat, 1) == gcd(1, (n as nat) % 1));
            assert(gcd(1, 0) == 1);
        }
        Frac { sign: Sign::Plus, numer: n, denom: 1 }
    }

    /// The numerator's magnitude; `None` for an infinity.
    pub fn numer(&self) -> (r: Option<u32>)
        ensures
            match self@ {
                Rational::Finite { num: n, den: _ } => r == Some(abs(n) as u32),
                _ => r.is_none(),
            },
    {
        if self.denom == 0 {
            None
        } else {
            Some(self.numer)
        }
    }

    /// The denominator; `None` for an infinity.
    pub fn denom(&self) -> (r: Option<u32>)
        ensures
            match self@ {
                Rational::Finite { num: _, den: d } => r == Some(d as u32),
                _ => r.is_none(),
            },
    {
        if self.denom == 0 {
            None
        } else {
            Some(self.denom)
        }
    }

    /// The sign; zero is `Plus`.
    pub fn sign(&self) -> (r: Option<Sign>)
        ensures
            r == Some(
                match self@ {
                    Rational::Finite { num: n, den: _ } => if n < 0 {
                        Sign::Minus
                    } else {
                        Sign::Plus
                    },
                    Rational::PosInfinity => Sign::Plus,
                    Rational::NegInfinity => Sign::Minus,
                },
            ),
    {
        proof {
            use_type_invariant(self);
        }
        Some(self.sign)
    }

    pub fn infinity() -> (r: Frac)
        ensures
            r@ == Rational::PosInfinity,
    {
        Frac { sign: Sign::Plus, numer: 1, denom: 0 }
    }

    pub fn neg_infinity() -> (r: Frac)
        ensures
            r@ == Rational::NegInfinity,
    {
        Frac { sign: Sign::Minus, numer: 1, denom: 0 }
    }

    /// The value with the opposite sign.
    pub fn neg(self) -> (r: Frac)
        ensures
            r@ == negation_of(self@),
    {
        proof {
            use_type_invariant(self);
        }
        if self.numer == 0 && self.denom != 0 {
            self
        } else {
            let sign = match self.sign {
                Sign::Plus => Sign::Minus,
                Sign::Minus => Sign::Plus,
            };
            Frac { sign, numer: self.numer, denom: self.denom }
        }
    }
}

impl Frac {
    /// The signed numerator of a finite value.
    fn signed_numer(&self) -> (r: i64)
        requires
            self.denom != 0,
        ensures
            self@ matches Rational::Finite { num: n, den: _ } && r == n,
    {
        if self.sign == Sign::Minus {
            -(self.numer as i64)
        } else {
            self.numer as i64
        }
    }

    /// `self * other.den` and `other * self.den` for two finite values.
    fn cross_products(&self, other: &Frac) -> (r: (i128, i128))
        requires
            self.denom != 0,
            other.denom != 0,
        ensures
            match (self@, other@) {
                (Rational::Finite { num: p, den: q }, Rational::Finite { num: s, den: t }) => r.0
                    == p * t && r.1 == s * q,
                _ => false,
            },
    {
        let a = self.signed_numer() as i128;
        let b = other.signed_numer() as i128;
        let q = self.denom as i128;
        let t = other.denom as i128;
        assert(-0x1_0000_0000 * 0x1_0000_0000 <= a * t <= 0x1_0000_0000 * 0x1_0000_0000)
            by (nonlinear_arith)
            requires
                -0x1_0000_0000 <= a <= 0x1_0000_0000,
                0 <= t <= 0x1_0000_0000,
        ;
        assert(-0x1_0000_0000 * 0x1_0000_0000 <= b * q <= 0x1_0000_0000 * 0x1_0000_0000)
            by (nonlinear_arith)
            requires
                -0x1_0000_0000 <= b <= 0x1_0000_0000,
                0 <= q <= 0x1_0000_0000,
        ;
        (a * t, b * q)
    }

    /// Exact sum, in lowest terms. An infinity added to a finite value is that infinity.
    pub fn add(self, other: Frac) -> (r: Frac)
        requires
            sum_fits(self@, other@),
        ensures
            match sum_of(self@, other@) {
                Rational::Finite { num, den } => reduces_to(r@, num, den),
                s => r@ == s,
            },
    {
        proof {
            use_type_invariant(self);
            use_type_invariant(other);
        }
        if self.denom == 0 {
            return self;
        }
        if other.denom == 0 {
            return other;
        }
        let p = self.numer;
        let q = self.denom;
        let s = other.numer;
        let t = other.denom;
        proof {
            assert(q * t > 0 && t * q > 0) by (nonlinear_arith)
                requires
                    q > 0,
                    t > 0,
            ;
        }
        if self.sign == other.sign {
            let (n, d) = magnitude_sum(p, q, s, t);
            proof {
                lemma_zero_numerator(n as nat, d as nat, (p * t + s * q) as nat, (q * t) as nat);
                if self.sign == Sign::Minus {
                    assert((-n) * (q * t) == ((-(p as int)) * t + (-(s as int)) * q) * d)
                        by (nonlinear_arith)
                        requires
                            n * (q * t) == (p * t + s * q) * d,
                    ;
                }
            }
            let sign = if n == 0 {
                Sign::Plus
            } else {
                self.sign
            };
            Frac { sign, numer: n, denom: d }
        } else if (p as u64) * (t as u64) >= (s as u64) * (q as u64) {
            let (n, d) = magnitude_difference(p, q, s, t);
            proof {
                lemma_zero_numerator(n as nat, d as nat, (p * t - s * q) as nat, (q * t) as nat);
                if self.sign == Sign::Minus {
                    assert((-n) * (q * t) == ((-(p as int)) * t + (s as int) * q) * d)
                        by (nonlinear_arith)
                        requires
                            n * (q * t) == (p * t - s * q) * d,
                    ;
                } else {
                    assert(n * (q * t) == ((p as int) * t + (-(s as int)) * q) * d)
                        by (nonlinear_arith)
                        requires
                            n * (q * t) == (p * t - s * q) * d,
                    ;
                }
            }
            let sign = if n == 0 {
                Sign::Plus
            } else {
                self.sign
            };
            Frac { sign, numer: n, denom: d }
        } else {
            let (n, d) = magnitude_difference(s, t, p, q);
            proof {
                lemma_zero_numerator(n as nat, d as nat, (s * q - p * t) as nat, (t * q) as nat);
                if self.sign == Sign::Minus {
                    assert(n * (q * t) == ((-(p as int)) * t + (s as int) * q) * d)
                        by (nonlinear_arith)
                        requires
                            n * (t * q) == (s * q - p * t) * d,
                    ;
                } else {
                    assert((-n) * (q * t) == ((p as int) * t + (-(s as int)) * q) * d)
                        by (nonlinear_arith)
                        requires
                            n * (t * q) == (s * q - p * t) * d,
                    ;
                }
            }
            Frac { sign: other.sign, numer: n, denom: d }
        }
    }

    /// Exact difference, in lowest terms.
    pub fn sub(self, other: Frac) -> (r: Frac)
        requires
            sum_fits(self@, negation_of(other@)),
        ensures
            match sum_of(self@, negation_of(other@)) {
                Rational::Finite { num, den } => reduces_to(r@, num, den),
                s => r@ == s,
            },
    {
        self.add(other.neg())
    }
}

impl PartialEq for Frac {
    fn eq(&self, other: &Frac) -> (r: bool) {
        if self.denom == 0 || other.denom == 0 {
            self.denom == 0 && other.denom == 0 && self.sign == other.sign
        } else {
            let (l, r) = self.cross_products(other);
            l == r
        }
    }
}

impl vstd::std_specs::cmp::PartialEqSpecImpl for Frac {
    open spec fn obeys_eq_spec() -> bool {
        true
    }

    open spec fn eq_spec(&self, other: &Frac) -> bool {
        same_value(self@, other@)
    }
}

impl Eq for Frac {

}

impl PartialOrd for Frac {
    fn partial_cmp(&self, other: &Frac) -> (r: Option<core::cmp::Ordering>) {
        if self.denom == 0 || other.denom == 0 {
            if self.denom == 0 && other.denom == 0 && self.sign == other.sign {
                Some(core::cmp::Ordering::Equal)
            } else if (self.denom == 0 && self.sign == Sign::Minus) || (other.denom == 0
                && other.sign == Sign::Plus) {
                Some(core::cmp::Ordering::Less)
            } else {
                Some(core::cmp::Ordering::Greater)
            }
        } else {
            let (l, r) = self.cross_products(other);
            if l == r {
                Some(core::cmp::Ordering::Equal)
            } else if l < r {
                Some(core::cmp::Ordering::Less)
            } else {
                Some(core::cmp::Ordering::Greater)
            }
        }
    }
}

impl vstd::std_specs::cmp::PartialOrdSpecImpl for Frac {
    open spec fn obeys_partial_cmp_spec() -> bool {
        true
    }

    open spec fn partial_cmp_spec(&self, other: &Frac) -> Option<core::cmp::Ordering> {
        Some(value_cmp(self@, other@))
    }
}

impl From<u32> for Frac {
    fn from(num: u32) -> (r: Frac) {
        proof {
            assert(gcd(num as nat, 1) == gcd(1, (num as nat) % 1));
            assert(gcd(1, 0) == 1);
        }
        Frac { sign: Sign::Plus, numer: num, denom: 1 }
    }
}

impl vstd::std_specs::convert::FromSpecImpl<u32> for Frac {
    open spec fn obeys_from_spec() -> bool {
        true
    }

    closed spec fn from_spec(v: u32) -> Frac {
        Frac { sign: Sign::Plus, numer: v, denom: 1 }
    }
}

impl From<u16> for Frac {
    fn from(num: u16) -> (r: Frac) {
        proof {
            assert(gcd(num as nat, 1) == gcd(1, (num as nat) % 1));
            assert(gcd(1, 0) == 1);
        }
        Frac { sign: Sign::Plus, numer: num as u32, denom: 1 }
    }
}

impl vstd::std_specs::convert::FromSpecImpl<u16> for Frac {
    open spec fn obeys_from_spec() -> bool {
        true
    }

    closed spec fn from_spec(v: u16) -> Frac {
        Frac { sign: Sign::Plus, numer: v as u32, denom: 1 }
    }
}

/// `Frac::from(n)` is the value `n / 1`.
pub proof fn lemma_from_integer(n: u32, m: u16)
    ensures
        <Frac as vstd::std_specs::convert::FromSpec<u32>>::from_spec(n)@ == (Rational::Finite {
            num: n as int,
            den: 1,
        }),
        <Frac as vstd::std_specs::convert::FromSpec<u16>>::from_spec(m)@ == (Rational::Finite {
            num: m as int,
            den: 1,
        }),
{
}

/// The value of every `Frac` has a positive denominator or is an infinity.
pub proof fn lemma_frac_valid(f: Frac)
    ensures
        is_valid(f@),
{
}

/// For `a/b` and `c/d` with `b, d > 0`: the sum of the fractions made from them
/// (`x` and `y`, as `new` gives them; `r`, as `add` gives it) is `(a*d + c*b) / (b*d)`
/// in lowest terms.
pub proof fn lemma_sum_of_fractions(
    a: int,
    b: int,
    c: int,
    d: int,
    x: Rational,
    y: Rational,
    r: Rational,
)
    requires
        b > 0,
        d > 0,
        reduces_to(x, a, b),
        reduces_to(y, c, d),
        match sum_of(x, y) {
            Rational::Finite { num, den } => reduces_to(r, num, den),
            _ => false,
        },
    ensures
        reduces_to(r, a * d + c * b, b * d),
{
    if let (
        Rational::Finite { num: p, den: q },
        Rational::Finite { num: s, den: t },
        Rational::Finite { num: n, den: m },
    ) = (x, y, r) {
        assert(q * t > 0) by (nonlinear_arith)
            requires
                q > 0,
                t > 0,
        ;
        let pb = p * b;
        let sd = s * d;
        let e = n * (q * t);
        assert((q * t) * (n * (b * d)) == e * (b * d)) by (nonlinear_arith)
            requires
                e == n * (q * t),
        ;
        assert(e * (b * d) == ((p * t + s * q) * m) * (b * d)) by (nonlinear_arith)
            requires
                e == (p * t + s * q) * m,
        ;
        let x1 = p * t;
        let y1 = s * q;
        let u = b * d;
        assert(((x1 + y1) * m) * u == (x1 * u + y1 * u) * m) by (nonlinear_arith);
        assert((p * t) * (b * d) == (p * b) * (t * d)) by (nonlinear_arith);
        assert((s * q) * (b * d) == (s * d) * (q * b)) by (nonlinear_arith);
        assert(((p * t + s * q) * m) * (b * d) == (pb * (t * d) + sd * (q * b)) * m);
        assert(pb * (t * d) == (a * q) * (t * d));
        assert(sd * (q * b) == (c * t) * (q * b));
        let w = q * t;
        let v1 = a * d;
        let v2 = c * b;
        assert((a * q) * (t * d) == (q * t) * (a * d)) by (nonlinear_arith);
        assert((c * t) * (q * b) == (q * t) * (c * b)) by (nonlinear_arith);
        assert((w * v1 + w * v2) * m == w * ((v1 + v2) * m)) by (nonlinear_arith);
        assert((q * t) * (n * (b * d)) == (q * t) * ((a * d + c * b) * m));
        assert(n * (b * d) == (a * d + c * b) * m) by (nonlinear_arith)
            requires
                (q * t) * (n * (b * d)) == (q * t) * ((a * d + c * b) * m),
                q * t > 0,
        ;
        assert(b * d > 0) by (nonlinear_arith)
            requires
                b > 0,
                d > 0,
        ;
    }
}

/// The order on values is antisymmetric.
pub proof fn lemma_le_antisymmetric(a: Rational, b: Rational)
    requires
        is_valid(a),
        is_valid(b),
        value_le(a, b),
        value_le(b, a),
    ensures
        same_value(a, b),
{
}

/// The order on values is transitive.
pub proof fn lemma_le_transitive(a: Rational, b: Rational, c: Rational)
    requires
        is_valid(a),
        is_valid(b),
        is_valid(c),
        value_le(a, b),
        value_le(b, c),
    ensures
        value_le(a, c),
{
    if let (
        Rational::Finite { num: p, den: q },
        Rational::Finite { num: s, den: t },
        Rational::Finite { num: u, den: v },
    ) = (a, b, c) {
        assert(p * v <= u * q) by (nonlinear_arith)
            requires
                p * t <= s * q,
                s * v <= u * t,
                q > 0,
                t > 0,
                v > 0,
        {
            assert(p * t * v <= s * q * v);
            assert(s * v * q <= u * t * q);
            assert(p * v * t <= u * q * t);
        }
    }
}

/// The order on values is total.
pub proof fn lemma_le_total(a: Rational, b: Rational)
    requires
        is_valid(a),
        is_valid(b),
    ensures
        value_le(a, b) || value_le(b, a),
{
}

} // verus!
