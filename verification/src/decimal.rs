//! Decimal numbers, held exactly as fractions in lowest terms.
use vstd::prelude::*;

verus! {

/// The greatest common divisor, by Euclid's recursion.
pub open spec fn gcd(a: nat, b: nat) -> nat
    decreases b,
{
    if b == 0 {
        a
    } else {
        gcd(b, a % b)
    }
}

/// The absolute value.
pub open spec fn magnitude(n: int) -> nat {
    if n < 0 {
        (-n) as nat
    } else {
        n as nat
    }
}

/// The fraction `n / d` in lowest terms, with a positive denominator.
pub open spec fn lowest_terms(n: int, d: int) -> (int, int)
    recommends
        d != 0,
{
    let g = gcd(magnitude(n), magnitude(d)) as int;
    let p = (magnitude(n) as int) / g;
    let q = (magnitude(d) as int) / g;
    if (n < 0) == (d < 0) {
        (p, q)
    } else {
        (-p, q)
    }
}

/// Whether a fraction is in lowest terms.
pub open spec fn reduced(n: int, d: int) -> bool {
    d > 0 && lowest_terms(n, d) == (n, d)
}

/// Whether a number fits an `i64`.
pub open spec fn fits(n: int) -> bool {
    i64::MIN <= n <= i64::MAX
}

/// Euclid's recursion ends in a positive number that divides both its arguments.
pub proof fn lemma_gcd_divides(a: nat, b: nat)
    requires
        a > 0 || b > 0,
    ensures
        gcd(a, b) > 0,
        a % gcd(a, b) == 0,
        b % gcd(a, b) == 0,
    decreases b,
{
    if b == 0 {
        assert(a % a == 0) by (nonlinear_arith)
            requires
                a > 0,
        ;
    } else {
        lemma_gcd_divides(b, a % b);
        let g = gcd(b, a % b);
        vstd::arithmetic::div_mod::lemma_fundamental_div_mod(a as int, b as int);
        vstd::arithmetic::div_mod::lemma_fundamental_div_mod(b as int, g as int);
        vstd::arithmetic::div_mod::lemma_fundamental_div_mod((a % b) as int, g as int);
        let m = (b / g) * (a / b) + (a % b) / g;
        assert(a == m * g) by (nonlinear_arith)
            requires
                a == b * (a / b) + a % b,
                b == g * (b / g),
                a % b == g * ((a % b) / g),
                m == (b / g) * (a / b) + (a % b) / g,
        ;
        vstd::arithmetic::div_mod::lemma_mod_multiples_basic(m as int, g as int);
    }
}

/// Putting a fraction in lowest terms does not change the number that it stands for,
/// and leaves a positive denominator, no larger than the one that was given.
pub proof fn lemma_lowest_terms_keeps_value(n: int, d: int)
    requires
        d != 0,
    ensures
        lowest_terms(n, d).0 * d == n * lowest_terms(n, d).1,
        0 < lowest_terms(n, d).1 <= magnitude(d),
        magnitude(lowest_terms(n, d).0) <= magnitude(n),
{
    let a = magnitude(n);
    let b = magnitude(d);
    let g = gcd(a, b);
    lemma_gcd_divides(a, b);
    vstd::arithmetic::div_mod::lemma_fundamental_div_mod(a as int, g as int);
    vstd::arithmetic::div_mod::lemma_fundamental_div_mod(b as int, g as int);
    let p = (a / g) as int;
    let q = (b / g) as int;
    assert(p * b == a * q) by (nonlinear_arith)
        requires
            a == g * p,
            b == g * q,
    ;
    assert(0 < q <= b) by (nonlinear_arith)
        requires
            b == g * q,
            b > 0,
            g > 0,
    ;
    assert(0 <= p <= a) by (nonlinear_arith)
        requires
            a == g * p,
            a >= 0,
            g > 0,
    ;
    assert((-p) * b == -(p * b)) by (nonlinear_arith);
    assert(p * (-b) == -(p * b)) by (nonlinear_arith);
    assert((-p) * (-b) == p * b) by (nonlinear_arith);
    assert((-a) * q == -(a * q)) by (nonlinear_arith);
}

/// A factor of both numbers is a factor of their greatest common divisor.
proof fn lemma_gcd_scales(a: nat, b: nat, k: nat)
    requires
        k > 0,
    ensures
        gcd(k * a, k * b) == k * gcd(a, b),
    decreases b,
{
    if b == 0 {
        assert(k * b == 0) by (nonlinear_arith)
            requires
                b == 0,
        ;
    } else {
        let q = (a / b) as int;
        let r = (a % b) as int;
        vstd::arithmetic::div_mod::lemma_fundamental_div_mod(a as int, b as int);
        assert(k * a == q * (k * b) + k * r) by (nonlinear_arith)
            requires
                a == b * q + r,
        ;
        assert(0 <= k * r < k * b) by (nonlinear_arith)
            requires
                0 <= r < b,
                k > 0,
        ;
        vstd::arithmetic::div_mod::lemma_fundamental_div_mod_converse(
            (k * a) as int,
            (k * b) as int,
            q,
            k * r,
        );
        lemma_gcd_scales(b, a % b, k);
    }
}

/// Multiplying both parts of a fraction does not change its lowest terms.
proof fn lemma_lowest_terms_scale(n: int, d: int, k: int)
    requires
        d != 0,
        k != 0,
    ensures
        lowest_terms(k * n, k * d) == lowest_terms(n, d),
{
    let a = magnitude(n);
    let b = magnitude(d);
    let m = magnitude(k);
    let g = gcd(a, b);
    assert(magnitude(k * n) == m * a) by (nonlinear_arith)
        requires
            a == magnitude(n),
            m == magnitude(k),
    ;
    assert(magnitude(k * d) == m * b) by (nonlinear_arith)
        requires
            b == magnitude(d),
            m == magnitude(k),
    ;
    lemma_gcd_scales(a, b, m);
    lemma_gcd_divides(a, b);
    vstd::arithmetic::div_mod::lemma_fundamental_div_mod(a as int, g as int);
    vstd::arithmetic::div_mod::lemma_fundamental_div_mod(b as int, g as int);
    let p = (a / g) as int;
    let q = (b / g) as int;
    assert(m * g > 0) by (nonlinear_arith)
        requires
            m > 0,
            g > 0,
    ;
    assert(m * a == p * (m * g)) by (nonlinear_arith)
        requires
            a == g * p,
    ;
    assert(m * b == q * (m * g)) by (nonlinear_arith)
        requires
            b == g * q,
    ;
    vstd::arithmetic::div_mod::lemma_fundamental_div_mod_converse(
        (m * a) as int,
        (m * g) as int,
        p,
        0,
    );
    vstd::arithmetic::div_mod::lemma_fundamental_div_mod_converse(
        (m * b) as int,
        (m * g) as int,
        q,
        0,
    );
    if n == 0 {
        assert(k * n == 0) by (nonlinear_arith)
            requires
                n == 0,
        ;
        assert(p == 0) by (nonlinear_arith)
            requires
                0 == g * p,
                g > 0,
        ;
    } else {
        assert((k * n < 0) == ((k < 0) != (n < 0))) by (nonlinear_arith)
            requires
                k != 0,
                n != 0,
        ;
    }
    assert((k * d < 0) == ((k < 0) != (d < 0))) by (nonlinear_arith)
        requires
            k != 0,
            d != 0,
    ;
}

/// Fractions of the same number have the same lowest terms: a decimal is written in one way
/// only.
pub proof fn lemma_lowest_terms_are_unique(n1: int, d1: int, n2: int, d2: int)
    requires
        d1 != 0,
        d2 != 0,
        n1 * d2 == n2 * d1,
    ensures
        lowest_terms(n1, d1) == lowest_terms(n2, d2),
{
    lemma_lowest_terms_scale(n1, d1, d2);
    lemma_lowest_terms_scale(n2, d2, d1);
    assert(d2 * n1 == d1 * n2) by (nonlinear_arith)
        requires
            n1 * d2 == n2 * d1,
    ;
    assert(d2 * d1 == d1 * d2) by (nonlinear_arith);
}

/// What is put in lowest terms is in lowest terms.
pub proof fn lemma_lowest_terms_are_reduced(n: int, d: int)
    requires
        d != 0,
    ensures
        reduced(lowest_terms(n, d).0, lowest_terms(n, d).1),
{
    let (p, q) = lowest_terms(n, d);
    lemma_lowest_terms_keeps_value(n, d);
    lemma_lowest_terms_are_unique(p, q, n, d);
}

/// A whole number over one is in lowest terms.
pub proof fn lemma_whole_number_is_reduced(n: int)
    ensures
        reduced(n, 1),
{
    let m = magnitude(n);
    assert(m % 1 == 0);
    reveal_with_fuel(gcd, 2);
    assert(gcd(m, 1) == 1);
    assert(magnitude(1) == 1);
    vstd::arithmetic::div_mod::lemma_div_basics(m as int);
    vstd::arithmetic::div_mod::lemma_div_basics(1);
}

/// Two fractions in lowest terms that are the same number are the same fraction.
pub proof fn lemma_reduced_fractions_are_one(n1: int, d1: int, n2: int, d2: int)
    requires
        reduced(n1, d1),
        reduced(n2, d2),
        n1 * d2 == n2 * d1,
    ensures
        n1 == n2,
        d1 == d2,
{
    lemma_lowest_terms_are_unique(n1, d1, n2, d2);
}

/// A fraction in lowest terms is the smallest of all fractions of the same number: any other has
/// parts at least as large, with the same signs.
pub proof fn lemma_lowest_terms_are_lowest(n: int, d: int, p: int, q: int)
    requires
        d != 0,
        q > 0,
        p * d == n * q,
    ensures
        ({
            let (x, y) = lowest_terms(n, d);
            &&& 0 < y <= q
            &&& p >= 0 ==> 0 <= x <= p
            &&& p <= 0 ==> p <= x <= 0
        }),
{
    let (x, y) = lowest_terms(n, d);
    lemma_lowest_terms_are_unique(n, d, p, q);
    lemma_lowest_terms_keeps_value(p, q);
    if p >= 0 {
        assert(x >= 0) by (nonlinear_arith)
            requires
                x * q == p * y,
                p >= 0,
                q > 0,
                y > 0,
        ;
    }
    if p <= 0 {
        assert(x <= 0) by (nonlinear_arith)
            requires
                x * q == p * y,
                p <= 0,
                q > 0,
                y > 0,
        ;
    }
}

/// The two parts of a fraction in lowest terms have no factor in common.
pub proof fn lemma_lowest_terms_have_no_common_factor(n: int, d: int, k: int, x: int, y: int)
    requires
        d != 0,
        k > 1,
    ensures
        lowest_terms(n, d) != (k * x, k * y),
{
    if lowest_terms(n, d) == (k * x, k * y) {
        let (p, q) = lowest_terms(n, d);
        lemma_lowest_terms_keeps_value(n, d);
        assert(y > 0) by (nonlinear_arith)
            requires
                k * y > 0,
                k > 1,
        ;
        assert(x * d == n * y) by (nonlinear_arith)
            requires
                (k * x) * d == n * (k * y),
                k > 1,
        ;
        lemma_lowest_terms_are_lowest(n, d, x, y);
        assert(y < k * y) by (nonlinear_arith)
            requires
                y > 0,
                k > 1,
        ;
    }
}

/// Whether some decimal is the number `n / d`: both its parts are machine integers.
pub open spec fn representable(n: int, d: int) -> bool {
    exists|p: int, q: int| #[trigger]
        is_fraction_of(p, q, n, d) && i64::MIN <= p <= i64::MAX && 0 < q <= i64::MAX
}

/// Whether `p / q` is the number `n / d`.
pub open spec fn is_fraction_of(p: int, q: int, n: int, d: int) -> bool {
    p * d == n * q
}

/// A number is held by some decimal exactly if its lowest terms fit.
pub proof fn lemma_representable(n: int, d: int)
    requires
        d != 0,
    ensures
        representable(n, d) <==> fits(lowest_terms(n, d).0) && fits(lowest_terms(n, d).1),
{
    let (x, y) = lowest_terms(n, d);
    lemma_lowest_terms_keeps_value(n, d);
    if fits(x) && fits(y) {
        assert(is_fraction_of(x, y, n, d));
    }
    if representable(n, d) {
        let (p, q) = choose|p: int, q: int| #[trigger]
            is_fraction_of(p, q, n, d) && i64::MIN <= p <= i64::MAX && 0 < q <= i64::MAX;
        lemma_lowest_terms_are_lowest(n, d, p, q);
    }
}

/// The greatest common divisor of two numbers that are not both nought.
fn greatest_common_divisor(a: u128, b: u128) -> (g: u128)
    requires
        a > 0 || b > 0,
    ensures
        g == gcd(a as nat, b as nat),
        g > 0,
{
    let mut x: u128 = a;
    let mut y: u128 = b;
    proof {
        lemma_gcd_divides(a as nat, b as nat);
    }
    while y != 0
        invariant
            gcd(x as nat, y as nat) == gcd(a as nat, b as nat),
            gcd(a as nat, b as nat) > 0,
        decreases y,
    {
        let r: u128 = x % y;
        x = y;
        y = r;
    }
    x
}

/// A decimal number, held exactly: a fraction of two machine integers, in lowest terms.
#[derive(Clone, Copy, Debug, PartialEq, Eq)]
pub struct Decimal {
    num: i64,
    den: i64,
}

impl Decimal {
    /// What holds of every decimal: it is in lowest terms, and both its parts fit.
    #[verifier::type_invariant]
    pub open spec fn inv(self) -> bool {
        reduced(self.num(), self.den()) && fits(self.num()) && fits(self.den())
    }

    /// The numerator.
    pub closed spec fn num(self) -> int {
        self.num as int
    }

    /// The denominator, which is positive.
    pub closed spec fn den(self) -> int {
        self.den as int
    }

    /// The numerator and the denominator.
    pub fn parts(&self) -> (r: (i64, i64))
        ensures
            r.0 == self.num(),
            r.1 == self.den(),
            self.inv(),
    {
        proof {
            use_type_invariant(self);
        }
        (self.num, self.den)
    }

    /// The whole number `v` as a decimal.
    pub fn from_int(v: i64) -> (r: Decimal)
        ensures
            r.num() == v,
            r.den() == 1,
    {
        proof {
            lemma_whole_number_is_reduced(v as int);
        }
        Decimal { num: v, den: 1 }
    }

    /// The fraction `n / d` in lowest terms, if its two parts fit.
    pub fn quotient(n: i128, d: i128) -> (r: Option<Decimal>)
        requires
            d != 0,
            n != i128::MIN,
            d != i128::MIN,
        ensures
            ({
                let (p, q) = lowest_terms(n as int, d as int);
                match r {
                    Some(x) => fits(p) && fits(q) && x.num() == p && x.den() == q,
                    None => !(fits(p) && fits(q)),
                }
            }),
    {
        let a: u128 = if n < 0 {
            (-n) as u128
        } else {
            n as u128
        };
        let b: u128 = if d < 0 {
            (-d) as u128
        } else {
            d as u128
        };
        let g: u128 = greatest_common_divisor(a, b);
        let p: u128 = a / g;
        let q: u128 = b / g;
        proof {
            lemma_lowest_terms_keeps_value(n as int, d as int);
            lemma_lowest_terms_are_reduced(n as int, d as int);
        }
        let max: u128 = i64::MAX as u128;
        if q > max {
            return None;
        }
        if (n < 0) == (d < 0) {
            if p > max {
                return None;
            }
            Some(Decimal { num: p as i64, den: q as i64 })
        } else {
            if p > max + 1 {
                return None;
            }
            Some(Decimal { num: (-(p as i128)) as i64, den: q as i64 })
        }
    }
}

} // verus!
