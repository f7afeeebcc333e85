//! Exact rational numbers over 64-bit components.
//!
//! A `Rational` stores a numerator and a positive denominator, both held
//! in an `i64`.  Results of arithmetic are always brought to lowest terms;
//! an operation whose reduced result does not fit the 64-bit components
//! reports `None` instead of rounding, so every value the library hands
//! out is exact.

use vstd::prelude::*;
use vstd::arithmetic::div_mod::{
    lemma_div_by_self, lemma_div_of0, lemma_fundamental_div_mod, lemma_mod_multiples_basic,
    lemma_mod_self_0, lemma_small_mod,
};
use vstd::arithmetic::mul::{
    lemma_mul_is_associative, lemma_mul_is_commutative, lemma_mul_is_distributive_add_other_way,
    lemma_mul_is_distributive_sub_other_way,
};

verus! {

/// An exact rational number: `num / den` with `den >= 1`.
///
/// Well-formed values (see [`Rational::wf`]) keep the numerator strictly
/// above `i64::MIN`, so the magnitude of every component fits `i64::MAX`.
#[derive(Clone, Copy, Debug, PartialEq, Eq, Structural)]
pub struct Rational {
    pub num: i64,
    pub den: i64,
}

impl View for Rational {
    type V = (int, int);

    open spec fn view(&self) -> (int, int) {
        (self.num as int, self.den as int)
    }
}

impl Rational {
    /// Representation invariant: positive denominator, numerator magnitude
    /// within `i64::MAX`.
    pub open spec fn wf(self) -> bool {
        1 <= self.den && -i64::MAX <= self.num
    }

    /// The whole number `n`.
    pub fn from_integer(n: i64) -> (r: Rational)
        requires
            n > i64::MIN,
        ensures
            r@ == (n as int, 1int),
            r.wf(),
    {
        Rational { num: n, den: 1 }
    }

    /// `num / den` in lowest terms; `None` when the denominator is not
    /// positive or the numerator is `i64::MIN`.
    pub fn new(num: i64, den: i64) -> (r: Option<Rational>)
        ensures
            match r {
                Some(s) => {
                    &&& den >= 1
                    &&& num > i64::MIN
                    &&& s@ == norm(num as int, den as int)
                    &&& pair_eq(s@, (num as int, den as int))
                    &&& s.wf()
                },
                None => den < 1 || num == i64::MIN,
            },
    {
        if den < 1 || num == i64::MIN {
            None
        } else {
            proof {
                lemma_norm(num as int, den as int);
            }
            let r = reduce128(num as i128, den as i128);
            assert(r is Some);
            r
        }
    }

    /// The decimal number `mantissa * 10^-scale` in lowest terms; `None`
    /// when the scale is beyond 18 (the last power of ten an `i64` holds)
    /// or the mantissa is `i64::MIN`.
    pub fn from_decimal(mantissa: i64, scale: u32) -> (r: Option<Rational>)
        ensures
            match r {
                Some(s) => {
                    &&& scale <= 18
                    &&& mantissa > i64::MIN
                    &&& s@ == norm(mantissa as int, pow10(scale as nat) as int)
                    &&& pair_eq(s@, (mantissa as int, pow10(scale as nat) as int))
                    &&& s.wf()
                },
                None => scale > 18 || mantissa == i64::MIN,
            },
    {
        if scale > 18 || mantissa == i64::MIN {
            return None;
        }
        proof {
            reveal_with_fuel(pow10, 19);
        }
        let mut d: i64 = 1;
        let mut i: u32 = 0;
        while i < scale
            invariant
                i <= scale <= 18,
                d == pow10(i as nat),
            decreases scale - i,
        {
            proof {
                lemma_pow10_le(i as nat, 17);
                assert(pow10(17) == 100_000_000_000_000_000) by {
                    reveal_with_fuel(pow10, 19);
                }
            }
            d = d * 10;
            i = i + 1;
        }
        proof {
            lemma_pow10_le(scale as nat, 18);
            assert(pow10(18) == 1_000_000_000_000_000_000) by {
                reveal_with_fuel(pow10, 19);
            }
            lemma_norm(mantissa as int, d as int);
        }
        let r = reduce128(mantissa as i128, d as i128);
        assert(r is Some);
        r
    }

    /// Exact sum, in lowest terms; `None` when the reduced result does not
    /// fit the 64-bit components.
    pub fn checked_add(self, other: Rational) -> (r: Option<Rational>)
        requires
            self.wf(),
            other.wf(),
        ensures
            opt_view(r) == rat_add_spec(self@, other@),
            r is Some ==> r.unwrap().wf(),
    {
        let an: i128 = self.num as i128;
        let ad: i128 = self.den as i128;
        let bn: i128 = other.num as i128;
        let bd: i128 = other.den as i128;
        proof {
            let m: int = i64::MAX as int;
            assert(-(m * m) <= an * bd <= m * m && -(m * m) <= bn * ad <= m * m && 1 <= ad * bd
                <= m * m) by (nonlinear_arith)
                requires
                    -m <= an <= m,
                    -m <= bn <= m,
                    1 <= ad <= m,
                    1 <= bd <= m,
            ;
        }
        let rn: i128 = an * bd + bn * ad;
        let rd: i128 = ad * bd;
        reduce128(rn, rd)
    }

    /// Exact difference, in lowest terms; `None` when the reduced result
    /// does not fit the 64-bit components.
    pub fn checked_sub(self, other: Rational) -> (r: Option<Rational>)
        requires
            self.wf(),
            other.wf(),
        ensures
            opt_view(r) == rat_sub_spec(self@, other@),
            r is Some ==> r.unwrap().wf(),
    {
        let an: i128 = self.num as i128;
        let ad: i128 = self.den as i128;
        let bn: i128 = other.num as i128;
        let bd: i128 = other.den as i128;
        proof {
            let m: int = i64::MAX as int;
            assert(-(m * m) <= an * bd <= m * m && -(m * m) <= bn * ad <= m * m && 1 <= ad * bd
                <= m * m) by (nonlinear_arith)
                requires
                    -m <= an <= m,
                    -m <= bn <= m,
                    1 <= ad <= m,
                    1 <= bd <= m,
            ;
        }
        let rn: i128 = an * bd - bn * ad;
        let rd: i128 = ad * bd;
        reduce128(rn, rd)
    }

    /// Exact product, in lowest terms; `None` when the reduced result does
    /// not fit the 64-bit components.
    pub fn checked_mul(self, other: Rational) -> (r: Option<Rational>)
        requires
            self.wf(),
            other.wf(),
        ensures
            opt_view(r) == rat_mul_spec(self@, other@),
            r is Some ==> r.unwrap().wf(),
    {
        let an: i128 = self.num as i128;
        let ad: i128 = self.den as i128;
        let bn: i128 = other.num as i128;
        let bd: i128 = other.den as i128;
        proof {
            let m: int = i64::MAX as int;
            assert(-(m * m) <= an * bn <= m * m && 1 <= ad * bd <= m * m) by (nonlinear_arith)
                requires
                    -m <= an <= m,
                    -m <= bn <= m,
                    1 <= ad <= m,
                    1 <= bd <= m,
            ;
        }
        let rn: i128 = an * bn;
        let rd: i128 = ad * bd;
        reduce128(rn, rd)
    }

    /// Exact quotient, in lowest terms; `None` when the reduced result
    /// does not fit the 64-bit components.  The divisor must not be zero.
    pub fn checked_div(self, other: Rational) -> (r: Option<Rational>)
        requires
            self.wf(),
            other.wf(),
            other.num != 0,
        ensures
            opt_view(r) == rat_div_spec(self@, other@),
            r is Some ==> r.unwrap().wf(),
    {
        let an: i128 = self.num as i128;
        let ad: i128 = self.den as i128;
        let bn: i128 = other.num as i128;
        let bd: i128 = other.den as i128;
        proof {
            let m: int = i64::MAX as int;
            assert(-(m * m) <= an * bd <= m * m && -(m * m) <= ad * bn <= m * m && (bn >= 1
                ==> ad * bn >= 1) && (bn <= -1 ==> ad * bn <= -1)) by (nonlinear_arith)
                requires
                    -m <= an <= m,
                    -m <= bn <= m,
                    1 <= ad <= m,
                    1 <= bd <= m,
            ;
        }
        if other.num > 0 {
            reduce128(an * bd, ad * bn)
        } else {
            reduce128(-(an * bd), -(ad * bn))
        }
    }

    /// Exact equality of rational values, whatever the representation.
    /// (`==` compares the components; on values built by this module's
    /// operations, which are always in lowest terms, the two agree.)
    pub fn eq_value(self, other: Rational) -> (b: bool)
        requires
            self.wf(),
            other.wf(),
        ensures
            b == pair_eq(self@, other@),
    {
        let an: i128 = self.num as i128;
        let ad: i128 = self.den as i128;
        let bn: i128 = other.num as i128;
        let bd: i128 = other.den as i128;
        proof {
            let m: int = i64::MAX as int;
            assert(-(m * m) <= an * bd <= m * m && -(m * m) <= bn * ad <= m * m)
                by (nonlinear_arith)
                requires
                    -m <= an <= m,
                    -m <= bn <= m,
                    1 <= ad <= m,
                    1 <= bd <= m,
            ;
        }
        an * bd == bn * ad
    }

    /// Exact order on rational values.
    pub fn lt(self, other: Rational) -> (b: bool)
        requires
            self.wf(),
            other.wf(),
        ensures
            b == pair_lt(self@, other@),
    {
        let an: i128 = self.num as i128;
        let ad: i128 = self.den as i128;
        let bn: i128 = other.num as i128;
        let bd: i128 = other.den as i128;
        proof {
            let m: int = i64::MAX as int;
            assert(-(m * m) <= an * bd <= m * m && -(m * m) <= bn * ad <= m * m)
                by (nonlinear_arith)
                requires
                    -m <= an <= m,
                    -m <= bn <= m,
                    1 <= ad <= m,
                    1 <= bd <= m,
            ;
        }
        an * bd < bn * ad
    }

    /// The value is zero.
    pub fn is_zero(self) -> (b: bool)
        requires
            self.wf(),
        ensures
            b == (self@.0 == 0),
    {
        self.num == 0
    }

    /// The value is strictly negative.
    pub fn is_negative(self) -> (b: bool)
        requires
            self.wf(),
        ensures
            b == (self@.0 < 0),
    {
        self.num < 0
    }

    /// The value is strictly positive.
    pub fn is_positive(self) -> (b: bool)
        requires
            self.wf(),
        ensures
            b == (self@.0 > 0),
    {
        self.num > 0
    }
}

/// Magnitude of an integer.
pub open spec fn int_abs(n: int) -> int {
    if n < 0 {
        -n
    } else {
        n
    }
}

/// The two pairs denote the same rational number (cross multiplication;
/// meaningful when both denominators are positive).
pub open spec fn pair_eq(p: (int, int), q: (int, int)) -> bool {
    p.0 * q.1 == q.0 * p.1
}

/// `p < q` as rational numbers (meaningful when both denominators are
/// positive).
pub open spec fn pair_lt(p: (int, int), q: (int, int)) -> bool {
    p.0 * q.1 < q.0 * p.1
}

/// `p <= q` as rational numbers (meaningful when both denominators are
/// positive).
pub open spec fn pair_le(p: (int, int), q: (int, int)) -> bool {
    p.0 * q.1 <= q.0 * p.1
}

/// Exact sum of two rational pairs, over a common denominator.
pub open spec fn pair_add(p: (int, int), q: (int, int)) -> (int, int) {
    (p.0 * q.1 + q.0 * p.1, p.1 * q.1)
}

/// Exact product of two rational pairs.
pub open spec fn pair_mul(p: (int, int), q: (int, int)) -> (int, int) {
    (p.0 * q.0, p.1 * q.1)
}

/// Exact quotient `p / q`, with the sign moved into the numerator so the
/// denominator stays positive (meaningful when `q.0 != 0`).
pub open spec fn pair_div(p: (int, int), q: (int, int)) -> (int, int) {
    if q.0 >= 0 {
        (p.0 * q.1, p.1 * q.0)
    } else {
        (-(p.0 * q.1), -(p.1 * q.0))
    }
}

/// Exact difference of two rational pairs, over a common denominator.
pub open spec fn pair_sub(p: (int, int), q: (int, int)) -> (int, int) {
    (p.0 * q.1 - q.0 * p.1, p.1 * q.1)
}

/// What `checked_add` returns: the exact sum in lowest terms, when it fits.
pub open spec fn rat_add_spec(a: (int, int), b: (int, int)) -> Option<(int, int)> {
    norm_opt(pair_add(a, b).0, pair_add(a, b).1)
}

/// What `checked_sub` returns: the exact difference in lowest terms, when
/// it fits.
pub open spec fn rat_sub_spec(a: (int, int), b: (int, int)) -> Option<(int, int)> {
    norm_opt(pair_sub(a, b).0, pair_sub(a, b).1)
}

/// What `checked_mul` returns: the exact product in lowest terms, when it
/// fits.
pub open spec fn rat_mul_spec(a: (int, int), b: (int, int)) -> Option<(int, int)> {
    norm_opt(pair_mul(a, b).0, pair_mul(a, b).1)
}

/// What `checked_div` returns: the exact quotient in lowest terms, when it
/// fits (meaningful when `b.0 != 0`).
pub open spec fn rat_div_spec(a: (int, int), b: (int, int)) -> Option<(int, int)> {
    norm_opt(pair_div(a, b).0, pair_div(a, b).1)
}

/// `10^e`.
pub open spec fn pow10(e: nat) -> nat
    decreases e,
{
    if e == 0 {
        1
    } else {
        10 * pow10((e - 1) as nat)
    }
}

/// `pow10` grows monotonically.
proof fn lemma_pow10_le(i: nat, j: nat)
    requires
        i <= j,
    ensures
        pow10(i) <= pow10(j),
    decreases j,
{
    if i < j {
        lemma_pow10_le(i, (j - 1) as nat);
    }
}

/// Greatest common divisor by Euclid's algorithm.
pub open spec fn gcd(a: nat, b: nat) -> nat
    decreases b,
{
    if b == 0 {
        a
    } else {
        gcd(b, a % b)
    }
}

/// The gcd of two numbers, not both zero, is positive and divides both.
pub proof fn lemma_gcd_divides(a: nat, b: nat)
    requires
        a > 0 || b > 0,
    ensures
        gcd(a, b) >= 1,
        (a as int) % (gcd(a, b) as int) == 0,
        (b as int) % (gcd(a, b) as int) == 0,
    decreases b,
{
    let g = gcd(a, b) as int;
    if b == 0 {
        lemma_mod_self_0(a as int);
    } else {
        let r = a % b;
        lemma_gcd_divides(b, r);
        assert(g >= 1);
        lemma_fundamental_div_mod(a as int, b as int);
        lemma_fundamental_div_mod(b as int, g);
        lemma_fundamental_div_mod(r as int, g);
        let q = a as int / b as int;
        let kb = b as int / g;
        let kr = r as int / g;
        assert(a as int == (kb * q + kr) * g) by (nonlinear_arith)
            requires
                a as int == b as int * q + r,
                b as int == g * kb + 0,
                r as int == g * kr + 0,
        ;
        lemma_mod_multiples_basic(kb * q + kr, g);
    }
}

/// `p` brought to lowest terms (meaningful when `d >= 1`): both components
/// are divided by the gcd of the numerator's magnitude and the denominator.
pub open spec fn norm(n: int, d: int) -> (int, int) {
    let g = gcd(int_abs(n) as nat, d as nat) as int;
    (n / g, d / g)
}

/// The pair fits the components of a well-formed [`Rational`].
pub open spec fn fits_i64(p: (int, int)) -> bool {
    -i64::MAX <= p.0 <= i64::MAX && 1 <= p.1 <= i64::MAX
}

/// `p` in lowest terms when that fits a `Rational`, `None` otherwise.
pub open spec fn norm_opt(n: int, d: int) -> Option<(int, int)> {
    if fits_i64(norm(n, d)) {
        Some(norm(n, d))
    } else {
        None
    }
}

/// The pairs of an optional `Rational`, for stating what checked
/// operations return.
pub open spec fn opt_view(r: Option<Rational>) -> Option<(int, int)> {
    match r {
        Some(x) => Some(x@),
        None => None,
    }
}

/// Exact division: when `g` divides `x`, the Euclidean quotient recovers
/// `x` by multiplication, quotients keep signs, and magnitudes shrink.
pub proof fn lemma_div_exact(x: int, g: int)
    requires
        g >= 1,
        x % g == 0,
    ensures
        g * (x / g) == x,
        int_abs(x / g) <= int_abs(x),
        x >= 0 ==> x / g >= 0,
        x < 0 ==> x / g < 0,
        x >= 1 ==> 1 <= x / g <= x,
{
    lemma_fundamental_div_mod(x, g);
    let q = x / g;
    assert(g * q == x);
    assert(int_abs(q) <= int_abs(x) && (x >= 0 ==> q >= 0) && (x < 0 ==> q < 0) && (x >= 1
        ==> 1 <= q <= x)) by (nonlinear_arith)
        requires
            g >= 1,
            g * q == x,
    ;
}

/// Bringing a pair with a positive denominator to lowest terms keeps its
/// value, sign and component bounds.
pub proof fn lemma_norm(n: int, d: int)
    requires
        d >= 1,
    ensures
        ({
            let p = norm(n, d);
            &&& 1 <= p.1 <= d
            &&& int_abs(p.0) <= int_abs(n)
            &&& pair_eq(p, (n, d))
            &&& (n > 0 ==> p.0 > 0)
            &&& (n == 0 ==> p.0 == 0)
            &&& (n < 0 ==> p.0 < 0)
        }),
{
    let g = gcd(int_abs(n) as nat, d as nat) as int;
    lemma_gcd_divides(int_abs(n) as nat, d as nat);
    if n < 0 {
        lemma_div_exact(-n, g);
        let k = (-n) / g;
        assert(n == (-k) * g) by (nonlinear_arith)
            requires
                g * k == -n,
        ;
        lemma_mod_multiples_basic(-k, g);
    }
    lemma_div_exact(n, g);
    lemma_div_exact(d, g);
    assert((n / g) * d == n * (d / g)) by (nonlinear_arith)
        requires
            g * (n / g) == n,
            g * (d / g) == d,
    ;
}

/// Greatest common divisor of two machine words, by Euclid's algorithm.
fn gcd_u128(a: u128, b: u128) -> (g: u128)
    requires
        a > 0 || b > 0,
    ensures
        g == gcd(a as nat, b as nat),
        g >= 1,
{
    let mut x: u128 = a;
    let mut y: u128 = b;
    while y != 0
        invariant
            gcd(x as nat, y as nat) == gcd(a as nat, b as nat),
            x > 0 || y > 0,
        decreases y,
    {
        let t: u128 = x % y;
        x = y;
        y = t;
    }
    x
}

/// Lowest-terms `Rational` for `n / d`, or `None` when the reduced
/// components do not fit an `i64`.
fn reduce128(n: i128, d: i128) -> (r: Option<Rational>)
    requires
        d >= 1,
        n > -i128::MAX - 1,
    ensures
        opt_view(r) == norm_opt(n as int, d as int),
        r is Some ==> r.unwrap().wf(),
{
    proof {
        lemma_norm(n as int, d as int);
    }
    let m: u128 = if n >= 0 {
        n as u128
    } else {
        (-n) as u128
    };
    let g: u128 = gcd_u128(m, d as u128);
    proof {
        lemma_gcd_divides(m as nat, d as nat);
        if n < 0 {
            let gi = g as int;
            lemma_div_exact(m as int, gi);
            let k = m as int / gi;
            assert(n as int == (-k) * gi) by (nonlinear_arith)
                requires
                    gi * k == m as int,
                    m as int == -(n as int),
            ;
            lemma_mod_multiples_basic(-k, gi);
            lemma_div_exact(n as int, gi);
            assert(n as int / gi == -(m as int / gi)) by (nonlinear_arith)
                requires
                    gi >= 1,
                    gi * (m as int / gi) == m as int,
                    gi * (n as int / gi) == n as int,
                    m as int == -(n as int),
            ;
        }
    }
    let nm: u128 = m / g;
    let dd: u128 = (d as u128) / g;
    if nm <= i64::MAX as u128 && dd <= i64::MAX as u128 {
        let num: i64 = if n >= 0 {
            nm as i64
        } else {
            -(nm as i64)
        };
        let den: i64 = dd as i64;
        Some(Rational { num, den })
    } else {
        None
    }
}

/// A reduced pair keeps the value of the pair it came from.
pub proof fn lemma_norm_opt_value(n: int, d: int)
    requires
        d >= 1,
    ensures
        match norm_opt(n, d) {
            Some(s) => pair_eq(s, (n, d)) && 1 <= s.1 && fits_i64(s),
            None => true,
        },
{
    lemma_norm(n, d);
}

/// A zero numerator always reduces to `0 / 1`.
pub proof fn lemma_norm_zero(d: int)
    requires
        d >= 1,
    ensures
        norm_opt(0, d) == Some((0int, 1int)),
{
    lemma_small_mod(0, d as nat);
    assert(gcd(0, d as nat) == d) by {
        assert(gcd(0, d as nat) == gcd(d as nat, (0 as nat) % (d as nat)));
    }
    lemma_div_of0(d);
    lemma_div_by_self(d);
}

/// Equality of rational values is transitive (for positive denominators).
pub proof fn lemma_pair_eq_trans(p: (int, int), q: (int, int), r: (int, int))
    requires
        p.1 >= 1,
        q.1 >= 1,
        r.1 >= 1,
        pair_eq(p, q),
        pair_eq(q, r),
    ensures
        pair_eq(p, r),
{
    assert(p.0 * r.1 == r.0 * p.1) by (nonlinear_arith)
        requires
            q.1 >= 1,
            p.0 * q.1 == q.0 * p.1,
            q.0 * r.1 == r.0 * q.1,
    ;
}

/// Sums and products of pairs with positive denominators keep positive
/// denominators.
pub proof fn lemma_pair_ops_wf(p: (int, int), q: (int, int))
    requires
        p.1 >= 1,
        q.1 >= 1,
    ensures
        pair_add(p, q).1 >= 1,
        pair_sub(p, q).1 >= 1,
        pair_mul(p, q).1 >= 1,
{
    assert(p.1 * q.1 >= 1) by (nonlinear_arith)
        requires
            p.1 >= 1,
            q.1 >= 1,
    ;
}

/// Re-grouping a product of four factors.
proof fn lemma_mul4(a: int, b: int, c: int, d: int)
    ensures
        (a * b) * (c * d) == (a * c) * (b * d),
        (a * b) * (c * d) == (a * d) * (b * c),
        (a * b) * (c * d) == (a * d) * (c * b),
{
    assert((a * b) * (c * d) == (a * c) * (b * d) && (a * b) * (c * d) == (a * d) * (b * c) && (a
        * b) * (c * d) == (a * d) * (c * b)) by (nonlinear_arith);
}

/// Adding equal values to equal values gives equal values.
pub proof fn lemma_pair_add_cong(p: (int, int), p2: (int, int), q: (int, int), q2: (int, int))
    requires
        p.1 >= 1,
        p2.1 >= 1,
        q.1 >= 1,
        q2.1 >= 1,
        pair_eq(p, p2),
        pair_eq(q, q2),
    ensures
        pair_eq(pair_add(p, q), pair_add(p2, q2)),
{
    let a: int = p.0;
    let b: int = p.1;
    let c: int = p2.0;
    let d: int = p2.1;
    let e: int = q.0;
    let f: int = q.1;
    let g: int = q2.0;
    let h: int = q2.1;
    lemma_mul_is_distributive_add_other_way(d * h, a * f, e * b);
    lemma_mul4(a, f, d, h);
    assert((a * d) * (f * h) == (c * b) * (f * h));
    lemma_mul4(c, b, f, h);
    lemma_mul4(e, b, d, h);
    assert((e * h) * (b * d) == (g * f) * (b * d));
    lemma_mul4(g, f, b, d);
    lemma_mul_is_distributive_add_other_way(b * f, c * h, g * d);
}

/// Multiplying equal values by equal values gives equal values.
pub proof fn lemma_pair_mul_cong(p: (int, int), p2: (int, int), q: (int, int), q2: (int, int))
    requires
        p.1 >= 1,
        p2.1 >= 1,
        q.1 >= 1,
        q2.1 >= 1,
        pair_eq(p, p2),
        pair_eq(q, q2),
    ensures
        pair_eq(pair_mul(p, q), pair_mul(p2, q2)),
{
    assert((p.0 * q.0) * (p2.1 * q2.1) == (p2.0 * q2.0) * (p.1 * q.1)) by (nonlinear_arith)
        requires
            p.0 * p2.1 == p2.0 * p.1,
            q.0 * q2.1 == q2.0 * q.1,
    ;
}

/// The order of rational values does not depend on the representation.
pub proof fn lemma_pair_lt_cong(p: (int, int), p2: (int, int), q: (int, int), q2: (int, int))
    requires
        p.1 >= 1,
        p2.1 >= 1,
        q.1 >= 1,
        q2.1 >= 1,
        pair_eq(p, p2),
        pair_eq(q, q2),
    ensures
        pair_lt(p, q) == pair_lt(p2, q2),
{
    let a = p.0 * q.1 - q.0 * p.1;
    let b = p2.0 * q2.1 - q2.0 * p2.1;
    assert(a * (p2.1 * q2.1) == b * (p.1 * q.1)) by {
        lemma_mul_is_distributive_sub_other_way(p2.1 * q2.1, p.0 * q.1, q.0 * p.1);
        lemma_mul4(p.0, q.1, p2.1, q2.1);
        assert((p.0 * p2.1) * (q.1 * q2.1) == (p2.0 * p.1) * (q.1 * q2.1));
        lemma_mul4(p2.0, p.1, q.1, q2.1);
        lemma_mul4(q.0, p.1, p2.1, q2.1);
        assert((q.0 * q2.1) * (p.1 * p2.1) == (q2.0 * q.1) * (p.1 * p2.1));
        lemma_mul4(q2.0, q.1, p.1, p2.1);
        lemma_mul_is_distributive_sub_other_way(p.1 * q.1, p2.0 * q2.1, q2.0 * p2.1);
    }
    assert((a < 0) == (b < 0)) by (nonlinear_arith)
        requires
            a * (p2.1 * q2.1) == b * (p.1 * q.1),
            p.1 >= 1,
            p2.1 >= 1,
            q.1 >= 1,
            q2.1 >= 1,
    ;
}

/// The order of rational values is transitive, in every strict and
/// non-strict combination (for positive denominators).
pub proof fn lemma_pair_order_trans(p: (int, int), q: (int, int), r: (int, int))
    requires
        p.1 >= 1,
        q.1 >= 1,
        r.1 >= 1,
    ensures
        pair_le(p, q) && pair_le(q, r) ==> pair_le(p, r),
        pair_lt(p, q) && pair_le(q, r) ==> pair_lt(p, r),
        pair_le(p, q) && pair_lt(q, r) ==> pair_lt(p, r),
        pair_lt(p, q) && pair_lt(q, r) ==> pair_lt(p, r),
{
    assert((p.0 * q.1 <= q.0 * p.1 && q.0 * r.1 <= r.0 * q.1 ==> p.0 * r.1 <= r.0 * p.1) && (p.0
        * q.1 < q.0 * p.1 && q.0 * r.1 <= r.0 * q.1 ==> p.0 * r.1 < r.0 * p.1) && (p.0 * q.1
        <= q.0 * p.1 && q.0 * r.1 < r.0 * q.1 ==> p.0 * r.1 < r.0 * p.1)) by (nonlinear_arith)
        requires
            p.1 >= 1,
            q.1 >= 1,
            r.1 >= 1,
    ;
}

/// A quotient with a positive divisor has a positive denominator, and
/// multiplying it back by the divisor recovers the dividend.
pub proof fn lemma_pair_div_mul_cancel(v: (int, int), f: (int, int))
    requires
        v.1 >= 1,
        f.0 > 0,
        f.1 >= 1,
    ensures
        pair_div(v, f).1 >= 1,
        pair_eq(pair_mul(f, pair_div(v, f)), v),
{
    assert(v.1 * f.0 >= 1) by (nonlinear_arith)
        requires
            v.1 >= 1,
            f.0 > 0,
    ;
    lemma_mul4(f.0, v.0, f.1, v.1);
    lemma_mul4(f.0, f.1, v.0, v.1);
    assert((f.0 * (v.0 * f.1)) * v.1 == (f.0 * v.0) * (f.1 * v.1)) by (nonlinear_arith);
    assert(v.0 * (f.1 * (v.1 * f.0)) == (f.0 * v.0) * (f.1 * v.1)) by (nonlinear_arith);
}

/// Scaling both sides by a positive value keeps the order.
pub proof fn lemma_pair_le_mul_left(c: (int, int), p: (int, int), q: (int, int))
    requires
        c.0 > 0,
        c.1 >= 1,
        p.1 >= 1,
        q.1 >= 1,
        pair_le(p, q),
    ensures
        pair_le(pair_mul(c, p), pair_mul(c, q)),
{
    let k = c.0 * c.1;
    assert(k > 0) by (nonlinear_arith)
        requires
            k == c.0 * c.1,
            c.0 > 0,
            c.1 >= 1,
    ;
    vstd::arithmetic::mul::lemma_mul_left_inequality(k, p.0 * q.1, q.0 * p.1);
    lemma_mul4(c.0, p.0, c.1, q.1);
    lemma_mul4(c.0, q.0, c.1, p.1);
    assert((c.0 * c.1) * (p.0 * q.1) == (c.0 * p.0) * (c.1 * q.1)) by (nonlinear_arith);
    assert((c.0 * c.1) * (q.0 * p.1) == (c.0 * q.0) * (c.1 * p.1)) by (nonlinear_arith);
}

/// Dividing two values by the same positive value keeps their order.
pub proof fn lemma_pair_lt_div_pos(x: (int, int), y: (int, int), t: (int, int))
    requires
        x.1 >= 1,
        y.1 >= 1,
        t.0 >= 1,
        t.1 >= 1,
    ensures
        pair_lt(pair_div(x, t), pair_div(y, t)) == pair_lt(x, y),
        pair_div(x, t).1 >= 1,
{
    lemma_mul4(x.0, t.1, y.1, t.0);
    lemma_mul4(y.0, t.1, x.1, t.0);
    assert(x.1 * t.0 >= 1 && t.1 * t.0 >= 1) by (nonlinear_arith)
        requires
            x.1 >= 1,
            t.0 >= 1,
            t.1 >= 1,
    ;
    assert(((x.0 * y.1) * (t.1 * t.0) < (y.0 * x.1) * (t.1 * t.0)) == (x.0 * y.1 < y.0 * x.1))
        by (nonlinear_arith)
        requires
            t.1 * t.0 >= 1,
    ;
}

/// Subtracting one from two values keeps their order; subtracting the two
/// values from one reverses it.
pub proof fn lemma_pair_lt_sub_one(p: (int, int), q: (int, int))
    requires
        p.1 >= 1,
        q.1 >= 1,
    ensures
        pair_lt(pair_sub(p, (1int, 1int)), pair_sub(q, (1int, 1int))) == pair_lt(p, q),
        pair_lt(pair_sub((1int, 1int), p), pair_sub((1int, 1int), q)) == pair_lt(q, p),
{
    lemma_mul_is_distributive_sub_other_way(q.1, p.0, p.1);
    lemma_mul_is_distributive_sub_other_way(p.1, q.0, q.1);
    lemma_mul_is_distributive_sub_other_way(q.1, p.1, p.0);
    lemma_mul_is_distributive_sub_other_way(p.1, q.1, q.0);
    lemma_mul_is_commutative(p.1, q.1);
}

/// Multiplication of values distributes over their addition.
pub proof fn lemma_pair_mul_distributes(a: (int, int), b: (int, int), c: (int, int))
    requires
        a.1 >= 1,
        b.1 >= 1,
        c.1 >= 1,
    ensures
        pair_eq(pair_mul(pair_add(a, b), c), pair_add(pair_mul(a, c), pair_mul(b, c))),
{
    let x: int = a.0;
    let y: int = a.1;
    let u: int = b.0;
    let v: int = b.1;
    let s: int = c.0;
    let t: int = c.1;
    let l = pair_mul(pair_add(a, b), c);
    let r = pair_add(pair_mul(a, c), pair_mul(b, c));
    assert(r.1 == l.1 * t) by {
        lemma_mul4(y, t, v, t);
        lemma_mul_is_associative(y * v, t, t);
    }
    assert(r.0 == l.0 * t) by {
        lemma_mul_is_distributive_add_other_way(s, x * v, u * y);
        lemma_mul_is_distributive_add_other_way(t, (x * v) * s, (u * y) * s);
        lemma_mul_is_associative(x * v, s, t);
        lemma_mul4(x, v, s, t);
        lemma_mul_is_associative(u * y, s, t);
        lemma_mul4(u, y, s, t);
    }
    assert(l.0 * r.1 == r.0 * l.1) by {
        lemma_mul_is_associative(l.0, l.1, t);
        lemma_mul_is_associative(l.0, t, l.1);
        lemma_mul_is_commutative(l.1, t);
        lemma_mul_is_commutative(l.0, t);
    }
}

} // verus!
