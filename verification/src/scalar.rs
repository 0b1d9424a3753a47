//! The scalar field: exact rational numbers.
//!
//! Every `Scalar` is kept in lowest terms with a positive denominator, so a
//! rational value has exactly one representation.  The arithmetic operations
//! return `None` when the reduced result does not fit in the 64-bit
//! components; on `Some` the result is exact.

use vstd::arithmetic::div_mod::{
    lemma_fundamental_div_mod, lemma_mod_multiples_basic, lemma_mod_self_0, lemma_small_mod,
};
use vstd::prelude::*;

verus! {

/// An exact rational scalar `num / den`, in lowest terms, with `den >= 1`.
#[derive(Clone, Copy, Debug)]
pub struct Scalar {
    pub num: i64,
    pub den: i64,
}

/// Magnitude of an integer.
pub open spec fn abs_val(x: int) -> int {
    if x < 0 {
        -x
    } else {
        x
    }
}

/// Greatest common divisor, by Euclid's algorithm.
pub open spec fn gcd(a: nat, b: nat) -> nat
    decreases b,
{
    if b == 0 {
        a
    } else {
        gcd(b, a % b)
    }
}

/// A value that fits in the `i64` component range used by `Scalar`
/// (the minimum is excluded so that negation is always possible).
pub open spec fn fits(x: int) -> bool {
    -(i64::MAX as int) <= x <= i64::MAX as int
}

/// Well-formed scalar: positive denominator, negatable numerator, lowest terms.
pub open spec fn s_wf(s: Scalar) -> bool {
    &&& 1 <= s.den
    &&& -(i64::MAX as int) <= s.num
    &&& gcd(abs_val(s.num as int) as nat, s.den as nat) == 1
}

/// The rational value `0`.
pub open spec fn zero_s() -> Scalar {
    Scalar { num: 0, den: 1 }
}

/// The rational value `1`.
pub open spec fn one_s() -> Scalar {
    Scalar { num: 1, den: 1 }
}

/// Two scalars denote the same rational number.
pub open spec fn eqv(a: Scalar, b: Scalar) -> bool {
    a.num * b.den == b.num * a.den
}

// ---------------------------------------------------------------------------
// Divisibility facts about gcd
// ---------------------------------------------------------------------------

/// If `g >= 1` divides `x` and `y`, it divides `q * x + y`.
proof fn lemma_mod_combo(q: int, x: int, y: int, g: int)
    requires
        g >= 1,
        x % g == 0,
        y % g == 0,
    ensures
        (q * x + y) % g == 0,
{
    lemma_fundamental_div_mod(x, g);
    lemma_fundamental_div_mod(y, g);
    let k = q * (x / g) + y / g;
    assert(q * x + y == k * g) by (nonlinear_arith)
        requires
            x == g * (x / g),
            y == g * (y / g),
            k == q * (x / g) + y / g,
    ;
    lemma_mod_multiples_basic(k, g);
}

/// Exact division: if `g` divides `a`, the quotient recovers `a`.
proof fn lemma_exact_div(a: int, g: int)
    requires
        g >= 1,
        a >= 0,
        a % g == 0,
    ensures
        a == g * (a / g),
        a / g >= 0,
        a > 0 ==> 1 <= a / g <= a,
        a == 0 ==> a / g == 0,
{
    lemma_fundamental_div_mod(a, g);
    assert(a / g >= 0) by (nonlinear_arith)
        requires
            g >= 1,
            a >= 0,
            a == g * (a / g),
    ;
    if a > 0 {
        assert(1 <= a / g <= a) by (nonlinear_arith)
            requires
                g >= 1,
                a > 0,
                a / g >= 0,
                a == g * (a / g),
        ;
    }
    if a == 0 {
        assert(a / g == 0) by (nonlinear_arith)
            requires
                g >= 1,
                a == 0,
                a / g >= 0,
                a == g * (a / g),
        ;
    }
}

/// The gcd divides both of its arguments and is at least 1.
pub proof fn lemma_gcd_divides(a: nat, b: nat)
    requires
        a > 0 || b > 0,
    ensures
        gcd(a, b) >= 1,
        (a as int) % (gcd(a, b) as int) == 0,
        (b as int) % (gcd(a, b) as int) == 0,
    decreases b,
{
    if b == 0 {
        lemma_mod_self_0(a as int);
        lemma_small_mod(0, a);
    } else {
        lemma_gcd_divides(b, a % b);
        let g = gcd(b, a % b) as int;
        lemma_fundamental_div_mod(a as int, b as int);
        lemma_mod_combo((a as int) / (b as int), b as int, ((a % b) as int), g);
        assert(a as int == ((a as int) / (b as int)) * (b as int) + ((a % b) as int))
            by (nonlinear_arith)
            requires
                b > 0,
                a as int == (b as int) * ((a as int) / (b as int)) + (a % b) as int,
        ;
    }
}

/// Any common divisor of `a` and `b` divides their gcd.
pub proof fn lemma_gcd_greatest(a: nat, b: nat, d: int)
    requires
        d >= 1,
        (a as int) % d == 0,
        (b as int) % d == 0,
    ensures
        (gcd(a, b) as int) % d == 0,
    decreases b,
{
    if b == 0 {
    } else {
        lemma_fundamental_div_mod(a as int, b as int);
        lemma_mod_combo(-((a as int) / (b as int)), b as int, a as int, d);
        assert((a % b) as int == -((a as int) / (b as int)) * (b as int) + a as int)
            by (nonlinear_arith)
            requires
                b > 0,
                a as int == (b as int) * ((a as int) / (b as int)) + (a % b) as int,
        ;
        lemma_gcd_greatest(b, a % b, d);
    }
}

/// Dividing both arguments by their gcd leaves coprime quotients.
pub proof fn lemma_gcd_coprime(a: nat, b: nat)
    requires
        a > 0 || b > 0,
    ensures
        gcd(a / gcd(a, b), b / gcd(a, b)) == 1,
{
    let g = gcd(a, b);
    lemma_gcd_divides(a, b);
    let a1 = a / g;
    let b1 = b / g;
    lemma_exact_div(a as int, g as int);
    lemma_exact_div(b as int, g as int);
    if a > 0 || b > 0 {
        assert(a1 > 0 || b1 > 0);
    }
    let d = gcd(a1, b1);
    lemma_gcd_divides(a1, b1);
    lemma_exact_div(a1 as int, d as int);
    lemma_exact_div(b1 as int, d as int);
    let gd = g * d;
    assert(a as int == ((a1 / d) as int) * (gd as int)) by (nonlinear_arith)
        requires
            a as int == (g as int) * (a1 as int),
            a1 as int == (d as int) * ((a1 / d) as int),
            gd == g * d,
    ;
    assert(b as int == ((b1 / d) as int) * (gd as int)) by (nonlinear_arith)
        requires
            b as int == (g as int) * (b1 as int),
            b1 as int == (d as int) * ((b1 / d) as int),
            gd == g * d,
    ;
    assert(gd >= 1) by (nonlinear_arith)
        requires
            g >= 1,
            d >= 1,
            gd == g * d,
    ;
    lemma_mod_multiples_basic((a1 / d) as int, gd as int);
    lemma_mod_multiples_basic((b1 / d) as int, gd as int);
    lemma_gcd_greatest(a, b, gd as int);
    lemma_exact_div(g as int, gd as int);
    assert(d == 1) by (nonlinear_arith)
        requires
            g >= 1,
            d >= 1,
            gd == g * d,
            g as int == (gd as int) * ((g as int) / (gd as int)),
            (g as int) / (gd as int) >= 1,
    ;
}

// ---------------------------------------------------------------------------
// Normalization: bring a raw fraction into lowest terms
// ---------------------------------------------------------------------------

/// Reduce the raw fraction `n / d` (with `d >= 1`) to lowest terms;
/// `None` when the reduced components do not fit in 64 bits.
pub open spec fn norm_spec(n: int, d: int) -> Option<Scalar>
    recommends
        d >= 1,
{
    let g = gcd(abs_val(n) as nat, d as nat) as int;
    let n1 = if n < 0 {
        -(abs_val(n) / g)
    } else {
        abs_val(n) / g
    };
    let d1 = d / g;
    if fits(n1) && fits(d1) {
        Some(Scalar { num: n1 as i64, den: d1 as i64 })
    } else {
        None
    }
}

/// What normalization guarantees: a well-formed result denoting `n / d`.
pub proof fn lemma_norm_spec(n: int, d: int)
    requires
        d >= 1,
    ensures
        match norm_spec(n, d) {
            Some(c) => s_wf(c) && c.num * d == n * c.den && (c.num == 0 <==> n == 0),
            None => true,
        },
{
    let m = abs_val(n);
    let g = gcd(m as nat, d as nat) as int;
    lemma_gcd_divides(m as nat, d as nat);
    lemma_exact_div(m, g);
    lemma_exact_div(d, g);
    lemma_gcd_coprime(m as nat, d as nat);
    let m1 = m / g;
    let d1 = d / g;
    if norm_spec(n, d) is Some {
        let c = norm_spec(n, d)->Some_0;
        assert(abs_val(c.num as int) == m1);
        assert(m1 * d == m * d1) by (nonlinear_arith)
            requires
                m == g * m1,
                d == g * d1,
        ;
        if n < 0 {
            assert(c.num * d == n * c.den) by (nonlinear_arith)
                requires
                    c.num as int == -m1,
                    c.den as int == d1,
                    n == -m,
                    m1 * d == m * d1,
            ;
        } else {
            assert(c.num * d == n * c.den);
        }
        if n == 0 {
            assert(c.num == 0);
        }
        if c.num == 0 {
            assert(m1 == 0);
            assert(m == g * 0);
        }
    }
}

/// A well-formed scalar is already normalized.
pub proof fn lemma_norm_id(s: Scalar)
    requires
        s_wf(s),
    ensures
        norm_spec(s.num as int, s.den as int) == Some(s),
{
    let m = abs_val(s.num as int);
    assert(gcd(m as nat, s.den as nat) == 1);
    assert(m / 1 == m);
    assert(s.den as int / 1 == s.den as int);
}

// ---------------------------------------------------------------------------
// Spec-level arithmetic
// ---------------------------------------------------------------------------

pub open spec fn add_spec(a: Scalar, b: Scalar) -> Option<Scalar> {
    norm_spec(a.num * b.den + b.num * a.den, a.den * b.den)
}

pub open spec fn sub_spec(a: Scalar, b: Scalar) -> Option<Scalar> {
    norm_spec(a.num * b.den - b.num * a.den, a.den * b.den)
}

pub open spec fn mul_spec(a: Scalar, b: Scalar) -> Option<Scalar> {
    norm_spec(a.num * b.num, a.den * b.den)
}

/// Division `a / b`, defined for `b` nonzero; the sign moves to the numerator.
pub open spec fn div_spec(a: Scalar, b: Scalar) -> Option<Scalar>
    recommends
        b.num != 0,
{
    if b.num >= 0 {
        norm_spec(a.num * b.den, a.den * b.num)
    } else {
        norm_spec(-(a.num * b.den), -(a.den * b.num))
    }
}

pub open spec fn neg_spec(a: Scalar) -> Scalar {
    Scalar { num: (-(a.num as int)) as i64, den: a.den }
}

pub open spec fn abs_spec(a: Scalar) -> Scalar {
    if a.num < 0 {
        neg_spec(a)
    } else {
        a
    }
}

/// Strict order on the denoted rationals.
pub open spec fn lt_spec(a: Scalar, b: Scalar) -> bool {
    a.num * b.den < b.num * a.den
}

/// `|a| > |b|` on the denoted rationals.
pub open spec fn mag_gt_spec(a: Scalar, b: Scalar) -> bool {
    abs_val(a.num as int) * b.den > abs_val(b.num as int) * a.den
}

pub proof fn lemma_gcd_one(m: nat)
    ensures
        gcd(m, 1) == 1,
{
    assert(m % 1 == 0);
    assert(gcd(m, 1) == gcd(1, 0));
}

/// `0` and `1` are well-formed.
pub proof fn lemma_wf_consts()
    ensures
        s_wf(zero_s()),
        s_wf(one_s()),
{
    lemma_gcd_one(0);
    lemma_gcd_one(1);
}

/// Bound on a product of two component-sized values.
proof fn lemma_prod_bound(x: int, y: int)
    ensures
        -(i64::MAX as int) <= x <= i64::MAX as int && -(i64::MAX as int) <= y <= i64::MAX as int
            ==> -(0x4000_0000_0000_0000_0000_0000_0000_0000int)
            < x * y < 0x4000_0000_0000_0000_0000_0000_0000_0000int,
        1 <= x <= i64::MAX as int && 1 <= y <= i64::MAX as int ==> 1 <= x * y,
{
    let m = i64::MAX as int;
    if -m <= x <= m && -m <= y <= m {
        assert(x * y <= m * m && -(m * m) <= x * y) by (nonlinear_arith)
            requires
                -m <= x <= m,
                -m <= y <= m,
        ;
    }
    if 1 <= x <= m && 1 <= y <= m {
        assert(1 <= x * y) by (nonlinear_arith)
            requires
                1 <= x,
                1 <= y,
        ;
    }
}

/// Bound on a product of two arbitrary `i64` values.
proof fn lemma_prod_bound_full(x: int, y: int)
    requires
        i64::MIN as int <= x <= i64::MAX as int,
        i64::MIN as int <= y <= i64::MAX as int,
    ensures
        -(0x4000_0000_0000_0000_0000_0000_0000_0000int) <= x * y
            <= 0x4000_0000_0000_0000_0000_0000_0000_0000int,
{
    let b = 0x8000_0000_0000_0000int;
    assert(-(b * b) <= x * y <= b * b) by (nonlinear_arith)
        requires
            -b <= x <= b,
            -b <= y <= b,
    ;
}

// ---------------------------------------------------------------------------
// Executable arithmetic
// ---------------------------------------------------------------------------

/// Euclid's algorithm.
fn gcd_exec(a0: u128, b0: u128) -> (g: u128)
    ensures
        g as nat == gcd(a0 as nat, b0 as nat),
{
    let mut a: u128 = a0;
    let mut b: u128 = b0;
    while b != 0
        invariant
            gcd(a as nat, b as nat) == gcd(a0 as nat, b0 as nat),
        decreases b,
    {
        let t: u128 = a % b;
        a = b;
        b = t;
    }
    a
}

/// Reduce `n / d` to lowest terms, as `norm_spec` describes.
fn norm_exec(n: i128, d: i128) -> (r: Option<Scalar>)
    requires
        1 <= d,
        -i128::MAX <= n,
    ensures
        r == norm_spec(n as int, d as int),
        r is Some ==> s_wf(r->Some_0),
{
    proof {
        lemma_norm_spec(n as int, d as int);
    }
    let neg: bool = n < 0;
    let mag: u128 = if neg {
        (-n) as u128
    } else {
        n as u128
    };
    assert(mag as int == abs_val(n as int));
    proof {
        lemma_gcd_divides(mag as nat, d as nat);
    }
    let g: u128 = gcd_exec(mag, d as u128);
    let n1: u128 = mag / g;
    let d1: u128 = (d as u128) / g;
    if n1 <= (i64::MAX as u128) && d1 <= (i64::MAX as u128) {
        let num: i64 = if neg {
            -(n1 as i64)
        } else {
            n1 as i64
        };
        Some(Scalar { num, den: d1 as i64 })
    } else {
        None
    }
}

impl Scalar {
    /// The additive identity.
    pub fn zero() -> (r: Scalar)
        ensures
            r == zero_s(),
            s_wf(r),
    {
        proof {
            lemma_wf_consts();
        }
        Scalar { num: 0, den: 1 }
    }

    /// The multiplicative identity.
    pub fn one() -> (r: Scalar)
        ensures
            r == one_s(),
            s_wf(r),
    {
        proof {
            lemma_wf_consts();
        }
        Scalar { num: 1, den: 1 }
    }

    /// The integer `n` as a scalar.
    pub fn from_int(n: i64) -> (r: Scalar)
        requires
            -(i64::MAX as int) <= n,
        ensures
            r == (Scalar { num: n, den: 1 }),
            s_wf(r),
    {
        proof {
            lemma_gcd_one(abs_val(n as int) as nat);
        }
        Scalar { num: n, den: 1 }
    }

    /// The fraction `num / den`, reduced; `None` when `den` is zero or the
    /// reduced components overflow.
    pub fn new(num: i64, den: i64) -> (r: Option<Scalar>)
        requires
            -(i64::MAX as int) <= num,
            -(i64::MAX as int) <= den,
        ensures
            r == new_spec(num as int, den as int),
            r is Some ==> s_wf(r->Some_0),
    {
        if den == 0 {
            None
        } else if den > 0 {
            norm_exec(num as i128, den as i128)
        } else {
            norm_exec(-(num as i128), -(den as i128))
        }
    }

    /// Whether this scalar is the additive identity.
    pub fn is_zero(&self) -> (r: bool)
        ensures
            r == (self.num == 0),
    {
        self.num == 0
    }

    /// Exact sum; `None` when the reduced result overflows.
    pub fn add(self, other: Scalar) -> (r: Option<Scalar>)
        requires
            s_wf(self),
            s_wf(other),
        ensures
            r == add_spec(self, other),
            r is Some ==> s_wf(r->Some_0),
    {
        proof {
            lemma_prod_bound(self.num as int, other.den as int);
            lemma_prod_bound(other.num as int, self.den as int);
            lemma_prod_bound(self.den as int, other.den as int);
        }
        let n: i128 = (self.num as i128) * (other.den as i128) + (other.num as i128) * (self.den
            as i128);
        let d: i128 = (self.den as i128) * (other.den as i128);
        norm_exec(n, d)
    }

    /// Exact difference; `None` when the reduced result overflows.
    pub fn sub(self, other: Scalar) -> (r: Option<Scalar>)
        requires
            s_wf(self),
            s_wf(other),
        ensures
            r == sub_spec(self, other),
            r is Some ==> s_wf(r->Some_0),
    {
        proof {
            lemma_prod_bound(self.num as int, other.den as int);
            lemma_prod_bound(other.num as int, self.den as int);
            lemma_prod_bound(self.den as int, other.den as int);
        }
        let n: i128 = (self.num as i128) * (other.den as i128) - (other.num as i128) * (self.den
            as i128);
        let d: i128 = (self.den as i128) * (other.den as i128);
        norm_exec(n, d)
    }

    /// Exact product; `None` when the reduced result overflows.
    pub fn mul(self, other: Scalar) -> (r: Option<Scalar>)
        requires
            s_wf(self),
            s_wf(other),
        ensures
            r == mul_spec(self, other),
            r is Some ==> s_wf(r->Some_0),
    {
        proof {
            lemma_prod_bound(self.num as int, other.num as int);
            lemma_prod_bound(self.den as int, other.den as int);
        }
        let n: i128 = (self.num as i128) * (other.num as i128);
        let d: i128 = (self.den as i128) * (other.den as i128);
        norm_exec(n, d)
    }

    /// Exact quotient; the divisor must be nonzero (a caller obligation).
    pub fn div(self, other: Scalar) -> (r: Option<Scalar>)
        requires
            s_wf(self),
            s_wf(other),
            other.num != 0,
        ensures
            r == div_spec(self, other),
            r is Some ==> s_wf(r->Some_0),
    {
        proof {
            lemma_prod_bound(self.num as int, other.den as int);
            lemma_prod_bound(self.den as int, other.num as int);
            if other.num < 0 {
                assert((self.den as int) * (other.num as int) <= -1) by (nonlinear_arith)
                    requires
                        1 <= self.den,
                        other.num <= -1,
                ;
            } else {
                assert(1 <= (self.den as int) * (other.num as int)) by (nonlinear_arith)
                    requires
                        1 <= self.den,
                        1 <= other.num,
                ;
            }
        }
        let n: i128 = (self.num as i128) * (other.den as i128);
        let d: i128 = (self.den as i128) * (other.num as i128);
        if other.num >= 0 {
            norm_exec(n, d)
        } else {
            norm_exec(-n, -d)
        }
    }

    /// Exact negation (never overflows).
    pub fn neg(self) -> (r: Scalar)
        requires
            s_wf(self),
        ensures
            r == neg_spec(self),
            s_wf(r),
    {
        Scalar { num: -self.num, den: self.den }
    }

    /// Exact absolute value (never overflows).
    pub fn abs(self) -> (r: Scalar)
        requires
            s_wf(self),
        ensures
            r == abs_spec(self),
            s_wf(r),
    {
        if self.num < 0 {
            Scalar { num: -self.num, den: self.den }
        } else {
            self
        }
    }

    /// Strict order on the denoted rationals.
    pub fn lt(&self, other: &Scalar) -> (r: bool)
        requires
            s_wf(*self),
            s_wf(*other),
        ensures
            r == lt_spec(*self, *other),
    {
        proof {
            lemma_prod_bound(self.num as int, other.den as int);
            lemma_prod_bound(other.num as int, self.den as int);
        }
        (self.num as i128) * (other.den as i128) < (other.num as i128) * (self.den as i128)
    }

    /// Whether `|self| > |other|` on the denoted rationals.
    pub fn mag_gt(&self, other: &Scalar) -> (r: bool)
        requires
            s_wf(*self),
            s_wf(*other),
        ensures
            r == mag_gt_spec(*self, *other),
    {
        let a: i128 = if self.num < 0 {
            -(self.num as i128)
        } else {
            self.num as i128
        };
        let b: i128 = if other.num < 0 {
            -(other.num as i128)
        } else {
            other.num as i128
        };
        proof {
            lemma_prod_bound(a as int, other.den as int);
            lemma_prod_bound(b as int, self.den as int);
        }
        a * (other.den as i128) > b * (self.den as i128)
    }
}

pub open spec fn new_spec(num: int, den: int) -> Option<Scalar> {
    if den == 0 {
        None
    } else if den > 0 {
        norm_spec(num, den)
    } else {
        norm_spec(-num, -den)
    }
}

impl PartialEq for Scalar {
    /// Equality of the denoted rationals.
    fn eq(&self, other: &Scalar) -> (r: bool) {
        proof {
            lemma_prod_bound_full(self.num as int, other.den as int);
            lemma_prod_bound_full(other.num as int, self.den as int);
        }
        (self.num as i128) * (other.den as i128) == (other.num as i128) * (self.den as i128)
    }
}

impl vstd::std_specs::cmp::PartialEqSpecImpl for Scalar {
    open spec fn obeys_eq_spec() -> bool {
        true
    }

    open spec fn eq_spec(&self, other: &Scalar) -> bool {
        eqv(*self, *other)
    }
}


// ---------------------------------------------------------------------------
// Identities of the exact arithmetic, used by the laws of the reduction
// ---------------------------------------------------------------------------

/// A well-formed scalar with numerator zero is exactly `0/1`.
pub proof fn lemma_wf_zero_is_zero(s: Scalar)
    requires
        s_wf(s),
        s.num == 0,
    ensures
        s == zero_s(),
{
    lemma_small_mod(0, s.den as nat);
    assert(gcd(0, s.den as nat) == gcd(s.den as nat, 0));
    assert(s.den == 1);
}

/// `0 / d` normalizes to the canonical zero.
proof fn lemma_norm_zero(d: int)
    requires
        d >= 1,
    ensures
        norm_spec(0, d) == Some(zero_s()),
{
    lemma_small_mod(0, d as nat);
    assert(gcd(0, d as nat) == gcd(d as nat, 0));
    vstd::arithmetic::div_mod::lemma_div_of0(d);
    vstd::arithmetic::div_mod::lemma_div_by_self(d);
}

/// `x / x` normalizes to the canonical one.
proof fn lemma_norm_same(x: int)
    requires
        x >= 1,
    ensures
        norm_spec(x, x) == Some(one_s()),
{
    lemma_mod_self_0(x);
    assert(gcd(x as nat, x as nat) == gcd(x as nat, 0));
    vstd::arithmetic::div_mod::lemma_div_by_self(x);
}

/// Multiplying by one changes nothing.
pub proof fn lemma_mul_one(a: Scalar)
    requires
        s_wf(a),
    ensures
        mul_spec(one_s(), a) == Some(a),
        mul_spec(a, one_s()) == Some(a),
{
    lemma_norm_id(a);
}

/// Adding zero changes nothing.
pub proof fn lemma_add_zero(a: Scalar)
    requires
        s_wf(a),
    ensures
        add_spec(a, zero_s()) == Some(a),
        add_spec(zero_s(), a) == Some(a),
{
    lemma_norm_id(a);
}

/// Multiplying by zero gives zero.
pub proof fn lemma_mul_zero(a: Scalar)
    requires
        s_wf(a),
    ensures
        mul_spec(zero_s(), a) == Some(zero_s()),
        mul_spec(a, zero_s()) == Some(zero_s()),
{
    lemma_norm_zero(a.den as int);
}

/// A scalar plus its negation is zero.
pub proof fn lemma_add_opp(a: Scalar)
    requires
        s_wf(a),
    ensures
        add_spec(a, neg_spec(a)) == Some(zero_s()),
{
    let d = (a.den as int) * (a.den as int);
    assert(d >= 1) by (nonlinear_arith)
        requires
            a.den >= 1,
            d == (a.den as int) * (a.den as int),
    ;
    assert(a.num * a.den + (neg_spec(a).num as int) * a.den == 0) by (nonlinear_arith)
        requires
            neg_spec(a).num as int == -(a.num as int),
    ;
    lemma_norm_zero(d);
}

/// A nonzero scalar divided by itself is one.
pub proof fn lemma_div_self(p: Scalar)
    requires
        s_wf(p),
        p.num != 0,
    ensures
        div_spec(p, p) == Some(one_s()),
{
    if p.num > 0 {
        let x = (p.num as int) * (p.den as int);
        assert(x >= 1) by (nonlinear_arith)
            requires
                p.num >= 1,
                p.den >= 1,
                x == (p.num as int) * (p.den as int),
        ;
        assert((p.den as int) * (p.num as int) == x) by (nonlinear_arith)
            requires
                x == (p.num as int) * (p.den as int),
        ;
        lemma_norm_same(x);
    } else {
        let x = -((p.num as int) * (p.den as int));
        assert(x >= 1) by (nonlinear_arith)
            requires
                p.num <= -1,
                p.den >= 1,
                x == -((p.num as int) * (p.den as int)),
        ;
        assert(-((p.den as int) * (p.num as int)) == x) by (nonlinear_arith)
            requires
                x == -((p.num as int) * (p.den as int)),
        ;
        lemma_norm_same(x);
    }
}

/// Dividing by one changes nothing.
pub proof fn lemma_div_one(a: Scalar)
    requires
        s_wf(a),
    ensures
        div_spec(a, one_s()) == Some(a),
{
    lemma_norm_id(a);
}

/// Zero divided by a nonzero scalar is zero.
pub proof fn lemma_div_zero(p: Scalar)
    requires
        s_wf(p),
        p.num != 0,
    ensures
        div_spec(zero_s(), p) == Some(zero_s()),
{
    assert((zero_s().num as int) * (p.den as int) == 0) by (nonlinear_arith);
    assert((zero_s().den as int) * (p.num as int) == p.num as int) by (nonlinear_arith);
    if p.num >= 0 {
        lemma_norm_zero(p.num as int);
    } else {
        lemma_norm_zero(-(p.num as int));
    }
}

/// What the spec operations guarantee of their results: well-formedness,
/// the exact cross-multiplied value, and when the result is zero.
pub proof fn lemma_mul_props(a: Scalar, b: Scalar)
    requires
        s_wf(a),
        s_wf(b),
    ensures
        mul_spec(a, b) is Some ==> s_wf(mul_spec(a, b)->Some_0),
        mul_spec(a, b) is Some ==> (mul_spec(a, b)->Some_0.num == 0 <==> a.num == 0 || b.num
            == 0),
{
    let d = (a.den as int) * (b.den as int);
    assert(d >= 1) by (nonlinear_arith)
        requires
            a.den >= 1,
            b.den >= 1,
            d == (a.den as int) * (b.den as int),
    ;
    lemma_norm_spec((a.num as int) * (b.num as int), d);
    assert((a.num as int) * (b.num as int) == 0 <==> a.num == 0 || b.num == 0)
        by (nonlinear_arith);
}

/// Division of a nonzero scalar by a nonzero scalar is nonzero when it is
/// representable, and the result is well-formed.
pub proof fn lemma_div_props(a: Scalar, b: Scalar)
    requires
        s_wf(a),
        s_wf(b),
        b.num != 0,
    ensures
        div_spec(a, b) is Some ==> s_wf(div_spec(a, b)->Some_0),
        div_spec(a, b) is Some ==> (div_spec(a, b)->Some_0.num == 0 <==> a.num == 0),
{
    if b.num >= 0 {
        let d = (a.den as int) * (b.num as int);
        assert(d >= 1) by (nonlinear_arith)
            requires
                a.den >= 1,
                b.num >= 1,
                d == (a.den as int) * (b.num as int),
        ;
        lemma_norm_spec((a.num as int) * (b.den as int), d);
        assert((a.num as int) * (b.den as int) == 0 <==> a.num == 0) by (nonlinear_arith)
            requires
                b.den >= 1,
        ;
    } else {
        let d = -((a.den as int) * (b.num as int));
        assert(d >= 1) by (nonlinear_arith)
            requires
                a.den >= 1,
                b.num <= -1,
                d == -((a.den as int) * (b.num as int)),
        ;
        lemma_norm_spec(-((a.num as int) * (b.den as int)), d);
        assert(-((a.num as int) * (b.den as int)) == 0 <==> a.num == 0) by (nonlinear_arith)
            requires
                b.den >= 1,
        ;
    }
}

/// An addition of well-formed scalars has a well-formed result.
pub proof fn lemma_add_props(a: Scalar, b: Scalar)
    requires
        s_wf(a),
        s_wf(b),
    ensures
        add_spec(a, b) is Some ==> s_wf(add_spec(a, b)->Some_0),
{
    let d = (a.den as int) * (b.den as int);
    assert(d >= 1) by (nonlinear_arith)
        requires
            a.den >= 1,
            b.den >= 1,
            d == (a.den as int) * (b.den as int),
    ;
    lemma_norm_spec((a.num as int) * (b.den as int) + (b.num as int) * (a.den as int), d);
}

} // verus!
