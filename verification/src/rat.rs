//! Reduced rational numbers over 64-bit integers.
//!
//! Every `Rat` that the engine hands around is in lowest terms with a
//! positive denominator, so equal values are structurally equal.  All
//! operations work through 128-bit intermediates and report `Overflow`
//! when a reduced result leaves the 64-bit range.

use vstd::prelude::*;
use vstd::arithmetic::div_mod::*;

use crate::eval::EvalError;

verus! {

/// Euclid's greatest common divisor.
pub open spec fn gcd(a: nat, b: nat) -> nat
    decreases b,
{
    if b == 0 {
        a
    } else {
        gcd(b, a % b)
    }
}

/// |x| as a natural number.
pub open spec fn nat_abs(x: int) -> nat {
    if x < 0 {
        (-x) as nat
    } else {
        x as nat
    }
}

/// The magnitude of the numerator of n/d in lowest terms.
pub open spec fn red_mag(n: int, d: int) -> int {
    (nat_abs(n) / gcd(nat_abs(n), nat_abs(d))) as int
}

/// The signed numerator of n/d in lowest terms (denominator kept positive).
pub open spec fn red_num(n: int, d: int) -> int {
    if (n < 0) <==> (d < 0) {
        red_mag(n, d)
    } else {
        -red_mag(n, d)
    }
}

/// The (positive) denominator of n/d in lowest terms.
pub open spec fn red_den(n: int, d: int) -> int {
    (nat_abs(d) / gcd(nat_abs(n), nat_abs(d))) as int
}

/// The gcd divides both arguments, and is zero only for gcd(0, 0).
proof fn lemma_gcd_divides(a: nat, b: nat)
    ensures
        gcd(a, b) == 0 <==> (a == 0 && b == 0),
        gcd(a, b) > 0 ==> a % gcd(a, b) == 0,
        gcd(a, b) > 0 ==> b % gcd(a, b) == 0,
    decreases b,
{
    if b == 0 {
        if a > 0 {
            lemma_mod_self_0(a as int);
        }
    } else {
        let r = a % b;
        lemma_gcd_divides(b, r);
        let g = gcd(b, r);
        assert(g == gcd(a, b));
        assert(g > 0) by {
            if g == 0 {
                assert(b == 0);
            }
        }
        lemma_fundamental_div_mod(a as int, b as int);
        lemma_fundamental_div_mod(b as int, g as int);
        lemma_fundamental_div_mod(r as int, g as int);
        let q = a as int / b as int;
        let kb = b as int / g as int;
        let kr = r as int / g as int;
        assert(a as int == b * q + r);
        assert(b as int == g * kb);
        assert(r as int == g * kr);
        assert(a as int == (kb * q + kr) * g) by (nonlinear_arith)
            requires
                a as int == b * q + r,
                b as int == g * kb,
                r as int == g * kr,
        ;
        lemma_mod_multiples_basic(kb * q + kr, g as int);
    }
}

/// Any common divisor of a and b divides gcd(a, b).
proof fn lemma_gcd_greatest(a: nat, b: nat, d: nat)
    requires
        d > 0,
        a % d == 0,
        b % d == 0,
    ensures
        gcd(a, b) % d == 0,
    decreases b,
{
    if b == 0 {
    } else {
        let r = a % b;
        lemma_fundamental_div_mod(a as int, b as int);
        lemma_fundamental_div_mod(a as int, d as int);
        lemma_fundamental_div_mod(b as int, d as int);
        let q = a as int / b as int;
        let ka = a as int / d as int;
        let kb = b as int / d as int;
        assert(r as int == (ka - kb * q) * d) by (nonlinear_arith)
            requires
                a as int == b * q + r,
                a as int == d * ka,
                b as int == d * kb,
        ;
        lemma_mod_multiples_basic(ka - kb * q, d as int);
        lemma_gcd_greatest(b, r, d);
    }
}

/// gcd(a, 1) == 1.
proof fn lemma_gcd_one(a: nat)
    ensures
        gcd(a, 1) == 1,
{
    lemma_mod_self_0(1);
    assert(a % 1 == 0) by (nonlinear_arith);
    assert(gcd(a, 1) == gcd(1, 0));
}

/// Dividing both arguments by their gcd leaves coprime quotients.
proof fn lemma_gcd_quotients_coprime(a: nat, b: nat)
    requires
        gcd(a, b) > 0,
    ensures
        gcd(a / gcd(a, b), b / gcd(a, b)) == 1,
{
    let g = gcd(a, b);
    lemma_gcd_divides(a, b);
    lemma_fundamental_div_mod(a as int, g as int);
    lemma_fundamental_div_mod(b as int, g as int);
    let a2 = a / g;
    let b2 = b / g;
    assert(a as int == g * a2);
    assert(b as int == g * b2);
    let g2 = gcd(a2, b2);
    lemma_gcd_divides(a2, b2);
    if g2 == 0 {
        assert(a2 == 0 && b2 == 0);
        assert(a == 0 && b == 0);
        assert(false);
    }
    if g2 != 1 {
        lemma_fundamental_div_mod(a2 as int, g2 as int);
        lemma_fundamental_div_mod(b2 as int, g2 as int);
        let a3 = a2 / g2;
        let b3 = b2 / g2;
        let d = g * g2;
        assert(d > 0 && d > g) by (nonlinear_arith)
            requires
                g > 0,
                g2 >= 2,
                d == g * g2,
        ;
        assert(a as int == a3 * d) by (nonlinear_arith)
            requires
                a as int == g * a2,
                a2 as int == g2 * a3,
                d == g * g2,
        ;
        assert(b as int == b3 * d) by (nonlinear_arith)
            requires
                b as int == g * b2,
                b2 as int == g2 * b3,
                d == g * g2,
        ;
        lemma_mod_multiples_basic(a3 as int, d as int);
        lemma_mod_multiples_basic(b3 as int, d as int);
        lemma_gcd_greatest(a, b, d as nat);
        lemma_small_mod(g, d as nat);
        assert(false);
    }
}

/// The reduced form of n/d keeps the value and is in lowest terms
/// (public form, with the division facts callers need).
pub proof fn lemma_reduced_parts(n: int, d: int)
    requires
        d != 0,
    ensures
        red_den(n, d) >= 1,
        gcd(nat_abs(red_num(n, d)), red_den(n, d) as nat) == 1,
        red_num(n, d) * d == n * red_den(n, d),
        red_mag(n, d) >= 0,
        nat_abs(n) as int == gcd(nat_abs(n), nat_abs(d)) * red_mag(n, d),
        nat_abs(d) as int == gcd(nat_abs(n), nat_abs(d)) * red_den(n, d),
        gcd(nat_abs(n), nat_abs(d)) >= 1,
        nat_abs(red_num(n, d)) == red_mag(n, d),
{
    lemma_reduced_props(n, d);
    let g = gcd(nat_abs(n), nat_abs(d));
    lemma_gcd_divides(nat_abs(n), nat_abs(d));
    lemma_fundamental_div_mod(nat_abs(n) as int, g as int);
    lemma_fundamental_div_mod(nat_abs(d) as int, g as int);
}

/// The reduced form of n/d keeps the value and is in lowest terms.
proof fn lemma_reduced_props(n: int, d: int)
    requires
        d != 0,
    ensures
        red_den(n, d) >= 1,
        gcd(nat_abs(red_num(n, d)), red_den(n, d) as nat) == 1,
        red_num(n, d) * d == n * red_den(n, d),
        red_mag(n, d) >= 0,
{
    let an = nat_abs(n);
    let ad = nat_abs(d);
    let g = gcd(an, ad);
    lemma_gcd_divides(an, ad);
    assert(g > 0);
    lemma_fundamental_div_mod(an as int, g as int);
    lemma_fundamental_div_mod(ad as int, g as int);
    let rn = an / g;
    let rd = ad / g;
    assert(an as int == g * rn);
    assert(ad as int == g * rd);
    assert(ad > 0);
    assert(rd >= 1) by (nonlinear_arith)
        requires
            ad as int == g * rd,
            ad > 0,
            rd >= 0,
    ;
    lemma_gcd_quotients_coprime(an, ad);
    assert(nat_abs(red_num(n, d)) == rn);
    assert(red_den(n, d) == rd);
    // value preservation by sign cases
    assert(rn * ad == an * rd) by (nonlinear_arith)
        requires
            an as int == g * rn,
            ad as int == g * rd,
    ;
    if (n < 0) <==> (d < 0) {
        if n < 0 {
            assert(red_num(n, d) * d == n * red_den(n, d)) by (nonlinear_arith)
                requires
                    n < 0,
                    d < 0,
                    an == -n,
                    ad == -d,
                    red_num(n, d) == rn,
                    red_den(n, d) == rd,
                    rn * ad == an * rd,
            ;
        } else {
            assert(red_num(n, d) * d == n * red_den(n, d)) by (nonlinear_arith)
                requires
                    n >= 0,
                    d > 0,
                    an == n,
                    ad == d,
                    red_num(n, d) == rn,
                    red_den(n, d) == rd,
                    rn * ad == an * rd,
            ;
        }
    } else {
        if n < 0 {
            assert(red_num(n, d) * d == n * red_den(n, d)) by (nonlinear_arith)
                requires
                    n < 0,
                    d > 0,
                    an == -n,
                    ad == d,
                    red_num(n, d) == -rn,
                    red_den(n, d) == rd,
                    rn * ad == an * rd,
            ;
        } else {
            assert(red_num(n, d) * d == n * red_den(n, d)) by (nonlinear_arith)
                requires
                    n >= 0,
                    d < 0,
                    an == n,
                    ad == -d,
                    red_num(n, d) == -rn,
                    red_den(n, d) == rd,
                    rn * ad == an * rd,
            ;
        }
    }
}

/// Euclid's algorithm on machine words.
fn gcd_u128(a: u128, b: u128) -> (g: u128)
    ensures
        g as nat == gcd(a as nat, b as nat),
    decreases b as nat,
{
    if b == 0 {
        a
    } else {
        gcd_u128(b, a % b)
    }
}

/// A rational number in lowest terms with a positive denominator.
#[derive(Clone, Copy, Debug, PartialEq, Eq, Structural)]
pub struct Rat {
    num: i64,
    den: i64,
}

impl Rat {
    /// The numerator, as a mathematical integer.
    pub closed spec fn n(self) -> int {
        self.num as int
    }

    /// The denominator, as a mathematical integer.
    pub closed spec fn d(self) -> int {
        self.den as int
    }

    /// Lowest terms with a positive denominator.
    pub open spec fn wf(self) -> bool {
        self.d() >= 1 && gcd(nat_abs(self.n()), self.d() as nat) == 1
    }

    /// Whether this rational and n2/d2 denote the same value.
    pub open spec fn same_ratio(self, n2: int, d2: int) -> bool {
        self.n() * d2 == n2 * self.d()
    }

    pub fn numer(&self) -> (r: i64)
        ensures
            r as int == self.n(),
    {
        self.num
    }

    pub fn denom(&self) -> (r: i64)
        ensures
            r as int == self.d(),
    {
        self.den
    }

    /// A whole number as a rational.
    pub fn from_int(n: i64) -> (r: Rat)
        ensures
            r.n() == n as int,
            r.d() == 1,
            r.wf(),
    {
        proof {
            lemma_gcd_one(nat_abs(n as int));
        }
        Rat { num: n, den: 1 }
    }

    /// Builds the reduced form of n/d, or reports that it does not exist
    /// in 64 bits.
    pub fn new(n: i64, d: i64) -> (r: Result<Rat, EvalError>)
        ensures
            d == 0 ==> r == Err::<Rat, EvalError>(EvalError::DivideByZero),
            d != 0 ==> r == rat_reduce_result(n as int, d as int),
    {
        if d == 0 {
            Err(EvalError::DivideByZero)
        } else {
            rat_reduce(n as i128, d as i128)
        }
    }
}

/// What reducing n/d yields: the canonical pair when it fits in 64 bits,
/// otherwise an overflow report.
pub open spec fn rat_reduce_result(n: int, d: int) -> Result<Rat, EvalError> {
    if i64::MIN <= red_num(n, d) <= i64::MAX && red_den(n, d) <= i64::MAX {
        Ok(spec_rat(red_num(n, d), red_den(n, d)))
    } else {
        Err(EvalError::Overflow)
    }
}

/// The Rat with the given parts (spec-level constructor).
pub closed spec fn spec_rat(n: int, d: int) -> Rat {
    Rat { num: n as i64, den: d as i64 }
}

pub broadcast proof fn lemma_spec_rat_parts(n: int, d: int)
    requires
        i64::MIN <= n <= i64::MAX,
        0 <= d <= i64::MAX,
    ensures
        (#[trigger] spec_rat(n, d)).n() == n,
        spec_rat(n, d).d() == d,
{
}

/// A reduced rational is well formed and keeps the value of n/d.
pub proof fn lemma_rat_reduce_ok(n: int, d: int)
    requires
        d != 0,
        rat_reduce_result(n, d) is Ok,
    ensures
        rat_reduce_result(n, d)->Ok_0.wf(),
        rat_reduce_result(n, d)->Ok_0.same_ratio(n, d),
        d >= 1 ==> rat_reduce_result(n, d)->Ok_0.d() <= d,
{
    lemma_reduced_props(n, d);
    lemma_spec_rat_parts(red_num(n, d), red_den(n, d));
    if d >= 1 {
        let ad = nat_abs(d);
        let g = gcd(nat_abs(n), ad);
        lemma_gcd_divides(nat_abs(n), ad);
        lemma_fundamental_div_mod(ad as int, g as int);
        assert(red_den(n, d) <= d) by (nonlinear_arith)
            requires
                g >= 1,
                ad as int == g * (ad as int / g as int),
                red_den(n, d) == ad as int / g as int,
                ad == d,
                red_den(n, d) >= 1,
        ;
    }
}

/// What adding two rationals yields.
pub open spec fn spec_rat_add(x: Rat, y: Rat) -> Result<Rat, EvalError> {
    rat_reduce_result(x.n() * y.d() + y.n() * x.d(), x.d() * y.d())
}

/// What subtracting two rationals yields.
pub open spec fn spec_rat_sub(x: Rat, y: Rat) -> Result<Rat, EvalError> {
    rat_reduce_result(x.n() * y.d() - y.n() * x.d(), x.d() * y.d())
}

/// What multiplying two rationals yields.
pub open spec fn spec_rat_mul(x: Rat, y: Rat) -> Result<Rat, EvalError> {
    rat_reduce_result(x.n() * y.n(), x.d() * y.d())
}

/// What dividing two rationals yields.
pub open spec fn spec_rat_div(x: Rat, y: Rat) -> Result<Rat, EvalError> {
    if y.n() == 0 {
        Err(EvalError::DivideByZero)
    } else {
        rat_reduce_result(x.n() * y.d(), x.d() * y.n())
    }
}

/// What negating a rational yields.
pub open spec fn spec_rat_neg(x: Rat) -> Result<Rat, EvalError> {
    rat_reduce_result(-x.n(), x.d())
}

/// The product of two 64-bit quantities stays within 2^126.
pub proof fn lemma_mul_bound_64(x: int, y: int)
    requires
        -0x8000_0000_0000_0000 <= x <= 0x7fff_ffff_ffff_ffff,
        -0x8000_0000_0000_0000 <= y <= 0x7fff_ffff_ffff_ffff,
    ensures
        -0x4000_0000_0000_0000_0000_0000_0000_0000 <= x * y
            <= 0x4000_0000_0000_0000_0000_0000_0000_0000,
{
    assert(-0x4000_0000_0000_0000_0000_0000_0000_0000 <= x * y
        <= 0x4000_0000_0000_0000_0000_0000_0000_0000) by (nonlinear_arith)
        requires
            -0x8000_0000_0000_0000 <= x <= 0x8000_0000_0000_0000,
            -0x8000_0000_0000_0000 <= y <= 0x8000_0000_0000_0000,
    ;
}

/// The product of a 64-bit signed value and a positive 64-bit signed
/// value stays strictly inside the 128-bit range, with room to add two.
pub proof fn lemma_mul_bound_num_den(x: int, y: int)
    requires
        -0x8000_0000_0000_0000 <= x <= 0x7fff_ffff_ffff_ffff,
        1 <= y <= 0x7fff_ffff_ffff_ffff,
    ensures
        -0x3fff_ffff_ffff_ffff_8000_0000_0000_0000 <= x * y
            <= 0x3fff_ffff_ffff_ffff_8000_0000_0000_0000,
{
    assert(-0x3fff_ffff_ffff_ffff_8000_0000_0000_0000 <= x * y
        <= 0x3fff_ffff_ffff_ffff_8000_0000_0000_0000) by (nonlinear_arith)
        requires
            -0x8000_0000_0000_0000 <= x <= 0x8000_0000_0000_0000,
            1 <= y <= 0x7fff_ffff_ffff_ffff,
    ;
}

/// The parts of a `Rat` are 64-bit values.
pub broadcast proof fn lemma_rat_range(p: Rat)
    ensures
        -0x8000_0000_0000_0000 <= #[trigger] p.n() <= 0x7fff_ffff_ffff_ffff,
        -0x8000_0000_0000_0000 <= #[trigger] p.d() <= 0x7fff_ffff_ffff_ffff,
{
}

/// Reducing a pair that is already coprime (with a positive denominator)
/// changes nothing.
pub proof fn lemma_red_of_coprime(n: int, d: int)
    requires
        d >= 1,
        gcd(nat_abs(n), nat_abs(d)) == 1,
    ensures
        red_num(n, d) == n,
        red_den(n, d) == d,
        red_mag(n, d) == nat_abs(n),
{
    assert(nat_abs(d) == d);
    assert(nat_abs(n) as int / 1 == nat_abs(n)) by (nonlinear_arith);
    assert(nat_abs(d) as int / 1 == nat_abs(d)) by (nonlinear_arith);
    assert(red_mag(n, d) == nat_abs(n));
    assert(red_den(n, d) == d);
}

/// gcd with one on the right is one (public form).
pub proof fn lemma_gcd_with_one(a: nat)
    ensures
        gcd(a, 1) == 1,
{
    lemma_gcd_one(a);
}

/// One is coprime to everything.
pub proof fn lemma_one_gcd(d: nat)
    ensures
        gcd(1, d) == 1,
{
    if d == 0 {
    } else if d == 1 {
        assert((1nat) % 1 == 0) by (nonlinear_arith);
        assert(gcd(1, 1) == gcd(1, 0));
    } else {
        lemma_small_mod(1, d);
        assert((1nat) % d == 1);
        assert((d as nat) % 1 == 0) by (nonlinear_arith)
            requires
                d >= 2,
        ;
        assert(gcd(1, d) == gcd(d, 1));
        assert(gcd(d, 1) == gcd(1, 0));
    }
}

/// The reduced denominator is one exactly when the divisor goes evenly
/// into the dividend.
pub proof fn lemma_reduced_den_one_iff_divisible(a: int, b: int)
    requires
        b != 0,
    ensures
        (red_den(a, b) == 1) <==> (if b == 0 { a == 0 } else { nat_abs(a) % nat_abs(b) == 0 }),
{
    let aa = nat_abs(a);
    let ab = nat_abs(b);
    let g = gcd(aa, ab);
    lemma_gcd_divides(aa, ab);
    assert(ab > 0);
    assert(g > 0);
    lemma_fundamental_div_mod(ab as int, g as int);
    lemma_fundamental_div_mod(aa as int, g as int);
    if red_den(a, b) == 1 {
        assert(ab as int == g * 1) by (nonlinear_arith)
            requires
                ab as int == g * (ab as int / g as int),
                ab as int / g as int == 1,
        ;
        assert(aa % ab == 0);
    }
    if aa % ab == 0 {
        lemma_mod_self_0(ab as int);
        lemma_gcd_greatest(aa, ab, ab);
        // g and ab divide each other, so they are equal
        lemma_fundamental_div_mod(g as int, ab as int);
        assert(g == ab) by (nonlinear_arith)
            requires
                g as int == (ab as int) * (g as int / ab as int),
                ab as int == g * (ab as int / g as int),
                g > 0,
                ab > 0,
        ;
        assert(ab as int / g as int == 1) by (nonlinear_arith)
            requires
                g == ab,
                ab as int == g * (ab as int / g as int),
                ab > 0,
        ;
        assert(red_den(a, b) == 1);
    }
}

/// Two rationals with the same parts are the same value.
pub proof fn lemma_rat_eq_parts(a: Rat, b: Rat)
    requires
        a.n() == b.n(),
        a.d() == b.d(),
    ensures
        a == b,
{
}

/// A well-formed fraction that is not a whole number is not zero.
pub proof fn lemma_wf_nonint_nonzero(q: Rat)
    requires
        q.wf(),
        q.d() != 1,
    ensures
        q.n() != 0,
{
    if q.n() == 0 {
        assert(nat_abs(0) == 0);
        assert((0int) % q.d() == 0) by (nonlinear_arith)
            requires
                q.d() >= 1,
        ;
        assert(gcd(0, q.d() as nat) == gcd(q.d() as nat, 0));
    }
}

/// A rational already in lowest terms reduces to itself.
pub proof fn lemma_rat_canonical(p: Rat)
    requires
        p.wf(),
    ensures
        rat_reduce_result(p.n(), p.d()) == Ok::<Rat, EvalError>(p),
{
    let n = p.n();
    let d = p.d();
    assert(nat_abs(d) == d);
    assert(gcd(nat_abs(n), nat_abs(d)) == 1);
    assert(nat_abs(n) as int / 1 == nat_abs(n)) by (nonlinear_arith);
    assert(nat_abs(d) as int / 1 == nat_abs(d)) by (nonlinear_arith);
    assert(red_mag(n, d) == nat_abs(n));
    assert(red_den(n, d) == d);
    assert(red_num(n, d) == n);
    assert(spec_rat(n, d) == p);
}

impl Rat {
    /// Exact sum.
    pub fn add(&self, other: &Rat) -> (r: Result<Rat, EvalError>)
        requires
            self.wf(),
            other.wf(),
        ensures
            r == spec_rat_add(*self, *other),
    {
        proof {
            lemma_mul_bound_num_den(self.n(), other.d());
            lemma_mul_bound_num_den(other.n(), self.d());
            lemma_mul_bound_64(self.d(), other.d());
            assert(self.d() * other.d() >= 1) by (nonlinear_arith)
                requires
                    self.d() >= 1,
                    other.d() >= 1,
            ;
        }
        let n: i128 = self.num as i128 * other.den as i128 + other.num as i128 * self.den as i128;
        let d: i128 = self.den as i128 * other.den as i128;
        rat_reduce(n, d)
    }

    /// Exact difference.
    pub fn sub(&self, other: &Rat) -> (r: Result<Rat, EvalError>)
        requires
            self.wf(),
            other.wf(),
        ensures
            r == spec_rat_sub(*self, *other),
    {
        proof {
            lemma_mul_bound_num_den(self.n(), other.d());
            lemma_mul_bound_num_den(other.n(), self.d());
            lemma_mul_bound_64(self.d(), other.d());
            assert(self.d() * other.d() >= 1) by (nonlinear_arith)
                requires
                    self.d() >= 1,
                    other.d() >= 1,
            ;
        }
        let n: i128 = self.num as i128 * other.den as i128 - other.num as i128 * self.den as i128;
        let d: i128 = self.den as i128 * other.den as i128;
        rat_reduce(n, d)
    }

    /// Exact product.
    pub fn mul(&self, other: &Rat) -> (r: Result<Rat, EvalError>)
        requires
            self.wf(),
            other.wf(),
        ensures
            r == spec_rat_mul(*self, *other),
    {
        proof {
            lemma_mul_bound_64(self.n(), other.n());
            lemma_mul_bound_64(self.d(), other.d());
            assert(self.d() * other.d() >= 1) by (nonlinear_arith)
                requires
                    self.d() >= 1,
                    other.d() >= 1,
            ;
        }
        let n: i128 = self.num as i128 * other.num as i128;
        let d: i128 = self.den as i128 * other.den as i128;
        rat_reduce(n, d)
    }

    /// Exact quotient; division by an exact zero is reported.
    pub fn div(&self, other: &Rat) -> (r: Result<Rat, EvalError>)
        requires
            self.wf(),
            other.wf(),
        ensures
            r == spec_rat_div(*self, *other),
    {
        if other.num == 0 {
            return Err(EvalError::DivideByZero);
        }
        proof {
            lemma_mul_bound_64(self.n(), other.d());
            lemma_mul_bound_64(self.d(), other.n());
            assert(self.d() * other.n() != 0) by (nonlinear_arith)
                requires
                    self.d() >= 1,
                    other.n() != 0,
            ;
        }
        let n: i128 = self.num as i128 * other.den as i128;
        let d: i128 = self.den as i128 * other.num as i128;
        rat_reduce(n, d)
    }

    /// Exact product with a whole number.
    pub fn mul_int(&self, k: i64) -> (r: Result<Rat, EvalError>)
        requires
            self.wf(),
        ensures
            r == rat_reduce_result(self.n() * k, self.d()),
    {
        let fi = Rat::from_int(k);
        let res = self.mul(&fi);
        proof {
            assert(self.n() * fi.n() == self.n() * k);
            assert(self.d() * fi.d() == self.d()) by (nonlinear_arith)
                requires
                    fi.d() == 1,
            ;
        }
        res
    }

    /// Exact quotient by a whole number.
    pub fn div_int(&self, k: i64) -> (r: Result<Rat, EvalError>)
        requires
            self.wf(),
        ensures
            k == 0 ==> r == Err::<Rat, EvalError>(EvalError::DivideByZero),
            k != 0 ==> r == rat_reduce_result(self.n(), self.d() * k),
    {
        let fi = Rat::from_int(k);
        let res = self.div(&fi);
        proof {
            assert(self.n() * fi.d() == self.n()) by (nonlinear_arith)
                requires
                    fi.d() == 1,
            ;
            assert(self.d() * fi.n() == self.d() * k);
        }
        res
    }

    /// Exact negation.
    pub fn neg(&self) -> (r: Result<Rat, EvalError>)
        requires
            self.wf(),
        ensures
            r == spec_rat_neg(*self),
    {
        rat_reduce(-(self.num as i128), self.den as i128)
    }

    /// Exact absolute value.
    pub fn abs(&self) -> (r: Result<Rat, EvalError>)
        requires
            self.wf(),
        ensures
            r == rat_reduce_result(nat_abs(self.n()) as int, self.d()),
    {
        let m: i128 = if self.num < 0 {
            -(self.num as i128)
        } else {
            self.num as i128
        };
        rat_reduce(m, self.den as i128)
    }

    /// Exact reciprocal; the reciprocal of zero is reported.
    pub fn recip(&self) -> (r: Result<Rat, EvalError>)
        requires
            self.wf(),
        ensures
            self.n() == 0 ==> r == Err::<Rat, EvalError>(EvalError::DivideByZero),
            self.n() != 0 ==> r == rat_reduce_result(self.d(), self.n()),
    {
        if self.num == 0 {
            return Err(EvalError::DivideByZero);
        }
        rat_reduce(self.den as i128, self.num as i128)
    }

    /// Three-way comparison by cross multiplication.
    pub fn compare(&self, other: &Rat) -> (r: core::cmp::Ordering)
        requires
            self.wf(),
            other.wf(),
        ensures
            r == core::cmp::Ordering::Less <==> self.n() * other.d() < other.n() * self.d(),
            r == core::cmp::Ordering::Equal <==> self.n() * other.d() == other.n() * self.d(),
            r == core::cmp::Ordering::Greater <==> self.n() * other.d() > other.n() * self.d(),
    {
        proof {
            lemma_mul_bound_64(self.n(), other.d());
            lemma_mul_bound_64(other.n(), self.d());
        }
        let a: i128 = self.num as i128 * other.den as i128;
        let b: i128 = other.num as i128 * self.den as i128;
        if a < b {
            core::cmp::Ordering::Less
        } else if a == b {
            core::cmp::Ordering::Equal
        } else {
            core::cmp::Ordering::Greater
        }
    }

    /// Whether the value is negative.
    pub fn is_neg(&self) -> (r: bool)
        ensures
            r <==> self.n() < 0,
    {
        self.num < 0
    }

    /// Whether the value is zero.
    pub fn is_zero(&self) -> (r: bool)
        ensures
            r <==> self.n() == 0,
    {
        self.num == 0
    }

    /// Whether the value is exactly one.
    pub fn is_one(&self) -> (r: bool)
        ensures
            r <==> (self.n() == 1 && self.d() == 1),
    {
        self.num == 1 && self.den == 1
    }

    /// Whether the value is a whole number.
    pub fn is_int(&self) -> (r: bool)
        ensures
            r <==> self.d() == 1,
    {
        self.den == 1
    }

    /// Exact power with a machine-word exponent: the reduced form of
    /// the numerator and denominator powers, with overflow of either
    /// power reported.
    pub fn pow_u32(&self, e: u32) -> (r: Result<Rat, EvalError>)
        requires
            self.wf(),
        ensures
            r == spec_rat_pow(*self, e),
    {
        proof {
            vstd::arithmetic::power::lemma_pow_positive(self.d(), e as nat);
        }
        let pn = match crate::eval::op::pow::checked_pow_i64(self.numer(), e) {
            Some(v) => v,
            None => {
                return Err(EvalError::Overflow);
            },
        };
        let pd = match crate::eval::op::pow::checked_pow_i64(self.denom(), e) {
            Some(v) => v,
            None => {
                return Err(EvalError::Overflow);
            },
        };
        rat_reduce(pn as i128, pd as i128)
    }
}

/// What raising a rational to a whole power yields: the reduced ratio
/// of the two powers, or an overflow report when either power leaves
/// the 64-bit range.
pub open spec fn spec_rat_pow(x: Rat, e: u32) -> Result<Rat, EvalError> {
    let pn = vstd::arithmetic::power::pow(x.n(), e as nat);
    let pd = vstd::arithmetic::power::pow(x.d(), e as nat);
    if i64::MIN <= pn <= i64::MAX && 1 <= pd <= i64::MAX {
        rat_reduce_result(pn, pd)
    } else {
        Err(EvalError::Overflow)
    }
}

/// Reduces n/d through 128-bit arithmetic.
fn rat_reduce(n: i128, d: i128) -> (r: Result<Rat, EvalError>)
    requires
        d != 0,
        n > i128::MIN,
        d > i128::MIN,
    ensures
        r == rat_reduce_result(n as int, d as int),
{
    let neg: bool = (n < 0) != (d < 0);
    let an: u128 = if n < 0 {
        (-n) as u128
    } else {
        n as u128
    };
    let ad: u128 = if d < 0 {
        (-d) as u128
    } else {
        d as u128
    };
    assert(an as nat == nat_abs(n as int));
    assert(ad as nat == nat_abs(d as int));
    let g: u128 = gcd_u128(an, ad);
    proof {
        lemma_gcd_divides(an as nat, ad as nat);
        lemma_reduced_props(n as int, d as int);
    }
    let rn: u128 = an / g;
    let rd: u128 = ad / g;
    assert(rn as int == red_mag(n as int, d as int));
    assert(rd as int == red_den(n as int, d as int));
    if rd > i64::MAX as u128 {
        return Err(EvalError::Overflow);
    }
    let num_i: i128 = if neg {
        -(rn as i128)
    } else {
        rn as i128
    };
    assert(num_i == red_num(n as int, d as int));
    if num_i < i64::MIN as i128 || num_i > i64::MAX as i128 {
        return Err(EvalError::Overflow);
    }
    let result = Rat { num: num_i as i64, den: rd as i64 };
    assert(result == spec_rat(red_num(n as int, d as int), red_den(n as int, d as int)));
    Ok(result)
}

} // verus!
