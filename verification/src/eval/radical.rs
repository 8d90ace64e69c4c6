//! The radical representation `coefficient * radicand^(1/index)` and its
//! normalizing simplifier.

use vstd::prelude::*;
use vstd::arithmetic::div_mod::{
    lemma_fundamental_div_mod, lemma_fundamental_div_mod_converse, lemma_mod_multiples_basic,
};
use vstd::arithmetic::power::{lemma_pow1, lemma_pow_strictly_increases, pow};

use crate::eval::rat_to_number;

use crate::eval::{int_divisible, known_negative, num_clone, num_eq, EvalError, Number};
use crate::rat::{lemma_rat_reduce_ok, lemma_red_of_coprime, nat_abs, rat_reduce_result, Rat};

verus! {

/// The fixed table of primes used by the simplifier, in increasing order.
pub open spec fn spec_primes() -> Seq<int> {
    seq![2, 3, 5, 7, 11, 13, 17, 19, 23, 29, 31, 37, 41, 43, 47]
}

/// Magnitude divisibility agrees with the remainder test for positive
/// divisors.
proof fn lemma_divisible_iff_mod(r: int, q: int)
    requires
        q >= 1,
    ensures
        int_divisible(r, q) <==> r % q == 0,
{
    assert(nat_abs(q) == q);
    if r >= 0 {
        assert(nat_abs(r) == r);
    } else {
        let d = r / q;
        let m = r % q;
        lemma_fundamental_div_mod(r, q);
        if m == 0 {
            lemma_mod_multiples_basic(-d, q);
            assert((-d) * q == -r) by (nonlinear_arith)
                requires
                    r == q * d + 0,
            ;
            assert(nat_abs(r) == -r);
        } else {
            assert(-r == q * (-d - 1) + (q - m)) by (nonlinear_arith)
                requires
                    r == q * d + m,
            ;
            lemma_fundamental_div_mod_converse(-r, q, -d - 1, q - m);
            assert(nat_abs(r) == -r);
            assert(nat_abs(r) % nat_abs(q) == q - m);
        }
    }
}

/// An exact division by a divisor of at least two strictly shrinks a
/// nonzero value.
proof fn lemma_exact_div_shrinks(r: int, q: int)
    requires
        q >= 2,
        r != 0,
        r % q == 0,
    ensures
        r == q * (r / q),
        r / q != 0,
        nat_abs(r / q) < nat_abs(r),
        nat_abs(r) >= q,
{
    lemma_fundamental_div_mod(r, q);
    assert(r / q != 0) by {
        if r / q == 0 {
            assert(r == q * 0 + 0) by (nonlinear_arith)
                requires
                    r == q * (r / q),
                    r / q == 0,
            ;
        }
    }
    assert(nat_abs(r / q) < nat_abs(r) && nat_abs(r) >= q) by (nonlinear_arith)
        requires
            r == q * (r / q),
            q >= 2,
            r / q != 0,
    ;
}

/// Whether one prime-power extraction step applies to the radicand r.
pub open spec fn extract_step_applies(r: int, p: int, idx: u32) -> bool {
    &&& r != 0
    &&& p >= 2
    &&& idx >= 1
    &&& int_divisible(r, pow(p, idx as nat))
}

/// The prime power behind one extraction step is at least two.
proof fn lemma_step_pow_facts(r: int, p: int, idx: u32)
    requires
        extract_step_applies(r, p, idx),
    ensures
        pow(p, idx as nat) >= 2,
        r % pow(p, idx as nat) == 0,
        r / pow(p, idx as nat) != 0,
        r == pow(p, idx as nat) * (r / pow(p, idx as nat)),
        nat_abs(r / pow(p, idx as nat)) < nat_abs(r),
        nat_abs(r) >= pow(p, idx as nat),
{
    let q = pow(p, idx as nat);
    lemma_pow1(p);
    if idx > 1 {
        lemma_pow_strictly_increases(p as nat, 1, idx as nat);
    }
    assert(q >= 2);
    lemma_divisible_iff_mod(r, q);
    lemma_exact_div_shrinks(r, q);
}

/// Extracting by one prime repeatedly: while the idx-th power of p
/// divides the radicand, move one factor p to the coefficient and divide
/// the radicand by the power.
pub open spec fn spec_extract_prime(c: Rat, r: int, p: int, idx: u32) -> Result<
    (Rat, int),
    EvalError,
>
    decreases nat_abs(r),
    via spec_extract_prime_dec
{
    if extract_step_applies(r, p, idx) {
        match rat_reduce_result(c.n() * p, c.d()) {
            Ok(c2) => spec_extract_prime(c2, r / pow(p, idx as nat), p, idx),
            Err(e) => Err(e),
        }
    } else {
        Ok((c, r))
    }
}

/// The simplifier walks the prime table in order, exhausting each prime.
pub open spec fn spec_simplify_from(c: Rat, r: int, i: int, idx: u32) -> Result<
    (Rat, int),
    EvalError,
>
    decreases spec_primes().len() - i,
{
    if i < 0 || i >= spec_primes().len() {
        Ok((c, r))
    } else {
        match spec_extract_prime(c, r, spec_primes()[i], idx) {
            Ok((c2, r2)) => spec_simplify_from(c2, r2, i + 1, idx),
            Err(e) => Err(e),
        }
    }
}

#[via_fn]
proof fn spec_extract_prime_dec(c: Rat, r: int, p: int, idx: u32) {
    if extract_step_applies(r, p, idx) {
        lemma_step_pow_facts(r, p, idx);
    }
}

/// A radical is in normal form when no prime of the table can still be
/// extracted from its radicand; radicands that are not whole numbers are
/// never rewritten.
pub open spec fn radical_simplified(rad: Radical) -> bool {
    match *rad.radicand {
        Number::Int(v) => forall|i: int|
            0 <= i < spec_primes().len() ==> !extract_step_applies(
                v as int,
                spec_primes()[i],
                rad.index,
            ),
        _ => true,
    }
}

/// `coefficient * radicand^(1/index)`.
#[derive(Debug)]
pub struct Radical {
    pub coefficient: Rat,
    pub index: u32,
    pub radicand: Box<Number>,
}

/// Structural equality of two radicals: coefficient, index and radicand
/// must all agree.
pub fn radical_eq(a: &Radical, b: &Radical) -> (r: bool)
    ensures
        r == (a == b),
    decreases a,
{
    a.coefficient == b.coefficient && a.index == b.index && num_eq(&a.radicand, &b.radicand)
}

/// An exact copy of a radical.
pub fn radical_clone(a: &Radical) -> (r: Radical)
    ensures
        r == *a,
    decreases a,
{
    Radical {
        coefficient: a.coefficient,
        index: a.index,
        radicand: Box::new(num_clone(&a.radicand)),
    }
}

impl PartialEq for Radical {
    fn eq(&self, other: &Self) -> (r: bool) {
        radical_eq(self, other)
    }
}

impl vstd::std_specs::cmp::PartialEqSpecImpl for Radical {
    open spec fn obeys_eq_spec() -> bool {
        true
    }

    open spec fn eq_spec(&self, other: &Radical) -> bool {
        self == other
    }
}

impl Clone for Radical {
    fn clone(&self) -> (r: Self)
        ensures
            r == *self,
    {
        radical_clone(self)
    }
}

/// Extraction never flips the sign of a negative coefficient.
pub(crate) proof fn lemma_extract_prime_sign(c: Rat, r: int, p: int, idx: u32)
    requires
        c.n() < 0,
        c.d() >= 1,
        p >= 2,
    ensures
        spec_extract_prime(c, r, p, idx) matches Ok(pair) ==> pair.0.n() < 0,
    decreases nat_abs(r),
{
    if extract_step_applies(r, p, idx) {
        lemma_step_pow_facts(r, p, idx);
        match rat_reduce_result(c.n() * p, c.d()) {
            Ok(c2) => {
                assert(c.n() * p < 0) by (nonlinear_arith)
                    requires
                        c.n() < 0,
                        p >= 2,
                ;
                lemma_rat_reduce_ok(c.n() * p, c.d());
                crate::rat::lemma_reduced_parts(c.n() * p, c.d());
                let g = crate::rat::gcd(nat_abs(c.n() * p), nat_abs(c.d()));
                assert(crate::rat::red_mag(c.n() * p, c.d()) >= 1) by (nonlinear_arith)
                    requires
                        nat_abs(c.n() * p) as int == g * crate::rat::red_mag(c.n() * p, c.d()),
                        nat_abs(c.n() * p) >= 1,
                        crate::rat::red_mag(c.n() * p, c.d()) >= 0,
                ;
                crate::rat::lemma_spec_rat_parts(
                    crate::rat::red_num(c.n() * p, c.d()),
                    crate::rat::red_den(c.n() * p, c.d()),
                );
                assert(c2.n() < 0);
                lemma_extract_prime_sign(c2, r / pow(p, idx as nat), p, idx);
            },
            Err(_) => {},
        }
    }
}

/// The walk over the whole prime table keeps a negative coefficient
/// negative.
pub(crate) proof fn lemma_simplify_from_sign(c: Rat, r: int, i: int, idx: u32)
    requires
        c.n() < 0,
        c.d() >= 1,
    ensures
        spec_simplify_from(c, r, i, idx) matches Ok(pair) ==> pair.0.n() < 0,
    decreases spec_primes().len() - i,
{
    if i < 0 || i >= spec_primes().len() {
    } else {
        assert(spec_primes()[i] >= 2) by {
            assert(spec_primes()[i] == seq![2int, 3, 5, 7, 11, 13, 17, 19, 23, 29, 31, 37, 41, 43, 47][i]);
        }
        lemma_extract_prime_sign(c, r, spec_primes()[i], idx);
        match spec_extract_prime(c, r, spec_primes()[i], idx) {
            Ok(pair) => {
                lemma_extract_prime_wf(c, r, spec_primes()[i], idx);
                lemma_simplify_from_sign(pair.0, pair.1, i + 1, idx);
            },
            Err(_) => {},
        }
    }
}

/// Extraction keeps the coefficient's denominator positive.
pub(crate) proof fn lemma_extract_prime_wf(c: Rat, r: int, p: int, idx: u32)
    requires
        c.d() >= 1,
    ensures
        spec_extract_prime(c, r, p, idx) matches Ok(pair) ==> pair.0.d() >= 1,
    decreases nat_abs(r),
{
    if extract_step_applies(r, p, idx) {
        lemma_step_pow_facts(r, p, idx);
        match rat_reduce_result(c.n() * p, c.d()) {
            Ok(c2) => {
                lemma_rat_reduce_ok(c.n() * p, c.d());
                lemma_extract_prime_wf(c2, r / pow(p, idx as nat), p, idx);
            },
            Err(_) => {},
        }
    }
}

/// Extraction by one prime preserves the radical's value: the
/// coefficient raised to the index times the radicand is unchanged, in
/// cross-multiplied form.
pub(crate) proof fn lemma_extract_prime_value(c: Rat, r: int, p: int, idx: u32)
    requires
        c.d() >= 1,
        p >= 2,
        idx >= 1,
    ensures
        spec_extract_prime(c, r, p, idx) matches Ok(pair) ==> pow(pair.0.n(), idx as nat) * pair.1
            * pow(c.d(), idx as nat) == pow(c.n(), idx as nat) * r * pow(pair.0.d(), idx as nat),
    decreases nat_abs(r),
{
    if extract_step_applies(r, p, idx) {
        lemma_step_pow_facts(r, p, idx);
        let q = pow(p, idx as nat);
        match rat_reduce_result(c.n() * p, c.d()) {
            Ok(c2) => {
                lemma_rat_reduce_ok(c.n() * p, c.d());
                let r2 = r / q;
                lemma_extract_prime_value(c2, r2, p, idx);
                lemma_extract_prime_wf(c2, r2, p, idx);
                match spec_extract_prime(c2, r2, p, idx) {
                    Ok(pair) => {
                        // one step: the cross equation raised to the index
                        vstd::arithmetic::power::lemma_pow_distributes(
                            c2.n(),
                            c.d(),
                            idx as nat,
                        );
                        vstd::arithmetic::power::lemma_pow_distributes(
                            c.n() * p,
                            c2.d(),
                            idx as nat,
                        );
                        vstd::arithmetic::power::lemma_pow_distributes(c.n(), p, idx as nat);
                        assert(pow(c2.n() * c.d(), idx as nat) == pow(
                            (c.n() * p) * c2.d(),
                            idx as nat,
                        )) by {
                            assert(c2.n() * c.d() == (c.n() * p) * c2.d());
                        }
                        let a = pow(c.n(), idx as nat);
                        let b = pow(c.d(), idx as nat);
                        let a2 = pow(c2.n(), idx as nat);
                        let b2 = pow(c2.d(), idx as nat);
                        // step relation between (c, r) and (c2, r2)
                        assert(a2 * r2 * b == a * r * b2) by (nonlinear_arith)
                            requires
                                a2 * b == (a * q) * b2,
                                r == q * r2,
                        ;
                        // compose with the tail of the walk
                        let e = pow(pair.0.n(), idx as nat);
                        let f = pow(pair.0.d(), idx as nat);
                        vstd::arithmetic::power::lemma_pow_positive(c2.d(), idx as nat);
                        assert(e * pair.1 * b == a * r * f) by (nonlinear_arith)
                            requires
                                e * pair.1 * b2 == a2 * r2 * f,
                                a2 * r2 * b == a * r * b2,
                                b2 >= 1,
                        ;
                    },
                    Err(_) => {},
                }
            },
            Err(_) => {},
        }
    }
}

/// The full walk over the prime table preserves the radical's value.
pub(crate) proof fn lemma_simplify_from_value(c: Rat, r: int, i: int, idx: u32)
    requires
        c.d() >= 1,
        idx >= 1,
    ensures
        spec_simplify_from(c, r, i, idx) matches Ok(pair) ==> pow(pair.0.n(), idx as nat) * pair.1
            * pow(c.d(), idx as nat) == pow(c.n(), idx as nat) * r * pow(pair.0.d(), idx as nat),
    decreases spec_primes().len() - i,
{
    if i < 0 || i >= spec_primes().len() {
    } else {
        let p = spec_primes()[i];
        assert(p >= 2) by {
            assert(spec_primes()[i] == seq![2int, 3, 5, 7, 11, 13, 17, 19, 23, 29, 31, 37, 41, 43, 47][i]);
        }
        lemma_extract_prime_value(c, r, p, idx);
        lemma_extract_prime_wf(c, r, p, idx);
        match spec_extract_prime(c, r, p, idx) {
            Ok(mid) => {
                lemma_simplify_from_value(mid.0, mid.1, i + 1, idx);
                match spec_simplify_from(mid.0, mid.1, i + 1, idx) {
                    Ok(pair) => {
                        let a = pow(c.n(), idx as nat);
                        let b = pow(c.d(), idx as nat);
                        let m1 = pow(mid.0.n(), idx as nat);
                        let m2 = pow(mid.0.d(), idx as nat);
                        let e = pow(pair.0.n(), idx as nat);
                        let f = pow(pair.0.d(), idx as nat);
                        vstd::arithmetic::power::lemma_pow_positive(mid.0.d(), idx as nat);
                        assert(e * pair.1 * b == a * r * f) by (nonlinear_arith)
                            requires
                                m1 * mid.1 * b == a * r * m2,
                                e * pair.1 * m2 == m1 * mid.1 * f,
                                m2 >= 1,
                        ;
                    },
                    Err(_) => {},
                }
            },
            Err(_) => {},
        }
    }
}

/// Extraction never grows the radicand's magnitude.
pub(crate) proof fn lemma_extract_prime_magnitude(c: Rat, r: int, p: int, idx: u32)
    ensures
        spec_extract_prime(c, r, p, idx) matches Ok(pair) ==> nat_abs(pair.1) <= nat_abs(r) && (
        pair.1 < 0 <==> r < 0) && (pair.1 == 0 <==> r == 0),
    decreases nat_abs(r),
{
    if extract_step_applies(r, p, idx) {
        lemma_step_pow_facts(r, p, idx);
        let q = pow(p, idx as nat);
        match rat_reduce_result(c.n() * p, c.d()) {
            Ok(c2) => {
                assert(r / q < 0 <==> r < 0) by (nonlinear_arith)
                    requires
                        r == q * (r / q),
                        q >= 2,
                        r / q != 0,
                        r != 0,
                ;
                lemma_extract_prime_magnitude(c2, r / q, p, idx);
            },
            Err(_) => {},
        }
    }
}

/// The full walk never grows the radicand's magnitude.
pub(crate) proof fn lemma_simplify_from_magnitude(c: Rat, r: int, i: int, idx: u32)
    ensures
        spec_simplify_from(c, r, i, idx) matches Ok(pair) ==> nat_abs(pair.1) <= nat_abs(r) && (
        pair.1 < 0 <==> r < 0) && (pair.1 == 0 <==> r == 0),
    decreases spec_primes().len() - i,
{
    if i < 0 || i >= spec_primes().len() {
    } else {
        lemma_extract_prime_magnitude(c, r, spec_primes()[i], idx);
        match spec_extract_prime(c, r, spec_primes()[i], idx) {
            Ok(mid) => {
                lemma_simplify_from_magnitude(mid.0, mid.1, i + 1, idx);
            },
            Err(_) => {},
        }
    }
}

/// The magnitude of a power is the power of the magnitude.
pub(crate) proof fn lemma_pow_abs(a: int, n: nat)
    ensures
        nat_abs(pow(a, n)) == pow(nat_abs(a) as int, n),
    decreases n,
{
    if n == 0 {
        vstd::arithmetic::power::lemma_pow0(a);
        vstd::arithmetic::power::lemma_pow0(nat_abs(a) as int);
    } else {
        lemma_pow_abs(a, (n - 1) as nat);
        crate::eval::op::pow::lemma_pow_peel(a, n);
        crate::eval::op::pow::lemma_pow_peel(nat_abs(a) as int, n);
        crate::eval::op::pow::lemma_abs_mul(pow(a, (n - 1) as nat), a);
    }
}

/// Extraction from a whole coefficient whose value bound fits in the
/// 64-bit range can never overflow: the coefficient's magnitude stays
/// under the bound at every step.
pub(crate) proof fn lemma_extract_prime_total(c: Rat, r: int, p: int, idx: u32)
    requires
        c.d() == 1,
        p >= 2,
        idx >= 1,
        r != 0,
        nat_abs(c.n()) >= 1,
        pow(nat_abs(c.n()) as int, idx as nat) * nat_abs(r) <= i64::MAX,
    ensures
        spec_extract_prime(c, r, p, idx) is Ok,
    decreases nat_abs(r),
{
    if extract_step_applies(r, p, idx) {
        lemma_step_pow_facts(r, p, idx);
        let q = pow(p, idx as nat);
        let r2 = r / q;
        let cn = c.n();
        let an = nat_abs(cn) as int;
        // magnitudes compose across the step
        crate::eval::op::pow::lemma_abs_mul(q, r2);
        assert(q >= 2);
        assert(nat_abs(q) == q);
        assert(nat_abs(r) == q * nat_abs(r2));
        crate::eval::op::pow::lemma_abs_mul(cn, p);
        assert(nat_abs(cn * p) == nat_abs(cn) * p);
        vstd::arithmetic::power::lemma_pow_distributes(an, p, idx as nat);
        assert(pow(an * p, idx as nat) == pow(an, idx as nat) * q) by {
            assert(pow(p, idx as nat) == q);
        }
        // the new bound
        assert(pow(nat_abs(cn * p) as int, idx as nat) * nat_abs(r2) == pow(an, idx as nat)
            * nat_abs(r)) by (nonlinear_arith)
            requires
                nat_abs(cn * p) as int == an * p,
                pow(an * p, idx as nat) == pow(an, idx as nat) * q,
                nat_abs(r) == q * nat_abs(r2),
        ;
        // the scaled coefficient stays within the word range
        assert(an * p >= 1) by (nonlinear_arith)
            requires
                an >= 1,
                p >= 2,
        ;
        vstd::arithmetic::power::lemma_pow_increases((an * p) as nat, 1, idx as nat);
        vstd::arithmetic::power::lemma_pow1(an * p);
        assert(pow(an * p, idx as nat) <= pow(an * p, idx as nat) * nat_abs(r2))
            by (nonlinear_arith)
            requires
                nat_abs(r2) >= 1,
                pow(an * p, idx as nat) >= 0,
        ;
        assert(nat_abs(cn * p) <= i64::MAX);
        // so the reduction succeeds and keeps denominator one
        crate::rat::lemma_gcd_with_one(nat_abs(cn * p));
        crate::rat::lemma_red_of_coprime(cn * p, 1);
        crate::rat::lemma_spec_rat_parts(cn * p, 1);
        assert(rat_reduce_result(cn * p, c.d()) is Ok);
        match rat_reduce_result(cn * p, c.d()) {
            Ok(c2) => {
                assert(c2.n() == cn * p);
                assert(c2.d() == 1);
                lemma_extract_prime_total(c2, r2, p, idx);
            },
            Err(_) => {},
        }
    }
}

/// The whole walk over the prime table can never overflow under the
/// same bound.
pub(crate) proof fn lemma_simplify_from_total(c: Rat, r: int, i: int, idx: u32)
    requires
        c.d() == 1,
        idx >= 1,
        r != 0,
        nat_abs(c.n()) >= 1,
        pow(nat_abs(c.n()) as int, idx as nat) * nat_abs(r) <= i64::MAX,
    ensures
        spec_simplify_from(c, r, i, idx) is Ok,
    decreases spec_primes().len() - i,
{
    if i < 0 || i >= spec_primes().len() {
    } else {
        let p = spec_primes()[i];
        assert(p >= 2) by {
            assert(spec_primes()[i] == seq![2int, 3, 5, 7, 11, 13, 17, 19, 23, 29, 31, 37, 41, 43, 47][i]);
        }
        lemma_extract_prime_total(c, r, p, idx);
        lemma_extract_prime_value(c, r, p, idx);
        lemma_extract_prime_den_one(c, r, p, idx);
        lemma_extract_prime_magnitude(c, r, p, idx);
        match spec_extract_prime(c, r, p, idx) {
            Ok(mid) => {
                let c2 = mid.0;
                let r2 = mid.1;
                // carry the bound: the absolute value identity
                lemma_pow_abs(c2.n(), idx as nat);
                lemma_pow_abs(c.n(), idx as nat);
                crate::eval::op::pow::lemma_abs_mul(pow(c2.n(), idx as nat), r2);
                crate::eval::op::pow::lemma_abs_mul(pow(c.n(), idx as nat), r);
                assert(pow(c2.n(), idx as nat) * r2 * pow(c.d(), idx as nat) == pow(
                    c.n(),
                    idx as nat,
                ) * r * pow(c2.d(), idx as nat));
                vstd::arithmetic::power::lemma1_pow(idx as nat);
                assert(pow(1, idx as nat) == 1);
                assert(pow(c2.n(), idx as nat) * r2 == pow(c.n(), idx as nat) * r)
                    by (nonlinear_arith)
                    requires
                        pow(c2.n(), idx as nat) * r2 * pow(c.d(), idx as nat) == pow(
                            c.n(),
                            idx as nat,
                        ) * r * pow(c2.d(), idx as nat),
                        pow(c.d(), idx as nat) == 1,
                        pow(c2.d(), idx as nat) == 1,
                ;
                assert(nat_abs(pow(c2.n(), idx as nat) * r2) == nat_abs(
                    pow(c.n(), idx as nat) * r,
                ));
                assert(pow(nat_abs(c2.n()) as int, idx as nat) * nat_abs(r2) == pow(
                    nat_abs(c.n()) as int,
                    idx as nat,
                ) * nat_abs(r));
                vstd::arithmetic::power::lemma_pow_positive(nat_abs(c.n()) as int, idx as nat);
                if nat_abs(c2.n()) == 0 {
                    vstd::arithmetic::power::lemma0_pow(idx as nat);
                }
                assert(c2.n() != 0 && r2 != 0) by (nonlinear_arith)
                    requires
                        pow(nat_abs(c2.n()) as int, idx as nat) * nat_abs(r2) == pow(
                            nat_abs(c.n()) as int,
                            idx as nat,
                        ) * nat_abs(r),
                        pow(nat_abs(c.n()) as int, idx as nat) >= 1,
                        nat_abs(r) >= 1,
                        nat_abs(c2.n()) == 0 ==> pow(nat_abs(c2.n()) as int, idx as nat) == 0,
                        r2 == 0 ==> nat_abs(r2) == 0,
                        c2.n() == 0 ==> nat_abs(c2.n()) == 0,
                ;
                lemma_simplify_from_total(c2, r2, i + 1, idx);
            },
            Err(_) => {},
        }
    }
}

/// A whole-number coefficient stays whole through extraction.
pub(crate) proof fn lemma_extract_prime_den_one(c: Rat, r: int, p: int, idx: u32)
    requires
        c.d() == 1,
        p >= 2,
    ensures
        spec_extract_prime(c, r, p, idx) matches Ok(pair) ==> pair.0.d() == 1,
    decreases nat_abs(r),
{
    if extract_step_applies(r, p, idx) {
        lemma_step_pow_facts(r, p, idx);
        match rat_reduce_result(c.n() * p, c.d()) {
            Ok(c2) => {
                crate::rat::lemma_gcd_with_one(nat_abs(c.n() * p));
                crate::rat::lemma_red_of_coprime(c.n() * p, 1);
                crate::rat::lemma_spec_rat_parts(
                    crate::rat::red_num(c.n() * p, 1),
                    crate::rat::red_den(c.n() * p, 1),
                );
                assert(c2.d() == 1);
                lemma_extract_prime_den_one(c2, r / pow(p, idx as nat), p, idx);
            },
            Err(_) => {},
        }
    }
}

/// A whole-number coefficient stays whole through the full walk.
pub(crate) proof fn lemma_simplify_from_den_one(c: Rat, r: int, i: int, idx: u32)
    requires
        c.d() == 1,
    ensures
        spec_simplify_from(c, r, i, idx) matches Ok(pair) ==> pair.0.d() == 1,
    decreases spec_primes().len() - i,
{
    if i < 0 || i >= spec_primes().len() {
    } else {
        let p = spec_primes()[i];
        assert(p >= 2) by {
            assert(spec_primes()[i] == seq![2int, 3, 5, 7, 11, 13, 17, 19, 23, 29, 31, 37, 41, 43, 47][i]);
        }
        lemma_extract_prime_den_one(c, r, p, idx);
        match spec_extract_prime(c, r, p, idx) {
            Ok(mid) => {
                lemma_simplify_from_den_one(mid.0, mid.1, i + 1, idx);
            },
            Err(_) => {},
        }
    }
}

/// Exhausted extraction leaves the pair unchanged.
proof fn lemma_extract_prime_noop(c: Rat, r: int, p: int, idx: u32)
    requires
        !extract_step_applies(r, p, idx),
    ensures
        spec_extract_prime(c, r, p, idx) == Ok::<(Rat, int), EvalError>((c, r)),
{
}

/// When nothing in the remaining table applies, the walk is a no-op.
proof fn lemma_simplify_from_noop(c: Rat, r: int, i: int, idx: u32)
    requires
        forall|j: int|
            i <= j < spec_primes().len() ==> !extract_step_applies(r, spec_primes()[j], idx),
    ensures
        spec_simplify_from(c, r, i, idx) == Ok::<(Rat, int), EvalError>((c, r)),
    decreases spec_primes().len() - i,
{
    if i < 0 || i >= spec_primes().len() {
    } else {
        lemma_extract_prime_noop(c, r, spec_primes()[i], idx);
        lemma_simplify_from_noop(c, r, i + 1, idx);
    }
}

/// Divisibility carries from an exact quotient back to the value.
proof fn lemma_divisible_through_quotient(old_r: int, new_r: int, q: int, t: int)
    requires
        q >= 1,
        t >= 1,
        old_r == q * new_r,
        int_divisible(new_r, t),
    ensures
        int_divisible(old_r, t),
{
    lemma_divisible_iff_mod(new_r, t);
    lemma_divisible_iff_mod(old_r, t);
    lemma_fundamental_div_mod(new_r, t);
    assert(old_r == (q * (new_r / t)) * t) by (nonlinear_arith)
        requires
            old_r == q * new_r,
            new_r == t * (new_r / t),
    ;
    lemma_mod_multiples_basic(q * (new_r / t), t);
}

/// The fixed prime table, cut off below k.
pub fn primes_to_k(k: u16) -> (r: Vec<u16>)
    ensures
        r@.len() <= spec_primes().len(),
        forall|i: int|
            0 <= i < r@.len() ==> r@[i] as int == spec_primes()[i] && (r@[i] as int) < k as int,
        r@.len() < spec_primes().len() ==> spec_primes()[r@.len() as int] >= k as int,
{
    let mut all: Vec<u16> = Vec::new();
    all.push(2);
    all.push(3);
    all.push(5);
    all.push(7);
    all.push(11);
    all.push(13);
    all.push(17);
    all.push(19);
    all.push(23);
    all.push(29);
    all.push(31);
    all.push(37);
    all.push(41);
    all.push(43);
    all.push(47);
    proof {
        assert(forall|i: int| 0 <= i < 15 ==> all@[i] as int == spec_primes()[i]) by {
            assert(all@[0] == 2u16);
            assert(all@[1] == 3u16);
            assert(all@[2] == 5u16);
            assert(all@[3] == 7u16);
            assert(all@[4] == 11u16);
            assert(all@[5] == 13u16);
            assert(all@[6] == 17u16);
            assert(all@[7] == 19u16);
            assert(all@[8] == 23u16);
            assert(all@[9] == 29u16);
            assert(all@[10] == 31u16);
            assert(all@[11] == 37u16);
            assert(all@[12] == 41u16);
            assert(all@[13] == 43u16);
            assert(all@[14] == 47u16);
        }
    }
    let mut out: Vec<u16> = Vec::new();
    let mut i: usize = 0;
    while i < all.len()
        invariant
            all@.len() == 15,
            forall|j: int| 0 <= j < 15 ==> all@[j] as int == spec_primes()[j],
            i <= 15,
            out@.len() <= i,
            forall|j: int|
                0 <= j < out@.len() ==> out@[j] as int == spec_primes()[j] && (out@[j] as int)
                    < k as int,
            out@.len() < i ==> spec_primes()[out@.len() as int] >= k as int,
            out@.len() == i || (out@.len() < i && spec_primes()[out@.len() as int] >= k as int),
        decreases all.len() - i,
    {
        if all[i] < k && out.len() == i {
            out.push(all[i]);
        }
        i = i + 1;
    }
    out
}

/// Divisibility is transitive.
proof fn lemma_divisible_transitive(a: int, b: int, c: int)
    requires
        int_divisible(a, b),
        int_divisible(b, c),
    ensures
        int_divisible(a, c),
{
    if c == 0 {
        assert(b == 0);
        assert(a == 0);
    } else if b == 0 {
        assert(a == 0);
        assert(nat_abs(0int) % nat_abs(c) == 0) by (nonlinear_arith)
            requires
                nat_abs(c) >= 1,
        ;
    } else {
        let bb = nat_abs(b) as int;
        let cc = nat_abs(c) as int;
        let aa = nat_abs(a) as int;
        lemma_divisible_iff_mod(aa, bb);
        lemma_divisible_iff_mod(bb, cc);
        lemma_divisible_iff_mod(aa, cc);
        assert(nat_abs(aa) == aa && nat_abs(bb) == bb && nat_abs(cc) == cc);
        lemma_fundamental_div_mod(aa, bb);
        lemma_fundamental_div_mod(bb, cc);
        assert(aa == ((bb / cc) * (aa / bb)) * cc) by (nonlinear_arith)
            requires
                aa == bb * (aa / bb),
                bb == cc * (bb / cc),
        ;
        lemma_mod_multiples_basic((bb / cc) * (aa / bb), cc);
    }
}

/// A step that did not apply to a value still does not apply to any
/// exact quotient of it.
proof fn lemma_nonapplies_preserved(old_r: int, new_r: int, p: int, idx: u32)
    requires
        !extract_step_applies(old_r, p, idx),
        int_divisible(old_r, new_r),
        new_r == 0 <==> old_r == 0,
    ensures
        !extract_step_applies(new_r, p, idx),
{
    if extract_step_applies(new_r, p, idx) {
        lemma_divisible_transitive(old_r, new_r, pow(p, idx as nat));
        assert(extract_step_applies(old_r, p, idx));
    }
}

/// The prime at a given position of the fixed table.
fn prime_at(j: usize) -> (p: u16)
    requires
        j < 15,
    ensures
        p as int == spec_primes()[j as int],
        2 <= p <= 47,
{
    if j == 0 {
        2
    } else if j == 1 {
        3
    } else if j == 2 {
        5
    } else if j == 3 {
        7
    } else if j == 4 {
        11
    } else if j == 5 {
        13
    } else if j == 6 {
        17
    } else if j == 7 {
        19
    } else if j == 8 {
        23
    } else if j == 9 {
        29
    } else if j == 10 {
        31
    } else if j == 11 {
        37
    } else if j == 12 {
        41
    } else {
        if j == 13 {
            43
        } else {
            47
        }
    }
}

/// Runs the extraction loop of one prime over a whole-number radicand.
fn extract_prime_exec(c0: Rat, r0: i64, p: u16, idx: u32) -> (res: Result<(Rat, i64), EvalError>)
    requires
        c0.wf(),
        p >= 2,
        idx >= 1,
    ensures
        res matches Ok(pair) ==> {
            &&& spec_extract_prime(c0, r0 as int, p as int, idx) == Ok::<(Rat, int), EvalError>(
                (pair.0, pair.1 as int),
            )
            &&& !extract_step_applies(pair.1 as int, p as int, idx)
            &&& pair.0.wf()
            &&& int_divisible(r0 as int, pair.1 as int)
            &&& (pair.1 == 0 <==> r0 == 0)
            &&& (pair.1 < 0 <==> r0 < 0)
            &&& nat_abs(pair.1 as int) <= nat_abs(r0 as int)
        },
        res matches Err(e) ==> spec_extract_prime(c0, r0 as int, p as int, idx) == Err::<
            (Rat, int),
            EvalError,
        >(e) && e == EvalError::Overflow,
{
    let q_opt = crate::eval::op::pow::checked_pow_u64(p as u64, idx);
    let q: u64 = match q_opt {
        Some(q) => q,
        None => {
            proof {
                if extract_step_applies(r0 as int, p as int, idx) {
                    lemma_step_pow_facts(r0 as int, p as int, idx);
                }
                lemma_extract_prime_noop(c0, r0 as int, p as int, idx);
            }
            return Ok((c0, r0));
        },
    };
    proof {
        lemma_pow1(p as int);
        if idx > 1 {
            lemma_pow_strictly_increases(p as nat, 1, idx as nat);
        }
        assert(q >= 2);
    }
    let mut c: Rat = c0;
    let mut r: i64 = r0;
    let mut keep_going: bool = r != 0 && crate::eval::abs_u64(r) % q == 0;
    proof {
        assert(keep_going == extract_step_applies(r as int, p as int, idx));
    }
    while keep_going
        invariant
            c.wf(),
            p >= 2,
            idx >= 1,
            q as int == pow(p as int, idx as nat),
            q >= 2,
            spec_extract_prime(c0, r0 as int, p as int, idx) == spec_extract_prime(
                c,
                r as int,
                p as int,
                idx,
            ),
            int_divisible(r0 as int, r as int),
            (r == 0 <==> r0 == 0),
            (r < 0 <==> r0 < 0),
            nat_abs(r as int) <= nat_abs(r0 as int),
            keep_going == extract_step_applies(r as int, p as int, idx),
        decreases nat_abs(r as int), 1int,
    {
        proof {
            lemma_step_pow_facts(r as int, p as int, idx);
        }
        let c2: Rat = match c.mul_int(p as i64) {
            Ok(v) => v,
            Err(e) => {
                return Err(e);
            },
        };
        proof {
            lemma_rat_reduce_ok(c.n() * (p as int), c.d());
        }
        let mag: u64 = crate::eval::abs_u64(r) / q;
        proof {
            let qi = pow(p as int, idx as nat);
            // |r| == q * (|r| / q) since the remainder is zero
            lemma_fundamental_div_mod(nat_abs(r as int) as int, qi);
            assert(nat_abs(r as int) as int == qi * (mag as int));
            assert(mag <= 0x4000_0000_0000_0000) by (nonlinear_arith)
                requires
                    nat_abs(r as int) as int == qi * (mag as int),
                    qi >= 2,
                    nat_abs(r as int) <= 0x8000_0000_0000_0000,
                    mag >= 0,
            ;
        }
        let r2: i64 = if r < 0 {
            -(mag as i64)
        } else {
            mag as i64
        };
        proof {
            let qi = pow(p as int, idx as nat);
            if r < 0 {
                assert(r as int == qi * (-(mag as int))) by (nonlinear_arith)
                    requires
                        nat_abs(r as int) as int == qi * (mag as int),
                        r < 0,
                        nat_abs(r as int) == -(r as int),
                ;
                vstd::arithmetic::div_mod::lemma_div_multiples_vanish(-(mag as int), qi);
                assert(r2 as int == (r as int) / qi);
            } else {
                assert(r as int == qi * (mag as int)) by (nonlinear_arith)
                    requires
                        nat_abs(r as int) as int == qi * (mag as int),
                        r >= 0,
                        nat_abs(r as int) == r as int,
                ;
                vstd::arithmetic::div_mod::lemma_div_multiples_vanish(mag as int, qi);
                assert(r2 as int == (r as int) / qi);
            }
            assert(int_divisible(r as int, r2 as int)) by {
                lemma_divisible_iff_mod(r as int, nat_abs(r2 as int) as int);
                if r2 == 0 {
                    assert(r as int == qi * 0 == 0) by (nonlinear_arith)
                        requires
                            r as int == qi * (r2 as int),
                            r2 == 0,
                    ;
                } else {
                    crate::eval::op::pow::lemma_abs_mul(qi, r2 as int);
                    assert(nat_abs(r as int) == nat_abs(qi) * nat_abs(r2 as int));
                    lemma_mod_multiples_basic(nat_abs(qi) as int, nat_abs(r2 as int) as int);
                    assert((nat_abs(qi) as int * nat_abs(r2 as int) as int) % (nat_abs(
                        r2 as int,
                    ) as int) == 0);
                }
            }
            lemma_divisible_transitive(r0 as int, r as int, r2 as int);
        }
        c = c2;
        r = r2;
        keep_going = r != 0 && crate::eval::abs_u64(r) % q == 0;
        proof {
            assert(keep_going == extract_step_applies(r as int, p as int, idx));
        }
    }
    proof {
        lemma_extract_prime_noop(c, r as int, p as int, idx);
    }
    Ok((c, r))
}

impl Radical {
    /// What simplification yields: for a whole-number radicand, the walk
    /// over the prime table; anything else is left untouched.
    pub open spec fn spec_simplify(self) -> Result<Radical, EvalError> {
        match *self.radicand {
            Number::Int(v) => match spec_simplify_from(self.coefficient, v as int, 0, self.index) {
                Ok(pair) => Ok(
                    Radical {
                        coefficient: pair.0,
                        index: self.index,
                        radicand: Box::new(Number::Int(pair.1 as i64)),
                    },
                ),
                Err(e) => Err(e),
            },
            _ => Ok(self),
        }
    }

    /// Extracts every perfect index-th-power prime factor of the table
    /// from a whole-number radicand into the coefficient, leaving the
    /// radical in normal form; radicands of any other kind are returned
    /// unchanged.
    pub fn simplify(self) -> (res: Result<Radical, EvalError>)
        requires
            self.coefficient.wf(),
            self.index >= 1,
        ensures
            res == self.spec_simplify(),
            res matches Ok(v) ==> {
                &&& v.coefficient.wf()
                &&& v.index == self.index
                &&& radical_simplified(v)
                &&& ((*self.radicand).wf() ==> (*v.radicand).wf())
                &&& (!known_negative(*self.radicand) ==> !known_negative(*v.radicand))
            },
            res matches Err(e) ==> e == EvalError::Overflow,
    {
        let Radical { coefficient, index, radicand } = self;
        match *radicand {
            Number::Int(v) => {
                let ghost c_start = coefficient;
                let mut c: Rat = coefficient;
                let mut r: i64 = v;
                let mut j: usize = 0;
                while j < 15
                    invariant
                        c.wf(),
                        index >= 1,
                        j <= 15,
                        *self.radicand == Number::Int(v),
                        self.coefficient == c_start,
                        self.index == index,
                        c_start.wf(),
                        nat_abs(r as int) <= nat_abs(v as int),
                        (r == 0 <==> v == 0),
                        (r < 0 <==> v < 0),
                        int_divisible(v as int, r as int),
                        spec_simplify_from(c_start, v as int, 0, index) == spec_simplify_from(
                            c,
                            r as int,
                            j as int,
                            index,
                        ),
                        forall|t: int|
                            0 <= t < j ==> !extract_step_applies(
                                r as int,
                                spec_primes()[t],
                                index,
                            ),
                    decreases 15 - j,
                {
                    let p = prime_at(j);
                    let ghost r_before = r;
                    let step = extract_prime_exec(c, r, p, index);
                    match step {
                        Ok(pair) => {
                            c = pair.0;
                            r = pair.1;
                            proof {
                                assert forall|t: int| 0 <= t < j + 1 implies !extract_step_applies(
                                    r as int,
                                    spec_primes()[t],
                                    index,
                                ) by {
                                    if t < j {
                                        lemma_nonapplies_preserved(
                                            r_before as int,
                                            r as int,
                                            spec_primes()[t],
                                            index,
                                        );
                                    }
                                }
                                lemma_divisible_transitive(v as int, r_before as int, r as int);
                            }
                        },
                        Err(e) => {
                            proof {
                                assert(spec_simplify_from(c, r as int, j as int, index) == Err::<
                                    (Rat, int),
                                    EvalError,
                                >(e));
                                assert(spec_simplify_from(c_start, v as int, 0, index) == Err::<
                                    (Rat, int),
                                    EvalError,
                                >(e));
                                assert(*self.radicand == Number::Int(v));
                                assert(self.coefficient == c_start);
                                assert(self.index == index);
                                assert(self.spec_simplify() == Err::<Radical, EvalError>(e));
                            }
                            return Err(e);
                        },
                    }
                    j = j + 1;
                }
                Ok(Radical { coefficient: c, index, radicand: Box::new(Number::Int(r)) })
            },
            other => Ok(Radical { coefficient, index, radicand: Box::new(other) }),
        }
    }

    /// The radical normal form is a fixed point: simplifying an already
    /// simplified radical gives back a value structurally equal to it.
    pub proof fn lemma_simplify_idempotent(rad: Radical)
        requires
            radical_simplified(rad),
        ensures
            rad.spec_simplify() == Ok::<Radical, EvalError>(rad),
    {
        match *rad.radicand {
            Number::Int(v) => {
                lemma_simplify_from_noop(rad.coefficient, v as int, 0, rad.index);
                assert(rad.spec_simplify() matches Ok(out) && out.radicand == rad.radicand
                    && out.coefficient == rad.coefficient && out.index == rad.index);
            },
            _ => {},
        }
    }

    /// Simplification preserves the radical's value: for a whole-number
    /// radicand, the simplified coefficient raised to the index times
    /// the simplified radicand equals the original coefficient raised
    /// to the index times the original radicand, cross-multiplied over
    /// the two coefficient denominators; any other radicand comes back
    /// untouched.
    pub proof fn lemma_simplify_preserves_value(self)
        requires
            self.index >= 1,
            self.coefficient.d() >= 1,
        ensures
            self.spec_simplify() matches Ok(out) ==> match (*self.radicand, *out.radicand) {
                (Number::Int(v0), Number::Int(v1)) => pow(out.coefficient.n(), self.index as nat)
                    * v1 * pow(self.coefficient.d(), self.index as nat) == pow(
                    self.coefficient.n(),
                    self.index as nat,
                ) * v0 * pow(out.coefficient.d(), self.index as nat),
                _ => out == self,
            },
    {
        match *self.radicand {
            Number::Int(v) => {
                lemma_simplify_from_value(self.coefficient, v as int, 0, self.index);
                lemma_simplify_from_magnitude(self.coefficient, v as int, 0, self.index);
            },
            _ => {},
        }
    }

    /// Builds a radical through the normalizing simplifier.  An even
    /// index asks for a radicand that is not known to be negative.
    pub fn new(coeff: Rat, index: u32, radicand: Number) -> (res: Result<Radical, EvalError>)
        requires
            coeff.wf(),
            radicand.wf(),
            index >= 2,
            index % 2 == 0 ==> !known_negative(radicand),
        ensures
            res == (Radical {
                coefficient: coeff,
                index,
                radicand: Box::new(radicand),
            }).spec_simplify(),
            res matches Ok(v) ==> {
                &&& v.coefficient.wf()
                &&& v.index == index
                &&& radical_simplified(v)
                &&& (*v.radicand).wf()
                &&& Number::Radical(Box::new(v)).wf()
            },
            res matches Err(e) ==> e == EvalError::Overflow,
    {
        let raw = Radical { coefficient: coeff, index, radicand: Box::new(radicand) };
        let res = raw.simplify();
        proof {
            match &res {
                Ok(v) => {
                    assert(Number::Radical(Box::new(*v)).wf());
                },
                Err(_) => {},
            }
        }
        res
    }

    /// What the conjugate is: the radicand raised to one less than the
    /// index, under the same index, re-simplified; it rationalizes a
    /// radical denominator.  Only whole-number radicands have one here.
    pub open spec fn spec_conjugate(self) -> Result<Radical, EvalError> {
        match *self.radicand {
            Number::Int(x) => {
                let pv = pow(x as int, (self.index - 1) as nat);
                if i64::MIN <= pv <= i64::MAX {
                    (Radical {
                        coefficient: crate::rat::spec_rat(1, 1),
                        index: self.index,
                        radicand: Box::new(Number::Int(pv as i64)),
                    }).spec_simplify()
                } else {
                    Err(EvalError::Overflow)
                }
            },
            _ => Err(EvalError::Inexact),
        }
    }

    /// The conjugate used to rationalize a denominator.
    pub fn conjugate(self) -> (r: Result<Radical, EvalError>)
        requires
            self.index >= 2,
        ensures
            r == self.spec_conjugate(),
            r matches Ok(v) ==> v.coefficient.wf() && v.index == self.index && (*v.radicand).wf(),
    {
        match *self.radicand {
            Number::Int(x) => {
                let pv = match crate::eval::op::pow::checked_pow_i64(x, self.index - 1) {
                    Some(v) => v,
                    None => {
                        return Err(EvalError::Overflow);
                    },
                };
                let one = Rat::from_int(1);
                proof {
                    crate::rat::lemma_spec_rat_parts(1, 1);
                    crate::rat::lemma_rat_eq_parts(one, crate::rat::spec_rat(1, 1));
                }
                (Radical { coefficient: one, index: self.index, radicand: Box::new(Number::Int(pv)) }).simplify()
            },
            _ => Err(EvalError::Inexact),
        }
    }

    /// Builds a radical from parts without simplifying.
    pub fn new_raw(coeff: Rat, index: u32, radicand: Number) -> (res: Radical)
        ensures
            res == (Radical { coefficient: coeff, index, radicand: Box::new(radicand) }),
    {
        Radical { coefficient: coeff, index, radicand: Box::new(radicand) }
    }
}

/// A radical whose radicand simplified all the way down to one is just
/// its coefficient.
pub open spec fn spec_radical_to_number(rad: Radical) -> Number {
    if *rad.radicand == Number::Int(1) {
        rat_to_number(rad.coefficient)
    } else {
        Number::Radical(Box::new(rad))
    }
}

/// Wraps a radical as a `Number`, demoting a trivial radicand.
pub fn radical_to_number(rad: Radical) -> (r: Number)
    requires
        rad.coefficient.wf(),
        rad.index >= 2,
        (*rad.radicand).wf(),
        rad.index % 2 == 0 ==> !known_negative(*rad.radicand),
    ensures
        r == spec_radical_to_number(rad),
        r.wf(),
{
    let trivial: bool = num_eq(&rad.radicand, &Number::Int(1));
    if trivial {
        crate::eval::rat_as_number(rad.coefficient)
    } else {
        Number::Radical(Box::new(rad))
    }
}

} // verus!
