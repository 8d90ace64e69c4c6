//! Exact exponentiation and its integer-power helpers.

use vstd::prelude::*;
use vstd::arithmetic::power::{lemma_pow1, lemma_pow_adds, pow};

use crate::eval::op::div::rat_rank;
use crate::eval::op::mul::{mul_by_symbol, spec_mul_by_symbol};
use crate::eval::radical::{radical_to_number, spec_radical_to_number, Radical};
use crate::eval::{
    normalize_symbolic, rat_as_number, rat_to_number, spec_normalize_symbolic, EvalError, Number,
    Symbol, Symbolic,
};
use crate::rat::{lemma_rat_reduce_ok, nat_abs, rat_reduce_result, Rat};

verus! {

/// Magnitudes multiply.
pub(crate) proof fn lemma_abs_mul(x: int, y: int)
    ensures
        nat_abs(x * y) == nat_abs(x) * nat_abs(y),
{
    assert(nat_abs(x * y) == nat_abs(x) * nat_abs(y)) by (nonlinear_arith);
}

/// Even powers are never negative.
pub(crate) proof fn lemma_pow_even_nonneg(a: int, e: nat)
    requires
        e % 2 == 0,
    ensures
        pow(a, e) >= 0,
    decreases e,
{
    if e == 0 {
        vstd::arithmetic::power::lemma_pow0(a);
    } else {
        lemma_pow_even_nonneg(a, (e - 2) as nat);
        lemma_pow_adds(a, (e - 2) as nat, 2);
        lemma_pow_adds(a, 1, 1);
        lemma_pow1(a);
        assert(pow(a, (e - 2) as nat) * (a * a) >= 0) by (nonlinear_arith)
            requires
                pow(a, (e - 2) as nat) >= 0,
        ;
    }
}

/// Splitting one factor off a power.
pub(crate) proof fn lemma_pow_peel(b: int, e: nat)
    requires
        e >= 1,
    ensures
        pow(b, e) == pow(b, (e - 1) as nat) * b,
{
    lemma_pow_adds(b, (e - 1) as nat, 1);
    lemma_pow1(b);
}

/// Powers of a base of magnitude at most one keep magnitude at most one.
proof fn lemma_pow_small(b: int, e: nat)
    requires
        nat_abs(b) <= 1,
    ensures
        nat_abs(pow(b, e)) <= 1,
    decreases e,
{
    if e == 0 {
        vstd::arithmetic::power::lemma_pow0(b);
    } else {
        lemma_pow_small(b, (e - 1) as nat);
        lemma_pow_peel(b, e);
        lemma_abs_mul(pow(b, (e - 1) as nat), b);
        assert(nat_abs(pow(b, (e - 1) as nat)) * nat_abs(b) <= 1) by (nonlinear_arith)
            requires
                nat_abs(pow(b, (e - 1) as nat)) <= 1,
                nat_abs(b) <= 1,
        ;
    }
}

/// Powers of a nonzero base are nonzero.
proof fn lemma_pow_mag_pos(b: int, e: nat)
    requires
        b != 0,
    ensures
        nat_abs(pow(b, e)) >= 1,
    decreases e,
{
    if e == 0 {
        vstd::arithmetic::power::lemma_pow0(b);
    } else {
        lemma_pow_mag_pos(b, (e - 1) as nat);
        lemma_pow_peel(b, e);
        lemma_abs_mul(pow(b, (e - 1) as nat), b);
        assert(nat_abs(pow(b, (e - 1) as nat)) * nat_abs(b) >= 1) by (nonlinear_arith)
            requires
                nat_abs(b) >= 1,
                nat_abs(pow(b, (e - 1) as nat)) >= 1,
        ;
    }
}

/// For a base of magnitude at least two, each further factor at least
/// doubles the magnitude of the power.
proof fn lemma_pow_mag_doubles(b: int, e1: nat, e2: nat)
    requires
        nat_abs(b) >= 2,
        e1 < e2,
    ensures
        nat_abs(pow(b, e2)) >= 2 * nat_abs(pow(b, e1)),
    decreases e2 - e1,
{
    lemma_pow_peel(b, e2);
    lemma_abs_mul(pow(b, (e2 - 1) as nat), b);
    if e1 == e2 - 1 {
        assert(nat_abs(pow(b, e1)) * nat_abs(b) >= 2 * nat_abs(pow(b, e1))) by (nonlinear_arith)
            requires
                nat_abs(b) >= 2,
        ;
    } else {
        lemma_pow_mag_doubles(b, e1, (e2 - 1) as nat);
        assert(nat_abs(pow(b, (e2 - 1) as nat)) * nat_abs(b) >= 2 * nat_abs(pow(b, e1)))
            by (nonlinear_arith)
            requires
                nat_abs(b) >= 2,
                nat_abs(pow(b, (e2 - 1) as nat)) >= 2 * nat_abs(pow(b, e1)),
        ;
    }
}

/// Computes b to the e, reporting a result that leaves the 64-bit range
/// instead of overflowing.
pub fn checked_pow_i64(b: i64, e: u32) -> (r: Option<i64>)
    ensures
        r matches Some(v) ==> v as int == pow(b as int, e as nat),
        r is None ==> !(i64::MIN <= pow(b as int, e as nat) <= i64::MAX),
{
    let mut acc: i128 = 1;
    let mut i: u32 = 0;
    proof {
        vstd::arithmetic::power::lemma_pow0(b as int);
    }
    while i < e
        invariant
            i <= e,
            acc == pow(b as int, i as nat),
            i64::MIN <= acc <= i64::MAX,
        decreases e - i,
    {
        proof {
            crate::rat::lemma_mul_bound_64(acc as int, b as int);
            lemma_pow_peel(b as int, (i + 1) as nat);
        }
        let next: i128 = acc * b as i128;
        if next < i64::MIN as i128 || next > i64::MAX as i128 {
            proof {
                assert(next == pow(b as int, (i + 1) as nat));
                assert(nat_abs(next as int) >= 0x8000_0000_0000_0000);
                assert(nat_abs(b as int) >= 2) by {
                    if nat_abs(b as int) <= 1 {
                        lemma_pow_small(b as int, i as nat);
                        lemma_abs_mul(acc as int, b as int);
                        assert(nat_abs(acc as int) * nat_abs(b as int) <= 1) by (nonlinear_arith)
                            requires
                                nat_abs(acc as int) <= 1,
                                nat_abs(b as int) <= 1,
                        ;
                    }
                }
                if i + 1 < e {
                    lemma_pow_mag_doubles(b as int, (i + 1) as nat, e as nat);
                    assert(nat_abs(pow(b as int, e as nat)) >= 2 * 0x8000_0000_0000_0000);
                }
                assert(!(i64::MIN <= pow(b as int, e as nat) <= i64::MAX));
            }
            return None;
        }
        acc = next;
        i = i + 1;
    }
    Some(acc as i64)
}

/// Computes b to the e over unsigned words, reporting a result beyond
/// the 64-bit range instead of overflowing.
pub fn checked_pow_u64(b: u64, e: u32) -> (r: Option<u64>)
    ensures
        r matches Some(v) ==> v as int == pow(b as int, e as nat),
        r is None ==> pow(b as int, e as nat) > u64::MAX,
{
    let mut acc: u128 = 1;
    let mut i: u32 = 0;
    proof {
        vstd::arithmetic::power::lemma_pow0(b as int);
    }
    while i < e
        invariant
            i <= e,
            acc == pow(b as int, i as nat),
            acc <= u64::MAX,
        decreases e - i,
    {
        proof {
            assert(acc * b <= 0xffff_ffff_ffff_ffff * 0xffff_ffff_ffff_ffff) by (nonlinear_arith)
                requires
                    0 <= acc <= 0xffff_ffff_ffff_ffff,
                    0 <= b <= 0xffff_ffff_ffff_ffff,
            ;
            lemma_pow_peel(b as int, (i + 1) as nat);
        }
        let next: u128 = acc * b as u128;
        if next > u64::MAX as u128 {
            proof {
                assert(next == pow(b as int, (i + 1) as nat));
                assert(b >= 1) by {
                    if b == 0 {
                        assert(next == acc * 0 == 0) by (nonlinear_arith)
                            requires
                                next == acc * 0,
                        ;
                    }
                }
                if i + 1 < e {
                    vstd::arithmetic::power::lemma_pow_increases(
                        b as nat,
                        (i + 1) as nat,
                        e as nat,
                    );
                }
            }
            return None;
        }
        acc = next;
        i = i + 1;
    }
    Some(acc as u64)
}

/// A bare symbol raised to a whole power: one for exponent zero, the
/// symbol itself for one, and repeated symbol multiplication beyond.
pub open spec fn spec_symbol_pow(s: Symbol, j: u32) -> Number
    decreases j,
{
    if j == 0 {
        Number::Int(1)
    } else if j == 1 {
        Number::Symbol(s)
    } else {
        spec_mul_by_symbol(spec_symbol_pow(s, (j - 1) as u32), s)
    }
}

/// Raises a bare symbol to a whole power.
pub fn symbol_pow(s: Symbol, j: u32) -> (r: Number)
    ensures
        r == spec_symbol_pow(s, j),
        r.wf(),
{
    if j == 0 {
        return Number::Int(1);
    }
    let mut acc: Number = Number::Symbol(s);
    let mut i: u32 = 1;
    while i < j
        invariant
            1 <= i <= j,
            acc == spec_symbol_pow(s, i),
            acc.wf(),
        decreases j - i,
    {
        acc = mul_by_symbol(&acc, s);
        i = i + 1;
    }
    acc
}

impl Number {
    /// What raising to a power yields.
    ///
    /// A negative exponent inverts the result of the positive power; a
    /// fractional exponent routes the numerator power through the
    /// denominator root; whole exponents on whole numbers, fractions,
    /// radicals, symbols and constant-free symbolic terms compute
    /// directly; anything else has no exact power.
    pub open spec fn spec_pow(a: Number, b: Number) -> Result<Number, EvalError>
        decreases a.size(), rat_rank(b), 1int,
    {
        match b {
            Number::Int(j) => {
                let mag = nat_abs(j as int);
                if mag > u32::MAX {
                    Err(EvalError::Overflow)
                } else {
                    let r = Self::spec_pow_int(a, mag as u32);
                    if j < 0 {
                        match r {
                            Ok(v) => Self::spec_div(Number::Int(1), v),
                            Err(e) => Err(e),
                        }
                    } else {
                        r
                    }
                }
            },
            Number::Rational(q) => {
                if nat_abs(q.n()) > i64::MAX {
                    Err(EvalError::Overflow)
                } else {
                    let r = match Self::spec_pow(a, Number::Int(nat_abs(q.n()) as i64)) {
                        Ok(p) => Self::spec_nth_root(p, q.d()),
                        Err(e) => Err(e),
                    };
                    if q.n() < 0 {
                        match r {
                            Ok(v) => Self::spec_div(Number::Int(1), v),
                            Err(e) => Err(e),
                        }
                    } else {
                        r
                    }
                }
            },
            _ => Err(EvalError::Inexact),
        }
    }

    /// Raising to a nonnegative whole power.
    pub open spec fn spec_pow_int(a: Number, j: u32) -> Result<Number, EvalError>
        decreases a.size(), 0int, 0int,
    {
        if j == 0 {
            Ok(Number::Int(1))
        } else {
            match a {
                Number::Int(i) => {
                    if i64::MIN <= pow(i as int, j as nat) <= i64::MAX {
                        Ok(Number::Int(pow(i as int, j as nat) as i64))
                    } else {
                        Err(EvalError::Overflow)
                    }
                },
                Number::Rational(r) => {
                    let pn = pow(r.n(), j as nat);
                    let pd = pow(r.d(), j as nat);
                    if i64::MIN <= pn <= i64::MAX && 1 <= pd <= i64::MAX {
                        match rat_reduce_result(pn, pd) {
                            Ok(q) => Ok(rat_to_number(q)),
                            Err(e) => Err(e),
                        }
                    } else {
                        Err(EvalError::Overflow)
                    }
                },
                Number::Radical(rad) => {
                    if j % rad.index == 0 {
                        let cn = pow(rad.coefficient.n(), j as nat);
                        let cd = pow(rad.coefficient.d(), j as nat);
                        if i64::MIN <= cn <= i64::MAX && 1 <= cd <= i64::MAX {
                            match rat_reduce_result(cn, cd) {
                                Ok(cq) => match Self::spec_pow_int(
                                    *rad.radicand,
                                    (j / rad.index) as u32,
                                ) {
                                    Ok(rp) => Self::spec_mul(rat_to_number(cq), rp),
                                    Err(e) => Err(e),
                                },
                                Err(e) => Err(e),
                            }
                        } else {
                            Err(EvalError::Overflow)
                        }
                    } else {
                        match *rad.radicand {
                            Number::Int(x) => {
                                let cn = pow(rad.coefficient.n(), j as nat);
                                let cd = pow(rad.coefficient.d(), j as nat);
                                let px = pow(x as int, j as nat);
                                if i64::MIN <= cn <= i64::MAX && 1 <= cd <= i64::MAX && i64::MIN
                                    <= px <= i64::MAX {
                                    match rat_reduce_result(cn, cd) {
                                        Ok(cq) => match (Radical {
                                            coefficient: cq,
                                            index: rad.index,
                                            radicand: Box::new(Number::Int(px as i64)),
                                        }).spec_simplify() {
                                            Ok(v) => Ok(spec_radical_to_number(v)),
                                            Err(e) => Err(e),
                                        },
                                        Err(e) => Err(e),
                                    }
                                } else {
                                    Err(EvalError::Overflow)
                                }
                            },
                            _ => Err(EvalError::Inexact),
                        }
                    }
                },
                Number::Symbol(s) => Ok(spec_symbol_pow(s, j)),
                Number::Symbolic(t) => {
                    if t.constant is Some {
                        Err(EvalError::Inexact)
                    } else {
                        match t.coeff {
                            None => Err(EvalError::IllFormedSymbolic),
                            Some(c) => match Self::spec_pow_int(c, j) {
                                Ok(cp) => {
                                    let sp = spec_symbol_pow(t.symbol, (j - 1) as u32);
                                    match Self::spec_mul(cp, sp) {
                                        Ok(coeff) => Ok(
                                            spec_normalize_symbolic(
                                                Symbolic {
                                                    coeff: Some(coeff),
                                                    symbol: t.symbol,
                                                    constant: None,
                                                },
                                            ),
                                        ),
                                        Err(e) => Err(e),
                                    }
                                },
                                Err(e) => Err(e),
                            },
                        }
                    }
                },
            }
        }
    }

    /// Exact exponentiation.
    pub fn pow(&self, rhs: &Self) -> (r: Result<Number, EvalError>)
        requires
            self.wf(),
            rhs.wf(),
        ensures
            r == Self::spec_pow(*self, *rhs),
            r matches Ok(v) ==> v.wf(),
        decreases self.size(), rat_rank(*rhs), 1int,
    {
        match rhs {
            Number::Int(j) => {
                let mag = crate::eval::abs_u64(*j);
                if mag > u32::MAX as u64 {
                    return Err(EvalError::Overflow);
                }
                let r = Self::pow_int(self, mag as u32);
                if *j < 0 {
                    match r {
                        Ok(v) => Number::div(&Number::Int(1), &v),
                        Err(e) => Err(e),
                    }
                } else {
                    r
                }
            },
            Number::Rational(q) => {
                let nmag = crate::eval::abs_u64(q.numer());
                if nmag > i64::MAX as u64 {
                    return Err(EvalError::Overflow);
                }
                let r = match Self::pow(self, &Number::Int(nmag as i64)) {
                    Ok(p) => Number::nth_root(&p, q.denom()),
                    Err(e) => Err(e),
                };
                if q.numer() < 0 {
                    match r {
                        Ok(v) => Number::div(&Number::Int(1), &v),
                        Err(e) => Err(e),
                    }
                } else {
                    r
                }
            },
            _ => Err(EvalError::Inexact),
        }
    }

    /// Raises to a nonnegative whole power.
    fn pow_int(a: &Number, j: u32) -> (r: Result<Number, EvalError>)
        requires
            a.wf(),
        ensures
            r == Self::spec_pow_int(*a, j),
            r matches Ok(v) ==> v.wf(),
        decreases a.size(), 0int, 0int,
    {
        if j == 0 {
            return Ok(Number::Int(1));
        }
        match a {
            Number::Int(i) => {
                match checked_pow_i64(*i, j) {
                    Some(v) => Ok(Number::Int(v)),
                    None => Err(EvalError::Overflow),
                }
            },
            Number::Rational(r) => {
                let pn = match checked_pow_i64(r.numer(), j) {
                    Some(v) => v,
                    None => {
                        return Err(EvalError::Overflow);
                    },
                };
                let pd = match checked_pow_i64(r.denom(), j) {
                    Some(v) => v,
                    None => {
                        return Err(EvalError::Overflow);
                    },
                };
                proof {
                    vstd::arithmetic::power::lemma_pow_positive(r.d(), j as nat);
                }
                match Rat::new(pn, pd) {
                    Ok(q) => {
                        proof {
                            lemma_rat_reduce_ok(pn as int, pd as int);
                        }
                        Ok(rat_as_number(q))
                    },
                    Err(e) => Err(e),
                }
            },
            Number::Radical(rad) => {
                if j % rad.index == 0 {
                    let cn = match checked_pow_i64(rad.coefficient.numer(), j) {
                        Some(v) => v,
                        None => {
                            return Err(EvalError::Overflow);
                        },
                    };
                    let cd = match checked_pow_i64(rad.coefficient.denom(), j) {
                        Some(v) => v,
                        None => {
                            return Err(EvalError::Overflow);
                        },
                    };
                    proof {
                        vstd::arithmetic::power::lemma_pow_positive(rad.coefficient.d(), j as nat);
                    }
                    let cq = match Rat::new(cn, cd) {
                        Ok(q) => q,
                        Err(e) => {
                            return Err(e);
                        },
                    };
                    proof {
                        lemma_rat_reduce_ok(cn as int, cd as int);
                    }
                    let rp = match Self::pow_int(&rad.radicand, j / rad.index) {
                        Ok(v) => v,
                        Err(e) => {
                            return Err(e);
                        },
                    };
                    Number::mul(&rat_as_number(cq), &rp)
                } else {
                    match &*rad.radicand {
                        Number::Int(x) => {
                            let cn = match checked_pow_i64(rad.coefficient.numer(), j) {
                                Some(v) => v,
                                None => {
                                    return Err(EvalError::Overflow);
                                },
                            };
                            let cd = match checked_pow_i64(rad.coefficient.denom(), j) {
                                Some(v) => v,
                                None => {
                                    return Err(EvalError::Overflow);
                                },
                            };
                            let px = match checked_pow_i64(*x, j) {
                                Some(v) => v,
                                None => {
                                    return Err(EvalError::Overflow);
                                },
                            };
                            proof {
                                vstd::arithmetic::power::lemma_pow_positive(
                                    rad.coefficient.d(),
                                    j as nat,
                                );
                            }
                            let cq = match Rat::new(cn, cd) {
                                Ok(q) => q,
                                Err(e) => {
                                    return Err(e);
                                },
                            };
                            proof {
                                lemma_rat_reduce_ok(cn as int, cd as int);
                                if rad.index % 2 == 0 {
                                    crate::eval::op::root::lemma_pow_base_mono(
                                        0,
                                        *x as int,
                                        j as nat,
                                    );
                                }
                            }
                            match (Radical {
                                coefficient: cq,
                                index: rad.index,
                                radicand: Box::new(Number::Int(px)),
                            }).simplify() {
                                Ok(v) => Ok(radical_to_number(v)),
                                Err(e) => Err(e),
                            }
                        },
                        _ => Err(EvalError::Inexact),
                    }
                }
            },
            Number::Symbol(s) => Ok(symbol_pow(*s, j)),
            Number::Symbolic(t) => {
                if t.constant.is_some() {
                    return Err(EvalError::Inexact);
                }
                match &t.coeff {
                    None => Err(EvalError::IllFormedSymbolic),
                    Some(c) => {
                        let cp = match Self::pow_int(c, j) {
                            Ok(v) => v,
                            Err(e) => {
                                return Err(e);
                            },
                        };
                        let sp = symbol_pow(t.symbol, j - 1);
                        match Number::mul(&cp, &sp) {
                            Ok(coeff) => Ok(
                                normalize_symbolic(
                                    Symbolic { coeff: Some(coeff), symbol: t.symbol, constant: None },
                                ),
                            ),
                            Err(e) => Err(e),
                        }
                    },
                }
            },
        }
    }
}

/// The power operator of the engine.  An implementor states when the
/// operation may be asked for and what it returns, so every use through
/// the trait keeps the full contract.
pub trait Pow<RHS = Self> {
    type Output;

    /// When the operands are acceptable.
    spec fn pow_req(&self, rhs: &RHS) -> bool;

    /// What the power is.
    spec fn pow_spec(&self, rhs: &RHS) -> Self::Output;

    fn pow(&self, rhs: &RHS) -> (r: Self::Output)
        requires
            self.pow_req(rhs),
        ensures
            r == self.pow_spec(rhs),
    ;
}

impl Pow for Number {
    type Output = Result<Number, EvalError>;

    open spec fn pow_req(&self, rhs: &Number) -> bool {
        self.wf() && rhs.wf()
    }

    open spec fn pow_spec(&self, rhs: &Number) -> Result<Number, EvalError> {
        Number::spec_pow(*self, *rhs)
    }

    fn pow(&self, rhs: &Number) -> (r: Result<Number, EvalError>) {
        Number::pow(self, rhs)
    }
}

} // verus!
