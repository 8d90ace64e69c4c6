//! Exact trigonometric identities on rational multiples of pi, with
//! quadrant reduction.

use vstd::prelude::*;

use crate::eval::radical::Radical;
use crate::eval::{EvalError, Number, Symbol, Symbolic};
use crate::rat::{
    lemma_one_gcd, lemma_rat_eq_parts, lemma_red_of_coprime, lemma_spec_rat_parts, spec_rat, Rat,
};

verus! {

/// The mathematical (nonnegative) remainder of n modulo m.
fn euclid_mod(n: i128, m: i128) -> (r: i128)
    requires
        1 <= m <= 0x7fff_ffff_ffff_ffff_ffff,
        -0x7fff_ffff_ffff_ffff_ffff <= n <= 0x7fff_ffff_ffff_ffff_ffff,
    ensures
        r == (n as int) % (m as int),
        0 <= r < m,
{
    if n >= 0 {
        let r = n % m;
        proof {
            assert(r == (n as int) % (m as int));
        }
        r
    } else {
        let a = (-n) % m;
        proof {
            vstd::arithmetic::div_mod::lemma_fundamental_div_mod(-(n as int), m as int);
            let q = -(n as int) / (m as int);
            if a == 0 {
                assert(n as int == (m as int) * (-q) + 0) by (nonlinear_arith)
                    requires
                        -(n as int) == (m as int) * q + 0,
                ;
                vstd::arithmetic::div_mod::lemma_fundamental_div_mod_converse(
                    n as int,
                    m as int,
                    -q,
                    0,
                );
            } else {
                assert(n as int == (m as int) * (-q - 1) + ((m as int) - a)) by (nonlinear_arith)
                    requires
                        -(n as int) == (m as int) * q + a,
                ;
                vstd::arithmetic::div_mod::lemma_fundamental_div_mod_converse(
                    n as int,
                    m as int,
                    -q - 1,
                    m as int - a,
                );
            }
        }
        if a == 0 {
            0
        } else {
            m - a
        }
    }
}

/// The fraction one half, with a chosen sign.
fn signed_half(neg: bool) -> (r: Rat)
    ensures
        r == spec_rat(if neg { -1int } else { 1int }, 2),
        r.wf(),
        r.d() == 2,
        r.n() == (if neg { -1int } else { 1int }),
{
    proof {
        lemma_one_gcd(2);
        lemma_red_of_coprime(if neg { -1int } else { 1int }, 2);
        lemma_spec_rat_parts(if neg { -1int } else { 1int }, 2);
    }
    let sign: i64 = if neg { -1 } else { 1 };
    let r = match Rat::new(sign, 2) {
        Ok(q) => q,
        Err(_) => {
            // unreachable: one over a small fixed denominator always reduces
            proof {
                assert(false);
            }
            Rat::from_int(0)
        },
    };
    proof {
        lemma_rat_eq_parts(r, spec_rat(if neg { -1int } else { 1int }, 2));
    }
    r
}

/// A radical of the form (s/2) * sqrt(x), used by the identity tables.
fn half_sqrt(neg: bool, x: i64) -> (r: Number)
    requires
        x == 2 || x == 3,
    ensures
        r == Number::Radical(
            Box::new(
                Radical {
                    coefficient: spec_rat(if neg { -1int } else { 1int }, 2),
                    index: 2,
                    radicand: Box::new(Number::Int(x)),
                },
            ),
        ),
        r.wf(),
{
    let c = signed_half(neg);
    let out = Number::Radical(
        Box::new(Radical { coefficient: c, index: 2, radicand: Box::new(Number::Int(x)) }),
    );
    proof {
        assert(Number::Int(x).wf());
        assert(out.wf());
    }
    out
}

impl Number {
    /// The looked-up value of sin(pi * n / d) after reduction of n/d to
    /// the first quadrant, where `neg` carries the folded sign.
    pub open spec fn spec_sin_lookup(neg: bool, nr: int, d: int) -> Result<Number, EvalError> {
        let s: int = if neg { -1 } else { 1 };
        if nr == 0 {
            Ok(Number::Int(0))
        } else if 6 * nr == d {
            Ok(Number::Rational(spec_rat(s, 2)))
        } else if 4 * nr == d {
            Ok(Number::Radical(Box::new(Radical {
                coefficient: spec_rat(s, 2),
                index: 2,
                radicand: Box::new(Number::Int(2)),
            })))
        } else if 3 * nr == d {
            Ok(Number::Radical(Box::new(Radical {
                coefficient: spec_rat(s, 2),
                index: 2,
                radicand: Box::new(Number::Int(3)),
            })))
        } else if 2 * nr == d {
            Ok(Number::Int(s as i64))
        } else if 10 * nr == d {
            Ok(Number::Symbolic(Box::new(Symbolic {
                coeff: Some(Number::Rational(spec_rat(s, 2))),
                symbol: Symbol::Phi,
                constant: Some(Number::Rational(spec_rat(-s, 2))),
            })))
        } else {
            Err(EvalError::Inexact)
        }
    }

    /// What the sine of pi times n/d is: reduce modulo a full turn, fold
    /// into the first quadrant with the sign rules of sine, and consult
    /// the identity table.
    pub open spec fn spec_sin_pi_rational(n: int, d: int) -> Result<Number, EvalError> {
        let r0 = n % (2 * d);
        let neg0 = r0 >= d;
        let r1 = if r0 >= d { r0 - d } else { r0 };
        let nr = if 2 * r1 > d { d - r1 } else { r1 };
        Self::spec_sin_lookup(neg0, nr, d)
    }

    /// What the sine yields: exact values on whole multiples of pi and
    /// on tabled rational multiples of pi, and no exact form otherwise.
    pub open spec fn spec_sin(x: Number) -> Result<Number, EvalError> {
        match x {
            Number::Int(v) => if v == 0 {
                Ok(Number::Int(0))
            } else {
                Err(EvalError::Inexact)
            },
            Number::Symbol(Symbol::Pi) => Ok(Number::Int(0)),
            Number::Symbolic(s) => {
                if s.symbol == Symbol::Pi && s.constant is None {
                    match s.coeff {
                        Some(Number::Int(_)) => Ok(Number::Int(0)),
                        Some(Number::Rational(q)) => Self::spec_sin_pi_rational(q.n(), q.d()),
                        _ => Err(EvalError::Inexact),
                    }
                } else {
                    Err(EvalError::Inexact)
                }
            },
            _ => Err(EvalError::Inexact),
        }
    }

    /// The exact sine.
    pub fn sin(x: Number) -> (r: Result<Number, EvalError>)
        requires
            x.wf(),
        ensures
            r == Self::spec_sin(x),
            r matches Ok(v) ==> v.wf(),
    {
        match x {
            Number::Int(v) => if v == 0 {
                Ok(Number::Int(0))
            } else {
                Err(EvalError::Inexact)
            },
            Number::Symbol(Symbol::Pi) => Ok(Number::Int(0)),
            Number::Symbolic(s) => {
                if s.symbol == Symbol::Pi && s.constant.is_none() {
                    match &s.coeff {
                        Some(Number::Int(_)) => Ok(Number::Int(0)),
                        Some(Number::Rational(q)) => {
                            proof {
                                assert((Number::Rational(*q)).wf());
                                assert(q.wf());
                            }
                            Self::sin_pi_rational(q.numer(), q.denom())
                        },
                        _ => Err(EvalError::Inexact),
                    }
                } else {
                    Err(EvalError::Inexact)
                }
            },
            _ => Err(EvalError::Inexact),
        }
    }

    /// Reduces a rational multiple of pi and looks its sine up.
    fn sin_pi_rational(n: i64, d: i64) -> (r: Result<Number, EvalError>)
        requires
            d >= 1,
        ensures
            r == Self::spec_sin_pi_rational(n as int, d as int),
            r matches Ok(v) ==> v.wf(),
    {
        let r0: i128 = euclid_mod(n as i128, 2 * d as i128);
        let neg0: bool = r0 >= d as i128;
        let r1: i128 = if r0 >= d as i128 {
            r0 - d as i128
        } else {
            r0
        };
        let nr: i128 = if 2 * r1 > d as i128 {
            d as i128 - r1
        } else {
            r1
        };
        let s_is_neg = neg0;
        if nr == 0 {
            Ok(Number::Int(0))
        } else if 6 * nr == d as i128 {
            let h = signed_half(s_is_neg);
            proof {
                assert(Number::Rational(h).wf());
            }
            Ok(Number::Rational(h))
        } else if 4 * nr == d as i128 {
            Ok(half_sqrt(s_is_neg, 2))
        } else if 3 * nr == d as i128 {
            Ok(half_sqrt(s_is_neg, 3))
        } else if 2 * nr == d as i128 {
            Ok(Number::Int(if s_is_neg { -1 } else { 1 }))
        } else if 10 * nr == d as i128 {
            let c = signed_half(s_is_neg);
            let k = signed_half(!s_is_neg);
            let out = Number::Symbolic(
                Box::new(
                    Symbolic {
                        coeff: Some(Number::Rational(c)),
                        symbol: Symbol::Phi,
                        constant: Some(Number::Rational(k)),
                    },
                ),
            );
            proof {
                assert(Number::Rational(c).wf());
                assert(Number::Rational(k).wf());
                assert(out.wf());
            }
            Ok(out)
        } else {
            Err(EvalError::Inexact)
        }
    }
}

impl Number {
    /// The looked-up value of cos(pi * n / d) after reduction to the
    /// first quadrant, where `neg` carries the folded sign.
    pub open spec fn spec_cos_lookup(neg: bool, nr: int, d: int) -> Result<Number, EvalError> {
        let s: int = if neg { -1 } else { 1 };
        if nr == 0 {
            Ok(Number::Int(s as i64))
        } else if 6 * nr == d {
            Ok(Number::Radical(Box::new(Radical {
                coefficient: spec_rat(s, 2),
                index: 2,
                radicand: Box::new(Number::Int(3)),
            })))
        } else if 4 * nr == d {
            Ok(Number::Radical(Box::new(Radical {
                coefficient: spec_rat(s, 2),
                index: 2,
                radicand: Box::new(Number::Int(2)),
            })))
        } else if 3 * nr == d {
            Ok(Number::Rational(spec_rat(s, 2)))
        } else if 2 * nr == d {
            Ok(Number::Int(0))
        } else if 5 * nr == d {
            Ok(Number::Symbolic(Box::new(Symbolic {
                coeff: Some(Number::Rational(spec_rat(s, 2))),
                symbol: Symbol::Phi,
                constant: None,
            })))
        } else {
            Err(EvalError::Inexact)
        }
    }

    /// What the cosine of pi times n/d is: reduce modulo a full turn,
    /// reflect the second half of the turn back, fold into the first
    /// quadrant with the sign rules of cosine, and consult the table.
    pub open spec fn spec_cos_pi_rational(n: int, d: int) -> Result<Number, EvalError> {
        let r0 = n % (2 * d);
        let r1 = if r0 > d { 2 * d - r0 } else { r0 };
        let neg = 2 * r1 > d;
        let nr = if 2 * r1 > d { d - r1 } else { r1 };
        Self::spec_cos_lookup(neg, nr, d)
    }

    /// What the cosine yields: exact values on whole multiples of pi
    /// and on tabled rational multiples of pi, and no exact form
    /// otherwise.
    pub open spec fn spec_cos(x: Number) -> Result<Number, EvalError> {
        match x {
            Number::Int(v) => if v == 0 {
                Ok(Number::Int(1))
            } else {
                Err(EvalError::Inexact)
            },
            Number::Symbol(Symbol::Pi) => Ok(Number::Int((-1) as i64)),
            Number::Symbolic(s) => {
                if s.symbol == Symbol::Pi && s.constant is None {
                    match s.coeff {
                        Some(Number::Int(k)) => if k % 2 == 0 {
                            Ok(Number::Int(1))
                        } else {
                            Ok(Number::Int((-1) as i64))
                        },
                        Some(Number::Rational(q)) => Self::spec_cos_pi_rational(q.n(), q.d()),
                        _ => Err(EvalError::Inexact),
                    }
                } else {
                    Err(EvalError::Inexact)
                }
            },
            _ => Err(EvalError::Inexact),
        }
    }

    /// The exact cosine.
    pub fn cos(x: Number) -> (r: Result<Number, EvalError>)
        requires
            x.wf(),
        ensures
            r == Self::spec_cos(x),
            r matches Ok(v) ==> v.wf(),
    {
        match x {
            Number::Int(v) => if v == 0 {
                Ok(Number::Int(1))
            } else {
                Err(EvalError::Inexact)
            },
            Number::Symbol(Symbol::Pi) => Ok(Number::Int(-1)),
            Number::Symbolic(s) => {
                if s.symbol == Symbol::Pi && s.constant.is_none() {
                    match &s.coeff {
                        Some(Number::Int(k)) => {
                            let e: i128 = euclid_mod(*k as i128, 2);
                            if e == 0 {
                                Ok(Number::Int(1))
                            } else {
                                Ok(Number::Int(-1))
                            }
                        },
                        Some(Number::Rational(q)) => {
                            proof {
                                assert((Number::Rational(*q)).wf());
                                assert(q.wf());
                            }
                            Self::cos_pi_rational(q.numer(), q.denom())
                        },
                        _ => Err(EvalError::Inexact),
                    }
                } else {
                    Err(EvalError::Inexact)
                }
            },
            _ => Err(EvalError::Inexact),
        }
    }

    /// Reduces a rational multiple of pi and looks its cosine up.
    fn cos_pi_rational(n: i64, d: i64) -> (r: Result<Number, EvalError>)
        requires
            d >= 1,
        ensures
            r == Self::spec_cos_pi_rational(n as int, d as int),
            r matches Ok(v) ==> v.wf(),
    {
        let r0: i128 = euclid_mod(n as i128, 2 * d as i128);
        let r1: i128 = if r0 > d as i128 {
            2 * d as i128 - r0
        } else {
            r0
        };
        let neg: bool = 2 * r1 > d as i128;
        let nr: i128 = if 2 * r1 > d as i128 {
            d as i128 - r1
        } else {
            r1
        };
        if nr == 0 {
            Ok(Number::Int(if neg { -1 } else { 1 }))
        } else if 6 * nr == d as i128 {
            Ok(half_sqrt(neg, 3))
        } else if 4 * nr == d as i128 {
            Ok(half_sqrt(neg, 2))
        } else if 3 * nr == d as i128 {
            let h = signed_half(neg);
            proof {
                assert(Number::Rational(h).wf());
            }
            Ok(Number::Rational(h))
        } else if 2 * nr == d as i128 {
            Ok(Number::Int(0))
        } else if 5 * nr == d as i128 {
            let c = signed_half(neg);
            let out = Number::Symbolic(
                Box::new(
                    Symbolic {
                        coeff: Some(Number::Rational(c)),
                        symbol: Symbol::Phi,
                        constant: None,
                    },
                ),
            );
            proof {
                assert(Number::Rational(c).wf());
                assert(out.wf());
            }
            Ok(out)
        } else {
            Err(EvalError::Inexact)
        }
    }

    /// The looked-up value of tan(pi * n / d) after folding into the
    /// first quadrant.
    pub open spec fn spec_tan_lookup(neg: bool, nr: int, d: int) -> Result<Number, EvalError> {
        let s: int = if neg { -1 } else { 1 };
        if nr == 0 {
            Ok(Number::Int(0))
        } else if 6 * nr == d {
            Ok(Number::Radical(Box::new(Radical {
                coefficient: spec_rat(s, 3),
                index: 2,
                radicand: Box::new(Number::Int(3)),
            })))
        } else if 4 * nr == d {
            Ok(Number::Int(s as i64))
        } else if 3 * nr == d {
            Ok(Number::Radical(Box::new(Radical {
                coefficient: spec_rat(s, 1),
                index: 2,
                radicand: Box::new(Number::Int(3)),
            })))
        } else {
            Err(EvalError::Inexact)
        }
    }

    /// What the tangent of pi times n/d is: reduce modulo a half turn,
    /// fail on an odd multiple of a quarter turn, fold and consult the
    /// table.
    pub open spec fn spec_tan_pi_rational(n: int, d: int) -> Result<Number, EvalError> {
        let r0 = n % d;
        if 2 * r0 == d {
            Err(EvalError::TangentUndefined)
        } else {
            let neg = 2 * r0 > d;
            let nr = if 2 * r0 > d { d - r0 } else { r0 };
            Self::spec_tan_lookup(neg, nr, d)
        }
    }

    /// What the tangent yields: exact values on tabled rational
    /// multiples of pi, a failure on odd multiples of a quarter turn,
    /// and the exact quotient of sine by cosine elsewhere when both
    /// exist.
    pub open spec fn spec_tan(x: Number) -> Result<Number, EvalError> {
        match x {
            Number::Int(v) => if v == 0 {
                Ok(Number::Int(0))
            } else {
                Err(EvalError::Inexact)
            },
            Number::Symbolic(s) => {
                if s.symbol == Symbol::Pi && s.constant is None {
                    match s.coeff {
                        Some(Number::Int(_)) => Ok(Number::Int(0)),
                        Some(Number::Rational(q)) => Self::spec_tan_pi_rational(q.n(), q.d()),
                        _ => Err(EvalError::Inexact),
                    }
                } else {
                    Err(EvalError::Inexact)
                }
            },
            _ => match Self::spec_sin(x) {
                Ok(sv) => match Self::spec_cos(x) {
                    Ok(cv) => Self::spec_div(sv, cv),
                    Err(e) => Err(e),
                },
                Err(e) => Err(e),
            },
        }
    }

    /// The exact tangent.
    pub fn tan(x: Number) -> (r: Result<Number, EvalError>)
        requires
            x.wf(),
        ensures
            r == Self::spec_tan(x),
            r matches Ok(v) ==> v.wf(),
    {
        match &x {
            Number::Int(v) => if *v == 0 {
                Ok(Number::Int(0))
            } else {
                Err(EvalError::Inexact)
            },
            Number::Symbolic(s) => {
                if s.symbol == Symbol::Pi && s.constant.is_none() {
                    match &s.coeff {
                        Some(Number::Int(_)) => Ok(Number::Int(0)),
                        Some(Number::Rational(q)) => {
                            proof {
                                assert((Number::Rational(*q)).wf());
                                assert(q.wf());
                            }
                            Self::tan_pi_rational(q.numer(), q.denom())
                        },
                        _ => Err(EvalError::Inexact),
                    }
                } else {
                    Err(EvalError::Inexact)
                }
            },
            _ => {
                let sv = match Self::sin(crate::eval::num_clone(&x)) {
                    Ok(v) => v,
                    Err(e) => {
                        return Err(e);
                    },
                };
                let cv = match Self::cos(crate::eval::num_clone(&x)) {
                    Ok(v) => v,
                    Err(e) => {
                        return Err(e);
                    },
                };
                sv.div(&cv)
            },
        }
    }

    /// Reduces a rational multiple of pi and looks its tangent up.
    fn tan_pi_rational(n: i64, d: i64) -> (r: Result<Number, EvalError>)
        requires
            d >= 1,
        ensures
            r == Self::spec_tan_pi_rational(n as int, d as int),
            r matches Ok(v) ==> v.wf(),
    {
        let r0: i128 = euclid_mod(n as i128, d as i128);
        if 2 * r0 == d as i128 {
            return Err(EvalError::TangentUndefined);
        }
        let neg: bool = 2 * r0 > d as i128;
        let nr: i128 = if 2 * r0 > d as i128 {
            d as i128 - r0
        } else {
            r0
        };
        if nr == 0 {
            Ok(Number::Int(0))
        } else if 6 * nr == d as i128 {
            let c = signed_third(neg);
            let out = Number::Radical(
                Box::new(
                    Radical { coefficient: c, index: 2, radicand: Box::new(Number::Int(3)) },
                ),
            );
            proof {
                assert(Number::Int(3).wf());
                assert(out.wf());
            }
            Ok(out)
        } else if 4 * nr == d as i128 {
            Ok(Number::Int(if neg { -1 } else { 1 }))
        } else if 3 * nr == d as i128 {
            let c = signed_one(neg);
            let out = Number::Radical(
                Box::new(
                    Radical { coefficient: c, index: 2, radicand: Box::new(Number::Int(3)) },
                ),
            );
            proof {
                assert(Number::Int(3).wf());
                assert(out.wf());
            }
            Ok(out)
        } else {
            Err(EvalError::Inexact)
        }
    }
}

/// The fraction one third, with a chosen sign.
fn signed_third(neg: bool) -> (r: Rat)
    ensures
        r == spec_rat(if neg { -1int } else { 1int }, 3),
        r.wf(),
        r.d() == 3,
        r.n() == (if neg { -1int } else { 1int }),
{
    proof {
        lemma_one_gcd(3);
        lemma_red_of_coprime(if neg { -1int } else { 1int }, 3);
        lemma_spec_rat_parts(if neg { -1int } else { 1int }, 3);
    }
    let sign: i64 = if neg { -1 } else { 1 };
    let r = match Rat::new(sign, 3) {
        Ok(q) => q,
        Err(_) => {
            // unreachable: one over a small fixed denominator always reduces
            proof {
                assert(false);
            }
            Rat::from_int(0)
        },
    };
    proof {
        lemma_rat_eq_parts(r, spec_rat(if neg { -1int } else { 1int }, 3));
    }
    r
}

/// Plus or minus one as a rational.
fn signed_one(neg: bool) -> (r: Rat)
    ensures
        r == spec_rat(if neg { -1int } else { 1int }, 1),
        r.wf(),
        r.d() == 1,
        r.n() == (if neg { -1int } else { 1int }),
{
    proof {
        lemma_one_gcd(1);
        lemma_red_of_coprime(if neg { -1int } else { 1int }, 1);
        lemma_spec_rat_parts(if neg { -1int } else { 1int }, 1);
    }
    let sign: i64 = if neg { -1 } else { 1 };
    let r = Rat::from_int(sign);
    proof {
        lemma_rat_eq_parts(r, spec_rat(if neg { -1int } else { 1int }, 1));
    }
    r
}

} // verus!
