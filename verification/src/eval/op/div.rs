//! Exact division over every pair of value kinds.

use vstd::prelude::*;
use vstd::arithmetic::power::pow;

use crate::eval::radical::Radical;
use crate::eval::{
    normalize_symbolic, num_clone, num_eq, rat_as_number, rat_to_number, spec_divisible,
    spec_normalize_symbolic, EvalError, Number, Symbolic,
};
use crate::rat::{
    gcd, lemma_rat_reduce_ok, lemma_reduced_den_one_iff_divisible, nat_abs, rat_reduce_result,
    red_den, red_mag, red_num, spec_rat_div, Rat,
};

use super::pow::checked_pow_i64;

verus! {

/// The rank used to order division's recursion: fractions reduce to
/// whole-number divisions.
pub open spec fn rat_rank(n: Number) -> int {
    match n {
        Number::Rational(_) => 1,
        _ => 0,
    }
}

impl Number {
    /// What division yields for every pair of exact values.
    ///
    /// Division by an exact zero fails; division by one returns the
    /// dividend.  Whole numbers divide into a whole number or a reduced
    /// fraction; fractions cross-multiply into whole-number divisions; a
    /// radical divisor over a whole-number radicand is rationalized
    /// through its conjugate; symbolic dividends distribute the divisor
    /// over their parts; everything else has no exact quotient.
    pub open spec fn spec_div(a: Number, b: Number) -> Result<Number, EvalError>
        decreases b.size(), rat_rank(b), a.size(), rat_rank(a), 1int,
    {
        if b == Number::Int(0) {
            Err(EvalError::DivideByZero)
        } else if b == Number::Int(1) {
            Ok(a)
        } else {
            match a {
                Number::Int(n) => match b {
                    Number::Int(m) => match rat_reduce_result(n as int, m as int) {
                        Ok(q) => Ok(rat_to_number(q)),
                        Err(e) => Err(e),
                    },
                    Number::Rational(m) => if i64::MIN <= n * m.d() <= i64::MAX {
                        Self::spec_div(Number::Int((n * m.d()) as i64), Number::Int(m.n() as i64))
                    } else {
                        Err(EvalError::Overflow)
                    },
                    Number::Radical(r) => Self::spec_div_by_radical(a, *r),
                    _ => Err(EvalError::Inexact),
                },
                Number::Symbol(s) => match b {
                    Number::Int(m) => match rat_reduce_result(1, m as int) {
                        Ok(q) => Ok(
                            spec_normalize_symbolic(
                                Symbolic {
                                    coeff: Some(rat_to_number(q)),
                                    symbol: s,
                                    constant: None,
                                },
                            ),
                        ),
                        Err(e) => Err(e),
                    },
                    Number::Symbol(t) => if s == t {
                        Ok(Number::Int(1))
                    } else {
                        Err(EvalError::Inexact)
                    },
                    Number::Rational(m) => match rat_reduce_result(m.d(), m.n()) {
                        Ok(q) => Ok(
                            spec_normalize_symbolic(
                                Symbolic {
                                    coeff: Some(rat_to_number(q)),
                                    symbol: s,
                                    constant: None,
                                },
                            ),
                        ),
                        Err(e) => Err(e),
                    },
                    _ => Err(EvalError::Inexact),
                },
                Number::Symbolic(l) => {
                    if l.coeff is None && l.constant is None {
                        Err(EvalError::IllFormedSymbolic)
                    } else if (b matches Number::Symbol(m) && l.symbol == m && (match l.constant {
                        None => true,
                        Some(k) => spec_divisible(k, b),
                    })) {
                        let c = match l.coeff {
                            None => Number::Int(1),
                            Some(c) => c,
                        };
                        match l.constant {
                            None => Ok(c),
                            Some(k) => match Self::spec_div(k, b) {
                                Ok(q) => Number::spec_add(c, q),
                                Err(e) => Err(e),
                            },
                        }
                    } else {
                        let coeff_r = match l.coeff {
                            None => Self::spec_div(Number::Int(1), b),
                            Some(c) => Self::spec_div(c, b),
                        };
                        match coeff_r {
                            Ok(c2) => {
                                let constant_r = match l.constant {
                                    None => Ok(None),
                                    Some(k) => match Self::spec_div(k, b) {
                                        Ok(v) => Ok(Some(v)),
                                        Err(e) => Err(e),
                                    },
                                };
                                match constant_r {
                                    Ok(cst) => Ok(
                                        spec_normalize_symbolic(
                                            Symbolic {
                                                coeff: Some(c2),
                                                symbol: l.symbol,
                                                constant: cst,
                                            },
                                        ),
                                    ),
                                    Err(e) => Err(e),
                                }
                            },
                            Err(e) => Err(e),
                        }
                    }
                },
                Number::Radical(n) => match b {
                    Number::Int(m) => match rat_reduce_result(n.coefficient.n(), n.coefficient.d()
                        * m) {
                        Ok(c) => Ok(
                            Number::Radical(
                                Box::new(
                                    Radical {
                                        coefficient: c,
                                        index: n.index,
                                        radicand: n.radicand,
                                    },
                                ),
                            ),
                        ),
                        Err(e) => Err(e),
                    },
                    Number::Radical(m) => if spec_divisible(a, b) {
                        // equal radicands and indices cancel: the quotient is
                        // the plain ratio of the coefficients
                        match spec_rat_div(n.coefficient, m.coefficient) {
                            Ok(c) => Ok(rat_to_number(c)),
                            Err(e) => Err(e),
                        }
                    } else {
                        Err(EvalError::Inexact)
                    },
                    Number::Rational(m) => match rat_reduce_result(
                        n.coefficient.n() * m.d(),
                        n.coefficient.d() * m.n(),
                    ) {
                        Ok(c) => Ok(
                            Number::Radical(
                                Box::new(
                                    Radical {
                                        coefficient: c,
                                        index: n.index,
                                        radicand: n.radicand,
                                    },
                                ),
                            ),
                        ),
                        Err(e) => Err(e),
                    },
                    _ => Err(EvalError::Inexact),
                },
                Number::Rational(x) => match b {
                    Number::Int(m) => if i64::MIN <= x.d() * m <= i64::MAX {
                        Self::spec_div(Number::Int(x.n() as i64), Number::Int((x.d() * m) as i64))
                    } else {
                        Err(EvalError::Overflow)
                    },
                    Number::Rational(m) => if i64::MIN <= x.n() * m.d() <= i64::MAX && i64::MIN
                        <= x.d() * m.n() <= i64::MAX {
                        Self::spec_div(
                            Number::Int((x.n() * m.d()) as i64),
                            Number::Int((x.d() * m.n()) as i64),
                        )
                    } else {
                        Err(EvalError::Overflow)
                    },
                    Number::Radical(r) => Self::spec_div_by_radical(a, *r),
                    _ => Err(EvalError::Inexact),
                },
            }
        }
    }

    /// Division by a radical over a whole-number radicand: multiply by
    /// the conjugate (with the reciprocal coefficient) and divide by the
    /// radicand.
    pub open spec fn spec_div_by_radical(a: Number, r: Radical) -> Result<Number, EvalError>
        decreases 1 + (*r.radicand).size(), 0int, a.size(), rat_rank(a), 0int,
    {
        match *r.radicand {
            Number::Int(x) => {
                if r.index < 2 {
                    Err(EvalError::Inexact)
                } else {
                    let pv = pow(x as int, (r.index - 1) as nat);
                    if i64::MIN <= pv <= i64::MAX {
                        match spec_rat_div(spec_one_rat(), r.coefficient) {
                            Ok(rc) => match (Radical {
                                coefficient: rc,
                                index: r.index,
                                radicand: Box::new(Number::Int(pv as i64)),
                            }).spec_simplify() {
                                Ok(conj) => match Number::spec_mul(
                                    a,
                                    Number::Radical(Box::new(conj)),
                                ) {
                                    Ok(num) => Self::spec_div(num, Number::Int(x)),
                                    Err(e) => Err(e),
                                },
                                Err(e) => Err(e),
                            },
                            Err(e) => Err(e),
                        }
                    } else {
                        Err(EvalError::Overflow)
                    }
                }
            },
            _ => Err(EvalError::Inexact),
        }
    }
}

/// The rational one.
pub open spec fn spec_one_rat() -> Rat {
    crate::rat::spec_rat(1, 1)
}

impl Number {
    /// Exact division.
    pub fn div(&self, rhs: &Self) -> (r: Result<Number, EvalError>)
        requires
            self.wf(),
            rhs.wf(),
        ensures
            r == Self::spec_div(*self, *rhs),
            r matches Ok(v) ==> v.wf(),
        decreases rhs.size(), rat_rank(*rhs), self.size(), rat_rank(*self), 1int,
    {
        if num_eq(rhs, &Number::Int(0)) {
            Err(EvalError::DivideByZero)
        } else if num_eq(rhs, &Number::Int(1)) {
            Ok(num_clone(self))
        } else {
            match (self, rhs) {
                (Number::Int(n), Number::Int(m)) => {
                    match Rat::new(*n, *m) {
                        Ok(q) => {
                            proof {
                                lemma_rat_reduce_ok(*n as int, *m as int);
                            }
                            Ok(rat_as_number(q))
                        },
                        Err(e) => Err(e),
                    }
                },
                (Number::Int(n), Number::Rational(m)) => {
                    proof {
                        crate::rat::lemma_rat_range(*m);
                        crate::rat::lemma_mul_bound_num_den(*n as int, m.d());
                    }
                    let prod: i128 = *n as i128 * m.denom() as i128;
                    if prod < i64::MIN as i128 || prod > i64::MAX as i128 {
                        Err(EvalError::Overflow)
                    } else {
                        Self::div(&Number::Int(prod as i64), &Number::Int(m.numer()))
                    }
                },
                (Number::Int(_), Number::Radical(r)) => Self::div_by_radical(self, r),
                (Number::Rational(_), Number::Radical(r)) => Self::div_by_radical(self, r),
                (Number::Int(_), _) => Err(EvalError::Inexact),
                (Number::Symbol(s), Number::Int(m)) => {
                    match Rat::new(1, *m) {
                        Ok(q) => {
                            proof {
                                lemma_rat_reduce_ok(1, *m as int);
                            }
                            Ok(
                                normalize_symbolic(
                                    Symbolic {
                                        coeff: Some(rat_as_number(q)),
                                        symbol: *s,
                                        constant: None,
                                    },
                                ),
                            )
                        },
                        Err(e) => Err(e),
                    }
                },
                (Number::Symbol(s), Number::Symbol(t)) => {
                    if s == t {
                        Ok(Number::Int(1))
                    } else {
                        Err(EvalError::Inexact)
                    }
                },
                (Number::Symbol(s), Number::Rational(m)) => {
                    proof {
                        crate::rat::lemma_wf_nonint_nonzero(*m);
                    }
                    match m.recip() {
                        Ok(q) => {
                            proof {
                                lemma_rat_reduce_ok(m.d(), m.n());
                            }
                            Ok(
                                normalize_symbolic(
                                    Symbolic {
                                        coeff: Some(rat_as_number(q)),
                                        symbol: *s,
                                        constant: None,
                                    },
                                ),
                            )
                        },
                        Err(e) => Err(e),
                    }
                },
                (Number::Symbol(_), _) => Err(EvalError::Inexact),
                (Number::Symbolic(l), b) => Self::div_symbolic(l, b),
                (Number::Radical(n), Number::Int(m)) => {
                    match n.coefficient.div_int(*m) {
                        Ok(c) => {
                            proof {
                                assert(n.coefficient.d() * (*m as int) != 0) by (nonlinear_arith)
                                    requires
                                        n.coefficient.d() >= 1,
                                        *m != 0,
                                ;
                                lemma_rat_reduce_ok(n.coefficient.n(), n.coefficient.d() * (*m as int));
                            }
                            Ok(
                                Number::Radical(
                                    Box::new(
                                        Radical {
                                            coefficient: c,
                                            index: n.index,
                                            radicand: Box::new(num_clone(&n.radicand)),
                                        },
                                    ),
                                ),
                            )
                        },
                        Err(e) => Err(e),
                    }
                },
                (Number::Radical(n), Number::Rational(m)) => {
                    proof {
                        crate::rat::lemma_wf_nonint_nonzero(*m);
                    }
                    match n.coefficient.div(m) {
                        Ok(c) => {
                            proof {
                                assert(n.coefficient.d() * m.n() != 0) by (nonlinear_arith)
                                    requires
                                        n.coefficient.d() >= 1,
                                        m.n() != 0,
                                ;
                                lemma_rat_reduce_ok(
                                    n.coefficient.n() * m.d(),
                                    n.coefficient.d() * m.n(),
                                );
                            }
                            Ok(
                                Number::Radical(
                                    Box::new(
                                        Radical {
                                            coefficient: c,
                                            index: n.index,
                                            radicand: Box::new(num_clone(&n.radicand)),
                                        },
                                    ),
                                ),
                            )
                        },
                        Err(e) => Err(e),
                    }
                },
                (Number::Radical(n), Number::Radical(m)) => {
                    if self.divisible_by(rhs) {
                        match n.coefficient.div(&m.coefficient) {
                            Ok(c) => {
                                proof {
                                    assert(m.coefficient.n() != 0);
                                    assert(n.coefficient.d() * m.coefficient.n() != 0)
                                        by (nonlinear_arith)
                                        requires
                                            n.coefficient.d() >= 1,
                                            m.coefficient.n() != 0,
                                    ;
                                    lemma_rat_reduce_ok(
                                        n.coefficient.n() * m.coefficient.d(),
                                        n.coefficient.d() * m.coefficient.n(),
                                    );
                                }
                                Ok(rat_as_number(c))
                            },
                            Err(e) => Err(e),
                        }
                    } else {
                        Err(EvalError::Inexact)
                    }
                },
                (Number::Radical(_), _) => Err(EvalError::Inexact),
                (Number::Rational(x), Number::Int(m)) => {
                    proof {
                        crate::rat::lemma_rat_range(*x);
                        crate::rat::lemma_mul_bound_64(x.d(), *m as int);
                    }
                    let prod: i128 = x.denom() as i128 * *m as i128;
                    if prod < i64::MIN as i128 || prod > i64::MAX as i128 {
                        Err(EvalError::Overflow)
                    } else {
                        Self::div(&Number::Int(x.numer()), &Number::Int(prod as i64))
                    }
                },
                (Number::Rational(x), Number::Rational(m)) => {
                    proof {
                        crate::rat::lemma_rat_range(*x);
                        crate::rat::lemma_rat_range(*m);
                        crate::rat::lemma_mul_bound_num_den(x.n(), m.d());
                        crate::rat::lemma_mul_bound_64(x.d(), m.n());
                    }
                    let p1: i128 = x.numer() as i128 * m.denom() as i128;
                    let p2: i128 = x.denom() as i128 * m.numer() as i128;
                    if p1 < i64::MIN as i128 || p1 > i64::MAX as i128 || p2 < i64::MIN as i128
                        || p2 > i64::MAX as i128 {
                        Err(EvalError::Overflow)
                    } else {
                        Self::div(&Number::Int(p1 as i64), &Number::Int(p2 as i64))
                    }
                },
                (Number::Rational(_), _) => Err(EvalError::Inexact),
            }
        }
    }

    /// Divides a symbolic dividend by distributing the divisor.
    fn div_symbolic(l: &Symbolic, b: &Number) -> (res: Result<Number, EvalError>)
        requires
            (l.coeff matches Some(c) ==> c.wf()),
            (l.constant matches Some(c) ==> c.wf()),
            b.wf(),
            b != Number::Int(0),
            b != Number::Int(1),
        ensures
            res == Self::spec_div(Number::Symbolic(Box::new(*l)), *b),
            res matches Ok(v) ==> v.wf(),
        decreases b.size(), rat_rank(*b), 1 + l.parts_size(), 0int, 0int,
    {
        let ghost a = Number::Symbolic(Box::new(*l));
        if l.coeff.is_none() && l.constant.is_none() {
            return Err(EvalError::IllFormedSymbolic);
        }
        let factor_out: bool = match b {
            Number::Symbol(m) => l.symbol == *m && (match &l.constant {
                None => true,
                Some(k) => k.divisible_by(b),
            }),
            _ => false,
        };
        if factor_out {
            let c: Number = match &l.coeff {
                None => Number::Int(1),
                Some(c) => num_clone(c),
            };
            match &l.constant {
                None => {
                    proof {
                        assert(Self::spec_div(a, *b) == Ok::<Number, EvalError>(c));
                    }
                    Ok(c)
                },
                Some(k) => {
                    match Self::div(k, b) {
                        Ok(q) => c.add(&q),
                        Err(e) => Err(e),
                    }
                },
            }
        } else {
            let coeff: Number = match &l.coeff {
                None => match Self::div(&Number::Int(1), b) {
                    Ok(v) => v,
                    Err(e) => {
                        return Err(e);
                    },
                },
                Some(c) => match Self::div(c, b) {
                    Ok(v) => v,
                    Err(e) => {
                        return Err(e);
                    },
                },
            };
            let constant: Option<Number> = match &l.constant {
                None => None,
                Some(k) => match Self::div(k, b) {
                    Ok(v) => Some(v),
                    Err(e) => {
                        return Err(e);
                    },
                },
            };
            Ok(normalize_symbolic(Symbolic { coeff: Some(coeff), symbol: l.symbol, constant }))
        }
    }

    /// Divides by a radical over a whole-number radicand by multiplying
    /// with the conjugate and dividing by the radicand.
    fn div_by_radical(a: &Number, r: &Radical) -> (res: Result<Number, EvalError>)
        requires
            a.wf(),
            r.coefficient.wf(),
            r.index >= 2,
            (*r.radicand).wf(),
            r.index % 2 == 0 ==> !crate::eval::known_negative(*r.radicand),
        ensures
            res == Self::spec_div_by_radical(*a, *r),
            res matches Ok(v) ==> v.wf(),
        decreases 1 + (*r.radicand).size(), 0int, a.size(), rat_rank(*a), 0int,
    {
        match &*r.radicand {
            Number::Int(x) => {
                let pv = match checked_pow_i64(*x, r.index - 1) {
                    Some(v) => v,
                    None => {
                        return Err(EvalError::Overflow);
                    },
                };
                let one = Rat::from_int(1);
                proof {
                    crate::rat::lemma_spec_rat_parts(1, 1);
                    crate::rat::lemma_rat_eq_parts(one, spec_one_rat());
                }
                let rc = match one.div(&r.coefficient) {
                    Ok(v) => v,
                    Err(e) => {
                        return Err(e);
                    },
                };
                proof {
                    assert(r.coefficient.n() != 0);
                    assert(1 * r.coefficient.n() != 0) by (nonlinear_arith)
                        requires
                            r.coefficient.n() != 0,
                    ;
                    lemma_rat_reduce_ok(1 * r.coefficient.d(), 1 * r.coefficient.n());
                }
                let conj = match (Radical {
                    coefficient: rc,
                    index: r.index,
                    radicand: Box::new(Number::Int(pv)),
                }).simplify() {
                    Ok(v) => v,
                    Err(e) => {
                        return Err(e);
                    },
                };
                proof {
                    if r.index % 2 == 0 {
                        crate::eval::op::root::lemma_pow_base_mono(
                            0,
                            *x as int,
                            (r.index - 1) as nat,
                        );
                    } else {
                        crate::eval::op::pow::lemma_pow_even_nonneg(
                            *x as int,
                            (r.index - 1) as nat,
                        );
                    }
                    assert(Number::Radical(Box::new(conj)).wf());
                }
                let num = match a.mul(&Number::Radical(Box::new(conj))) {
                    Ok(v) => v,
                    Err(e) => {
                        return Err(e);
                    },
                };
                Self::div(&num, &Number::Int(*x))
            },
            _ => Err(EvalError::Inexact),
        }
    }
}

impl Number {
    /// Division of whole numbers preserves exactness: when the divisor
    /// goes evenly into the dividend the quotient is a whole number, and
    /// otherwise it is a fraction in lowest terms whose denominator is
    /// at least two; no approximation is ever produced.
    pub proof fn lemma_int_division_exactness(a: int, b: int)
        requires
            i64::MIN < a <= i64::MAX,
            i64::MIN < b <= i64::MAX,
            b != 0,
        ensures
            Number::spec_div(Number::Int(a as i64), Number::Int(b as i64)) is Ok,
            crate::eval::int_divisible(a, b) ==> (Number::spec_div(
                Number::Int(a as i64),
                Number::Int(b as i64),
            ) matches Ok(v) && v is Int),
            !crate::eval::int_divisible(a, b) ==> (Number::spec_div(
                Number::Int(a as i64),
                Number::Int(b as i64),
            ) matches Ok(v) && (v matches Number::Rational(q) && q.wf() && q.d() != 1)),
    {
        if b == 1 {
            assert(nat_abs(a) % nat_abs(1) == 0) by (nonlinear_arith);
        } else {
            crate::rat::lemma_reduced_parts(a, b);
            lemma_reduced_den_one_iff_divisible(a, b);
            // the reduced parts stay within the word range
            let g = gcd(nat_abs(a), nat_abs(b));
            assert(red_mag(a, b) <= nat_abs(a)) by (nonlinear_arith)
                requires
                    nat_abs(a) as int == g * red_mag(a, b),
                    g >= 1,
                    red_mag(a, b) >= 0,
            ;
            assert(red_den(a, b) <= nat_abs(b)) by (nonlinear_arith)
                requires
                    nat_abs(b) as int == g * red_den(a, b),
                    g >= 1,
                    red_den(a, b) >= 1,
            ;
            assert(rat_reduce_result(a, b) is Ok);
            lemma_rat_reduce_ok(a, b);
            crate::rat::lemma_spec_rat_parts(red_num(a, b), red_den(a, b));
        }
    }
}

} // verus!
