//! Exact addition over every pair of value kinds.

use vstd::prelude::*;
use vstd::arithmetic::power::pow;

use crate::eval::radical::Radical;
use crate::eval::{
    normalize_symbolic, num_clone, num_eq, rat_as_number, rat_to_number, spec_normalize_symbolic,
    symbolic_clone, EvalError, Number, Symbolic,
};
use crate::rat::{lemma_rat_reduce_ok, rat_reduce_result, spec_rat_add, Rat};

use super::pow::checked_pow_i64;

verus! {

/// The addition operator of the engine.  An implementor states when the
/// operation may be asked for and what it returns, so every use through
/// the trait keeps the full contract.
pub trait Add<RHS = Self> {
    type Output;

    /// When the operands are acceptable.
    spec fn add_req(&self, rhs: &RHS) -> bool;

    /// What the sum is.
    spec fn add_spec(&self, rhs: &RHS) -> Self::Output;

    fn add(&self, rhs: &RHS) -> (r: Self::Output)
        requires
            self.add_req(rhs),
        ensures
            r == self.add_spec(rhs),
    ;
}


impl Symbolic {
    /// The combined size of the two optional parts.
    pub open spec fn parts_size(self) -> nat {
        (match self.coeff {
            Some(c) => c.size(),
            None => 0,
        }) + (match self.constant {
            Some(c) => c.size(),
            None => 0,
        })
    }
}

/// Whether the radicand of the finer radical, raised to the ratio of the
/// two indices, reproduces the coarser radicand.  The test is made for
/// whole-number radicands; other radicands never fold this way.
pub open spec fn spec_index_fold_matches(big: Radical, small: Radical) -> bool {
    &&& small.index >= 1
    &&& big.index % small.index == 0
    &&& match (*big.radicand, *small.radicand) {
        (Number::Int(bv), Number::Int(sv)) => pow(
            sv as int,
            (big.index / small.index) as nat,
        ) == bv as int,
        _ => false,
    }
}

/// Whether `small`'s radicand raised to the index ratio gives `big`'s.
pub fn index_fold_matches(big: &Radical, small: &Radical) -> (r: bool)
    ensures
        r == spec_index_fold_matches(*big, *small),
{
    if small.index >= 1 && big.index % small.index == 0 {
        match (&*big.radicand, &*small.radicand) {
            (Number::Int(bv), Number::Int(sv)) => {
                match checked_pow_i64(*sv, big.index / small.index) {
                    Some(v) => v == *bv,
                    None => false,
                }
            },
            _ => false,
        }
    } else {
        false
    }
}

impl Number {
    /// What addition yields for every pair of exact values.
    ///
    /// Whole numbers and fractions add exactly (a whole result is demoted
    /// to `Int`); a bare symbol absorbs the other operand as the constant
    /// of a fresh symbolic term; two symbolic terms over the same symbol
    /// merge part by part (a missing coefficient counts as one, a missing
    /// constant as zero) while different symbols fold the right term into
    /// the left term's constant; radicals combine only when they denote
    /// like roots, and otherwise the sum has no exact form.
    pub open spec fn spec_add(a: Number, b: Number) -> Result<Number, EvalError>
        decreases a.size() + b.size(), 1int,
    {
        match (a, b) {
            (Number::Int(x), Number::Int(y)) => if i64::MIN <= x + y <= i64::MAX {
                Ok(Number::Int((x + y) as i64))
            } else {
                Err(EvalError::Overflow)
            },
            (Number::Int(x), Number::Rational(y)) | (Number::Rational(y), Number::Int(x)) => {
                match rat_reduce_result(y.n() + x * y.d(), y.d()) {
                    Ok(q) => Ok(rat_to_number(q)),
                    Err(e) => Err(e),
                }
            },
            (Number::Rational(x), Number::Rational(y)) => match spec_rat_add(x, y) {
                Ok(q) => Ok(rat_to_number(q)),
                Err(e) => Err(e),
            },
            (Number::Symbol(s), other) | (other, Number::Symbol(s)) => Ok(
                spec_normalize_symbolic(
                    Symbolic { coeff: None, symbol: s, constant: Some(other) },
                ),
            ),
            (Number::Symbolic(l), Number::Symbolic(r)) => Self::spec_add_symbolics(*l, *r),
            (Number::Symbolic(l), other) | (other, Number::Symbolic(l)) => {
                Self::spec_add_symbolic_scalar(*l, other)
            },
            (Number::Radical(x), Number::Radical(y)) => Self::spec_add_radicals(*x, *y),
            (Number::Radical(_), _) | (_, Number::Radical(_)) => Err(EvalError::Inexact),
        }
    }

    /// The merge of two symbolic terms under addition.
    pub open spec fn spec_add_symbolics(l: Symbolic, r: Symbolic) -> Result<Number, EvalError>
        decreases l.parts_size() + r.parts_size() + 2, 0int,
    {
        if l.symbol == r.symbol {
            let coeff_r = match (l.coeff, r.coeff) {
                (None, None) => Ok(Number::Int(2)),
                (Some(c), None) => Number::spec_add(c, Number::Int(1)),
                (None, Some(c)) => Number::spec_add(c, Number::Int(1)),
                (Some(c), Some(d)) => Number::spec_add(c, d),
            };
            let constant_r = match (l.constant, r.constant) {
                (None, None) => Ok(None),
                (Some(c), None) => Ok(Some(c)),
                (None, Some(c)) => Ok(Some(c)),
                (Some(c), Some(d)) => match Number::spec_add(c, d) {
                    Ok(v) => Ok(Some(v)),
                    Err(e) => Err(e),
                },
            };
            match (coeff_r, constant_r) {
                (Ok(c), Ok(k)) => Ok(
                    spec_normalize_symbolic(
                        Symbolic { coeff: Some(c), symbol: l.symbol, constant: k },
                    ),
                ),
                (Err(e), _) => Err(e),
                (Ok(_), Err(e)) => Err(e),
            }
        } else {
            let constant_r = match l.constant {
                None => Ok(Some(Number::Symbolic(Box::new(r)))),
                Some(c) => match Number::spec_add(c, Number::Symbolic(Box::new(r))) {
                    Ok(v) => Ok(Some(v)),
                    Err(e) => Err(e),
                },
            };
            match constant_r {
                Ok(k) => Ok(
                    spec_normalize_symbolic(
                        Symbolic { coeff: l.coeff, symbol: l.symbol, constant: k },
                    ),
                ),
                Err(e) => Err(e),
            }
        }
    }

    /// Adding a non-symbolic value to a symbolic term: it joins the
    /// constant part.
    pub open spec fn spec_add_symbolic_scalar(l: Symbolic, other: Number) -> Result<
        Number,
        EvalError,
    >
        decreases l.parts_size() + 1 + other.size(), 0int,
    {
        let constant_r = match l.constant {
            None => Ok(Some(other)),
            Some(c) => match Number::spec_add(c, other) {
                Ok(v) => Ok(Some(v)),
                Err(e) => Err(e),
            },
        };
        match constant_r {
            Ok(k) => Ok(
                spec_normalize_symbolic(Symbolic { coeff: l.coeff, symbol: l.symbol, constant: k }),
            ),
            Err(e) => Err(e),
        }
    }

    /// The sum of two radicals: like roots add their coefficients, where
    /// "like" allows one index to divide the other with matching
    /// radicands; anything else has no exact sum.
    pub open spec fn spec_add_radicals(x: Radical, y: Radical) -> Result<Number, EvalError> {
        if x.index == y.index && *x.radicand == *y.radicand {
            match spec_rat_add(x.coefficient, y.coefficient) {
                Ok(c) => Ok(
                    Number::Radical(
                        Box::new(Radical { coefficient: c, index: x.index, radicand: x.radicand }),
                    ),
                ),
                Err(e) => Err(e),
            }
        } else if spec_index_fold_matches(x, y) {
            match spec_rat_add(x.coefficient, y.coefficient) {
                Ok(c) => Ok(
                    Number::Radical(
                        Box::new(Radical { coefficient: c, index: x.index, radicand: x.radicand }),
                    ),
                ),
                Err(e) => Err(e),
            }
        } else if spec_index_fold_matches(y, x) {
            match spec_rat_add(x.coefficient, y.coefficient) {
                Ok(c) => Ok(
                    Number::Radical(
                        Box::new(Radical { coefficient: c, index: y.index, radicand: y.radicand }),
                    ),
                ),
                Err(e) => Err(e),
            }
        } else {
            Err(EvalError::Inexact)
        }
    }

    /// Exact addition.
    pub fn add(&self, rhs: &Self) -> (r: Result<Number, EvalError>)
        requires
            self.wf(),
            rhs.wf(),
        ensures
            r == Self::spec_add(*self, *rhs),
            r matches Ok(v) ==> v.wf(),
        decreases self.size() + rhs.size(), 1int,
    {
        match (self, rhs) {
            (Number::Int(x), Number::Int(y)) => {
                match x.checked_add(*y) {
                    Some(v) => Ok(Number::Int(v)),
                    None => Err(EvalError::Overflow),
                }
            },
            (Number::Int(x), Number::Rational(y)) | (Number::Rational(y), Number::Int(x)) => {
                let fi = Rat::from_int(*x);
                match y.add(&fi) {
                    Ok(q) => {
                        proof {
                            assert(y.n() * fi.d() + fi.n() * y.d() == y.n() + x * y.d())
                                by (nonlinear_arith)
                                requires
                                    fi.d() == 1,
                                    fi.n() == x as int,
                            ;
                            assert(y.d() * fi.d() == y.d()) by (nonlinear_arith)
                                requires
                                    fi.d() == 1,
                            ;
                            assert(rat_reduce_result(y.n() + x * y.d(), y.d()) is Ok);
                            lemma_rat_reduce_ok(y.n() + x * y.d(), y.d());
                        }
                        Ok(rat_as_number(q))
                    },
                    Err(e) => {
                        proof {
                            assert(y.n() * fi.d() + fi.n() * y.d() == y.n() + x * y.d())
                                by (nonlinear_arith)
                                requires
                                    fi.d() == 1,
                                    fi.n() == x as int,
                            ;
                            assert(y.d() * fi.d() == y.d()) by (nonlinear_arith)
                                requires
                                    fi.d() == 1,
                            ;
                        }
                        Err(e)
                    },
                }
            },
            (Number::Rational(x), Number::Rational(y)) => {
                match x.add(y) {
                    Ok(q) => {
                        proof {
                            assert(x.d() * y.d() >= 1) by (nonlinear_arith)
                                requires
                                    x.d() >= 1,
                                    y.d() >= 1,
                            ;
                            lemma_rat_reduce_ok(x.n() * y.d() + y.n() * x.d(), x.d() * y.d());
                        }
                        Ok(rat_as_number(q))
                    },
                    Err(e) => Err(e),
                }
            },
            (Number::Symbol(s), other) | (other, Number::Symbol(s)) => Ok(
                normalize_symbolic(
                    Symbolic { coeff: None, symbol: *s, constant: Some(num_clone(other)) },
                ),
            ),
            (Number::Symbolic(l), Number::Symbolic(r)) => Self::add_symbolics(l, r),
            (Number::Symbolic(l), other) | (other, Number::Symbolic(l)) => {
                Self::add_symbolic_scalar(l, other)
            },
            (Number::Radical(x), Number::Radical(y)) => Self::add_radicals(x, y),
            (Number::Radical(_), _) | (_, Number::Radical(_)) => Err(EvalError::Inexact),
        }
    }

    /// Merges two symbolic terms under addition.
    fn add_symbolics(l: &Symbolic, r: &Symbolic) -> (res: Result<Number, EvalError>)
        requires
            (l.coeff matches Some(c) ==> c.wf()),
            (l.constant matches Some(c) ==> c.wf()),
            (r.coeff matches Some(c) ==> c.wf()),
            (r.constant matches Some(c) ==> c.wf()),
            !(r.coeff is None && r.constant is None),
        ensures
            res == Self::spec_add_symbolics(*l, *r),
            res matches Ok(v) ==> v.wf(),
        decreases l.parts_size() + r.parts_size() + 2, 0int,
    {
        if l.symbol == r.symbol {
            let one = Number::Int(1);
            let coeff_sum: Number = match (&l.coeff, &r.coeff) {
                (None, None) => Number::Int(2),
                (Some(c), None) => match c.add(&one) {
                    Ok(v) => v,
                    Err(e) => {
                        return Err(e);
                    },
                },
                (None, Some(c)) => match c.add(&one) {
                    Ok(v) => v,
                    Err(e) => {
                        return Err(e);
                    },
                },
                (Some(c), Some(d)) => match c.add(d) {
                    Ok(v) => v,
                    Err(e) => {
                        return Err(e);
                    },
                },
            };
            let constant_sum: Option<Number> = match (&l.constant, &r.constant) {
                (None, None) => None,
                (Some(c), None) => Some(num_clone(c)),
                (None, Some(c)) => Some(num_clone(c)),
                (Some(c), Some(d)) => match c.add(d) {
                    Ok(v) => Some(v),
                    Err(e) => {
                        return Err(e);
                    },
                },
            };
            Ok(
                normalize_symbolic(
                    Symbolic { coeff: Some(coeff_sum), symbol: l.symbol, constant: constant_sum },
                ),
            )
        } else {
            let folded = Number::Symbolic(Box::new(symbolic_clone(r)));
            let constant: Option<Number> = match &l.constant {
                None => Some(folded),
                Some(c) => match c.add(&folded) {
                    Ok(v) => Some(v),
                    Err(e) => {
                        return Err(e);
                    },
                },
            };
            let coeff: Option<Number> = match &l.coeff {
                Some(c) => Some(num_clone(c)),
                None => None,
            };
            Ok(normalize_symbolic(Symbolic { coeff, symbol: l.symbol, constant }))
        }
    }

    /// Adds a non-symbolic value into a symbolic term's constant.
    fn add_symbolic_scalar(l: &Symbolic, other: &Number) -> (res: Result<Number, EvalError>)
        requires
            (l.coeff matches Some(c) ==> c.wf()),
            (l.constant matches Some(c) ==> c.wf()),
            other.wf(),
        ensures
            res == Self::spec_add_symbolic_scalar(*l, *other),
            res matches Ok(v) ==> v.wf(),
        decreases l.parts_size() + 1 + other.size(), 0int,
    {
        let constant: Option<Number> = match &l.constant {
            None => Some(num_clone(other)),
            Some(c) => match c.add(other) {
                Ok(v) => Some(v),
                Err(e) => {
                    return Err(e);
                },
            },
        };
        let coeff: Option<Number> = match &l.coeff {
            Some(c) => Some(num_clone(c)),
            None => None,
        };
        Ok(normalize_symbolic(Symbolic { coeff, symbol: l.symbol, constant }))
    }

    /// Adds two radicals where an exact combined form exists.
    fn add_radicals(x: &Radical, y: &Radical) -> (res: Result<Number, EvalError>)
        requires
            x.coefficient.wf(),
            x.index >= 2,
            (*x.radicand).wf(),
            x.index % 2 == 0 ==> !crate::eval::known_negative(*x.radicand),
            y.coefficient.wf(),
            y.index >= 2,
            (*y.radicand).wf(),
            y.index % 2 == 0 ==> !crate::eval::known_negative(*y.radicand),
        ensures
            res == Self::spec_add_radicals(*x, *y),
            res matches Ok(v) ==> v.wf(),
    {
        let like: bool = x.index == y.index && num_eq(&x.radicand, &y.radicand);
        if like || index_fold_matches(x, y) {
            match x.coefficient.add(&y.coefficient) {
                Ok(c) => {
                    proof {
                        assert(x.coefficient.d() * y.coefficient.d() >= 1) by (nonlinear_arith)
                            requires
                                x.coefficient.d() >= 1,
                                y.coefficient.d() >= 1,
                        ;
                        lemma_rat_reduce_ok(
                            x.coefficient.n() * y.coefficient.d() + y.coefficient.n()
                                * x.coefficient.d(),
                            x.coefficient.d() * y.coefficient.d(),
                        );
                    }
                    Ok(
                        Number::Radical(
                            Box::new(
                                Radical {
                                    coefficient: c,
                                    index: x.index,
                                    radicand: Box::new(num_clone(&x.radicand)),
                                },
                            ),
                        ),
                    )
                },
                Err(e) => Err(e),
            }
        } else if index_fold_matches(y, x) {
            match x.coefficient.add(&y.coefficient) {
                Ok(c) => {
                    proof {
                        assert(x.coefficient.d() * y.coefficient.d() >= 1) by (nonlinear_arith)
                            requires
                                x.coefficient.d() >= 1,
                                y.coefficient.d() >= 1,
                        ;
                        lemma_rat_reduce_ok(
                            x.coefficient.n() * y.coefficient.d() + y.coefficient.n()
                                * x.coefficient.d(),
                            x.coefficient.d() * y.coefficient.d(),
                        );
                    }
                    Ok(
                        Number::Radical(
                            Box::new(
                                Radical {
                                    coefficient: c,
                                    index: y.index,
                                    radicand: Box::new(num_clone(&y.radicand)),
                                },
                            ),
                        ),
                    )
                },
                Err(e) => Err(e),
            }
        } else {
            Err(EvalError::Inexact)
        }
    }
}

impl Add for Number {
    type Output = Result<Number, EvalError>;

    open spec fn add_req(&self, rhs: &Number) -> bool {
        self.wf() && rhs.wf()
    }

    open spec fn add_spec(&self, rhs: &Number) -> Result<Number, EvalError> {
        Number::spec_add(*self, *rhs)
    }

    fn add(&self, rhs: &Number) -> (r: Result<Number, EvalError>) {
        Number::add(self, rhs)
    }
}

} // verus!
