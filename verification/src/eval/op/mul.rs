//! Exact multiplication over every pair of value kinds.

use vstd::prelude::*;
use vstd::arithmetic::power::pow;

use crate::eval::radical::Radical;
use crate::eval::{
    known_negative, normalize_symbolic, num_clone, num_eq, rat_as_number, rat_to_number,
    spec_normalize_symbolic, EvalError, Number, Symbol, Symbolic,
};
use crate::rat::{lemma_rat_reduce_ok, rat_reduce_result, spec_rat_mul};

use super::pow::checked_pow_i64;

verus! {

/// What multiplying a value by a bare symbol yields: a symbolic term
/// distributes the symbol over both parts, anything else becomes the
/// coefficient of a fresh term over that symbol.
pub open spec fn spec_mul_by_symbol(x: Number, s: Symbol) -> Number
    decreases x,
{
    match x {
        Number::Symbolic(a) => spec_normalize_symbolic(
            Symbolic {
                coeff: match a.coeff {
                    None => Some(Number::Symbol(s)),
                    Some(c) => Some(spec_mul_by_symbol(c, s)),
                },
                symbol: a.symbol,
                constant: match a.constant {
                    None => None,
                    Some(c) => Some(spec_mul_by_symbol(c, s)),
                },
            },
        ),
        other => spec_normalize_symbolic(
            Symbolic { coeff: Some(other), symbol: s, constant: None },
        ),
    }
}

/// Multiplies a value by a bare symbol.
pub fn mul_by_symbol(x: &Number, s: Symbol) -> (r: Number)
    requires
        x.wf(),
    ensures
        r == spec_mul_by_symbol(*x, s),
        r.wf(),
    decreases *x,
{
    match x {
        Number::Symbolic(a) => {
            let coeff: Option<Number> = match &a.coeff {
                None => Some(Number::Symbol(s)),
                Some(c) => Some(mul_by_symbol(c, s)),
            };
            let constant: Option<Number> = match &a.constant {
                None => None,
                Some(c) => Some(mul_by_symbol(c, s)),
            };
            normalize_symbolic(Symbolic { coeff, symbol: a.symbol, constant })
        },
        other => normalize_symbolic(
            Symbolic { coeff: Some(num_clone(other)), symbol: s, constant: None },
        ),
    }
}

impl Number {
    /// What multiplication yields for every pair of exact values.
    ///
    /// Whole numbers and fractions multiply exactly (whole results are
    /// demoted to `Int`); a scalar times a radical scales its
    /// coefficient; radicals combine when their indices agree (radicands
    /// multiply and the result is re-simplified), when one index divides
    /// the other with a whole-number radicand to raise, or when equal
    /// radicands let the indices add; a scalar times a symbol or
    /// symbolic term distributes over the term's parts; two symbolic
    /// terms expand binomially and the two cross terms recombine through
    /// addition.
    pub open spec fn spec_mul(a: Number, b: Number) -> Result<Number, EvalError>
        decreases a.size() + b.size(), 1int,
    {
        match (a, b) {
            (Number::Int(x), Number::Int(y)) => if i64::MIN <= x * y <= i64::MAX {
                Ok(Number::Int((x * y) as i64))
            } else {
                Err(EvalError::Overflow)
            },
            (Number::Rational(x), Number::Rational(y)) => match spec_rat_mul(x, y) {
                Ok(q) => Ok(rat_to_number(q)),
                Err(e) => Err(e),
            },
            (Number::Radical(x), Number::Radical(y)) => Self::spec_mul_radicals(*x, *y),
            (Number::Symbol(x), Number::Symbol(y)) => Ok(
                Number::Symbolic(
                    Box::new(
                        Symbolic { coeff: Some(Number::Symbol(x)), symbol: y, constant: None },
                    ),
                ),
            ),
            (Number::Symbolic(x), Number::Symbolic(y)) => Self::spec_mul_symbolics(*x, *y),
            (Number::Symbolic(l), Number::Symbol(s)) | (Number::Symbol(s), Number::Symbolic(l)) => {
                Ok(
                    spec_normalize_symbolic(
                        Symbolic {
                            coeff: match l.coeff {
                                None => Some(Number::Symbol(s)),
                                Some(c) => Some(spec_mul_by_symbol(c, s)),
                            },
                            symbol: l.symbol,
                            constant: match l.constant {
                                None => None,
                                Some(c) => Some(spec_mul_by_symbol(c, s)),
                            },
                        },
                    ),
                )
            },
            (Number::Symbolic(l), k) | (k, Number::Symbolic(l)) => Self::spec_mul_symbolic_scalar(
                *l,
                k,
            ),
            (Number::Int(x), Number::Symbol(s)) | (Number::Symbol(s), Number::Int(x)) => Ok(
                spec_normalize_symbolic(
                    Symbolic { coeff: Some(Number::Int(x)), symbol: s, constant: None },
                ),
            ),
            (Number::Int(x), Number::Rational(y)) | (Number::Rational(y), Number::Int(x)) => {
                match rat_reduce_result(y.n() * x, y.d()) {
                    Ok(q) => Ok(rat_to_number(q)),
                    Err(e) => Err(e),
                }
            },
            (Number::Int(x), Number::Radical(rad)) | (Number::Radical(rad), Number::Int(x)) => {
                match rat_reduce_result(rad.coefficient.n() * x, rad.coefficient.d()) {
                    Ok(c) => Ok(
                        Number::Radical(
                            Box::new(
                                Radical {
                                    coefficient: c,
                                    index: rad.index,
                                    radicand: rad.radicand,
                                },
                            ),
                        ),
                    ),
                    Err(e) => Err(e),
                }
            },
            (Number::Rational(x), Number::Radical(rad)) | (
                Number::Radical(rad),
                Number::Rational(x),
            ) => {
                match spec_rat_mul(rad.coefficient, x) {
                    Ok(c) => Ok(
                        Number::Radical(
                            Box::new(
                                Radical {
                                    coefficient: c,
                                    index: rad.index,
                                    radicand: rad.radicand,
                                },
                            ),
                        ),
                    ),
                    Err(e) => Err(e),
                }
            },
            (k, Number::Symbol(s)) | (Number::Symbol(s), k) => Ok(
                spec_normalize_symbolic(Symbolic { coeff: Some(k), symbol: s, constant: None }),
            ),
        }
    }

    /// The product of two radicals.
    pub open spec fn spec_mul_radicals(x: Radical, y: Radical) -> Result<Number, EvalError>
        decreases (1 + (*x.radicand).size()) + (1 + (*y.radicand).size()), 0int,
    {
        if x.index == y.index {
            match spec_rat_mul(x.coefficient, y.coefficient) {
                Ok(c) => match Number::spec_mul(*x.radicand, *y.radicand) {
                    Ok(rad) => if x.index % 2 == 0 && known_negative(rad) {
                        Err(EvalError::Inexact)
                    } else {
                        match (Radical {
                            coefficient: c,
                            index: x.index,
                            radicand: Box::new(rad),
                        }).spec_simplify() {
                            Ok(v) => Ok(crate::eval::radical::spec_radical_to_number(v)),
                            Err(e) => Err(e),
                        }
                    },
                    Err(e) => Err(e),
                },
                Err(e) => Err(e),
            }
        } else if y.index >= 1 && x.index % y.index == 0 {
            Self::spec_mul_radical_folded(x, y)
        } else if x.index >= 1 && y.index % x.index == 0 {
            Self::spec_mul_radical_folded(y, x)
        } else if *x.radicand == *y.radicand {
            if x.index + y.index <= u32::MAX {
                if (x.index + y.index) % 2 == 0 && known_negative(*x.radicand) {
                    Err(EvalError::Inexact)
                } else {
                    match spec_rat_mul(x.coefficient, y.coefficient) {
                        Ok(c) => match (Radical {
                            coefficient: c,
                            index: (x.index + y.index) as u32,
                            radicand: x.radicand,
                        }).spec_simplify() {
                            Ok(v) => Ok(crate::eval::radical::spec_radical_to_number(v)),
                            Err(e) => Err(e),
                        },
                        Err(e) => Err(e),
                    }
                }
            } else {
                Err(EvalError::Overflow)
            }
        } else {
            Err(EvalError::Inexact)
        }
    }

    /// The product of a coarse radical with a finer one whose index
    /// divides the coarse index: the finer radicand is raised to the
    /// index ratio (whole-number radicands only) and the radicands then
    /// multiply under the coarse index.
    pub open spec fn spec_mul_radical_folded(big: Radical, small: Radical) -> Result<
        Number,
        EvalError,
    >
        decreases (1 + (*big.radicand).size()) + (*small.radicand).size(), 0int,
    {
        match *small.radicand {
            Number::Int(sv) => {
                let pv = pow(sv as int, (big.index / small.index) as nat);
                if i64::MIN <= pv <= i64::MAX {
                    match spec_rat_mul(big.coefficient, small.coefficient) {
                        Ok(c) => match Number::spec_mul(*big.radicand, Number::Int(pv as i64)) {
                            Ok(rad) => if big.index % 2 == 0 && known_negative(rad) {
                                Err(EvalError::Inexact)
                            } else {
                                match (Radical {
                                    coefficient: c,
                                    index: big.index,
                                    radicand: Box::new(rad),
                                }).spec_simplify() {
                                    Ok(v) => Ok(crate::eval::radical::spec_radical_to_number(v)),
                                    Err(e) => Err(e),
                                }
                            },
                            Err(e) => Err(e),
                        },
                        Err(e) => Err(e),
                    }
                } else {
                    Err(EvalError::Overflow)
                }
            },
            _ => Err(EvalError::Inexact),
        }
    }

    /// The product of two symbolic terms: binomial expansion into two
    /// terms recombined through addition.
    pub open spec fn spec_mul_symbolics(a: Symbolic, b: Symbolic) -> Result<Number, EvalError>
        decreases a.parts_size() + b.parts_size() + 2, 0int,
    {
        match (b.coeff, b.constant) {
            (None, None) => Err(EvalError::IllFormedSymbolic),
            (Some(k), None) => {
                let coeff_r = match a.coeff {
                    None => Ok(k),
                    Some(x) => Number::spec_mul(x, k),
                };
                match coeff_r {
                    Ok(c1) => {
                        let c2 = spec_mul_by_symbol(c1, b.symbol);
                        let constant_r = match a.constant {
                            None => Ok(None),
                            Some(x) => match Number::spec_mul(x, k) {
                                Ok(v) => Ok(Some(spec_mul_by_symbol(v, b.symbol))),
                                Err(e) => Err(e),
                            },
                        };
                        match constant_r {
                            Ok(cst) => Ok(
                                spec_normalize_symbolic(
                                    Symbolic { coeff: Some(c2), symbol: a.symbol, constant: cst },
                                ),
                            ),
                            Err(e) => Err(e),
                        }
                    },
                    Err(e) => Err(e),
                }
            },
            (b_coeff, Some(kb)) => {
                let first_inner_r = match (a.coeff, b_coeff) {
                    (None, None) => Ok(None),
                    (Some(x), None) => Ok(Some(x)),
                    (None, Some(y)) => Ok(Some(y)),
                    (Some(x), Some(y)) => match Number::spec_mul(x, y) {
                        Ok(v) => Ok(Some(v)),
                        Err(e) => Err(e),
                    },
                };
                match first_inner_r {
                    Ok(first_inner) => {
                        let first_coeff = match first_inner {
                            None => Number::Symbol(b.symbol),
                            Some(v) => spec_mul_by_symbol(v, b.symbol),
                        };
                        let first_const_r = match (a.constant, b_coeff) {
                            (None, _) => Ok(None),
                            (Some(ka), None) => Ok(Some(spec_mul_by_symbol(ka, b.symbol))),
                            (Some(ka), Some(cb)) => match Number::spec_mul(ka, cb) {
                                Ok(v) => Ok(Some(spec_mul_by_symbol(v, b.symbol))),
                                Err(e) => Err(e),
                            },
                        };
                        match first_const_r {
                            Ok(first_const) => {
                                let first = spec_normalize_symbolic(
                                    Symbolic {
                                        coeff: Some(first_coeff),
                                        symbol: a.symbol,
                                        constant: first_const,
                                    },
                                );
                                let second_coeff_r = match a.coeff {
                                    None => Ok(kb),
                                    Some(ca) => Number::spec_mul(ca, kb),
                                };
                                match second_coeff_r {
                                    Ok(sc) => {
                                        let second_const_r = match a.constant {
                                            None => Ok(None),
                                            Some(ka) => match Number::spec_mul(ka, kb) {
                                                Ok(v) => Ok(Some(v)),
                                                Err(e) => Err(e),
                                            },
                                        };
                                        match second_const_r {
                                            Ok(second_const) => {
                                                let second = spec_normalize_symbolic(
                                                    Symbolic {
                                                        coeff: Some(sc),
                                                        symbol: a.symbol,
                                                        constant: second_const,
                                                    },
                                                );
                                                Number::spec_add(first, second)
                                            },
                                            Err(e) => Err(e),
                                        }
                                    },
                                    Err(e) => Err(e),
                                }
                            },
                            Err(e) => Err(e),
                        }
                    },
                    Err(e) => Err(e),
                }
            },
        }
    }

    /// The product of a symbolic term with a plain scalar: it scales
    /// both parts.
    pub open spec fn spec_mul_symbolic_scalar(l: Symbolic, k: Number) -> Result<Number, EvalError>
        decreases l.parts_size() + 1 + k.size(), 0int,
    {
        let coeff_r = match l.coeff {
            None => Ok(Some(k)),
            Some(x) => match Number::spec_mul(x, k) {
                Ok(v) => Ok(Some(v)),
                Err(e) => Err(e),
            },
        };
        match coeff_r {
            Ok(c) => {
                let constant_r = match l.constant {
                    None => Ok(None),
                    Some(x) => match Number::spec_mul(x, k) {
                        Ok(v) => Ok(Some(v)),
                        Err(e) => Err(e),
                    },
                };
                match constant_r {
                    Ok(cst) => Ok(
                        spec_normalize_symbolic(
                            Symbolic { coeff: c, symbol: l.symbol, constant: cst },
                        ),
                    ),
                    Err(e) => Err(e),
                }
            },
            Err(e) => Err(e),
        }
    }
}

impl Number {
    /// Exact multiplication.
    pub fn mul(&self, rhs: &Self) -> (r: Result<Number, EvalError>)
        requires
            self.wf(),
            rhs.wf(),
        ensures
            r == Self::spec_mul(*self, *rhs),
            r matches Ok(v) ==> v.wf(),
        decreases self.size() + rhs.size(), 1int,
    {
        match (self, rhs) {
            (Number::Int(x), Number::Int(y)) => {
                match x.checked_mul(*y) {
                    Some(v) => Ok(Number::Int(v)),
                    None => Err(EvalError::Overflow),
                }
            },
            (Number::Rational(x), Number::Rational(y)) => {
                match x.mul(y) {
                    Ok(q) => {
                        proof {
                            assert(x.d() * y.d() >= 1) by (nonlinear_arith)
                                requires
                                    x.d() >= 1,
                                    y.d() >= 1,
                            ;
                            lemma_rat_reduce_ok(x.n() * y.n(), x.d() * y.d());
                        }
                        Ok(rat_as_number(q))
                    },
                    Err(e) => Err(e),
                }
            },
            (Number::Radical(x), Number::Radical(y)) => Self::mul_radicals(x, y),
            (Number::Symbol(x), Number::Symbol(y)) => Ok(
                Number::Symbolic(
                    Box::new(
                        Symbolic { coeff: Some(Number::Symbol(*x)), symbol: *y, constant: None },
                    ),
                ),
            ),
            (Number::Symbolic(x), Number::Symbolic(y)) => Self::mul_symbolics(x, y),
            (Number::Symbolic(l), Number::Symbol(s)) | (Number::Symbol(s), Number::Symbolic(l)) => {
                let coeff: Option<Number> = match &l.coeff {
                    None => Some(Number::Symbol(*s)),
                    Some(c) => Some(mul_by_symbol(c, *s)),
                };
                let constant: Option<Number> = match &l.constant {
                    None => None,
                    Some(c) => Some(mul_by_symbol(c, *s)),
                };
                Ok(normalize_symbolic(Symbolic { coeff, symbol: l.symbol, constant }))
            },
            (Number::Symbolic(l), k) | (k, Number::Symbolic(l)) => Self::mul_symbolic_scalar(l, k),
            (Number::Int(x), Number::Symbol(s)) | (Number::Symbol(s), Number::Int(x)) => Ok(
                normalize_symbolic(
                    Symbolic { coeff: Some(Number::Int(*x)), symbol: *s, constant: None },
                ),
            ),
            (Number::Int(x), Number::Rational(y)) | (Number::Rational(y), Number::Int(x)) => {
                match y.mul_int(*x) {
                    Ok(q) => {
                        proof {
                            lemma_rat_reduce_ok(y.n() * (x as int), y.d());
                        }
                        Ok(rat_as_number(q))
                    },
                    Err(e) => Err(e),
                }
            },
            (Number::Int(x), Number::Radical(rad)) | (Number::Radical(rad), Number::Int(x)) => {
                match rad.coefficient.mul_int(*x) {
                    Ok(c) => {
                        proof {
                            lemma_rat_reduce_ok(rad.coefficient.n() * (x as int), rad.coefficient.d());
                        }
                        Ok(
                            Number::Radical(
                                Box::new(
                                    Radical {
                                        coefficient: c,
                                        index: rad.index,
                                        radicand: Box::new(num_clone(&rad.radicand)),
                                    },
                                ),
                            ),
                        )
                    },
                    Err(e) => Err(e),
                }
            },
            (Number::Rational(x), Number::Radical(rad)) | (
                Number::Radical(rad),
                Number::Rational(x),
            ) => {
                match rad.coefficient.mul(x) {
                    Ok(c) => {
                        proof {
                            assert(rad.coefficient.d() * x.d() >= 1) by (nonlinear_arith)
                                requires
                                    rad.coefficient.d() >= 1,
                                    x.d() >= 1,
                            ;
                            lemma_rat_reduce_ok(
                                rad.coefficient.n() * x.n(),
                                rad.coefficient.d() * x.d(),
                            );
                        }
                        Ok(
                            Number::Radical(
                                Box::new(
                                    Radical {
                                        coefficient: c,
                                        index: rad.index,
                                        radicand: Box::new(num_clone(&rad.radicand)),
                                    },
                                ),
                            ),
                        )
                    },
                    Err(e) => Err(e),
                }
            },
            (k, Number::Symbol(s)) | (Number::Symbol(s), k) => Ok(
                normalize_symbolic(
                    Symbolic { coeff: Some(num_clone(k)), symbol: *s, constant: None },
                ),
            ),
        }
    }

    /// Multiplies two radicals where an exact product exists.
    fn mul_radicals(x: &Radical, y: &Radical) -> (res: Result<Number, EvalError>)
        requires
            x.coefficient.wf(),
            x.index >= 2,
            (*x.radicand).wf(),
            x.index % 2 == 0 ==> !known_negative(*x.radicand),
            y.coefficient.wf(),
            y.index >= 2,
            (*y.radicand).wf(),
            y.index % 2 == 0 ==> !known_negative(*y.radicand),
        ensures
            res == Self::spec_mul_radicals(*x, *y),
            res matches Ok(v) ==> v.wf(),
        decreases (1 + (*x.radicand).size()) + (1 + (*y.radicand).size()), 0int,
    {
        if x.index == y.index {
            let c = match x.coefficient.mul(&y.coefficient) {
                Ok(c) => c,
                Err(e) => {
                    return Err(e);
                },
            };
            proof {
                assert(x.coefficient.d() * y.coefficient.d() >= 1) by (nonlinear_arith)
                    requires
                        x.coefficient.d() >= 1,
                        y.coefficient.d() >= 1,
                ;
                lemma_rat_reduce_ok(
                    x.coefficient.n() * y.coefficient.n(),
                    x.coefficient.d() * y.coefficient.d(),
                );
            }
            let rad = match x.radicand.mul(&y.radicand) {
                Ok(v) => v,
                Err(e) => {
                    return Err(e);
                },
            };
            if x.index % 2 == 0 && rad.is_known_negative() {
                return Err(EvalError::Inexact);
            }
            match (Radical { coefficient: c, index: x.index, radicand: Box::new(rad) }).simplify() {
                Ok(v) => Ok(crate::eval::radical::radical_to_number(v)),
                Err(e) => Err(e),
            }
        } else if x.index % y.index == 0 {
            Self::mul_radical_folded(x, y)
        } else if y.index % x.index == 0 {
            Self::mul_radical_folded(y, x)
        } else if num_eq(&x.radicand, &y.radicand) {
            match x.index.checked_add(y.index) {
                Some(sum_index) => {
                    if sum_index % 2 == 0 && x.radicand.is_known_negative() {
                        return Err(EvalError::Inexact);
                    }
                    let c = match x.coefficient.mul(&y.coefficient) {
                        Ok(c) => c,
                        Err(e) => {
                            return Err(e);
                        },
                    };
                    proof {
                        assert(x.coefficient.d() * y.coefficient.d() >= 1) by (nonlinear_arith)
                            requires
                                x.coefficient.d() >= 1,
                                y.coefficient.d() >= 1,
                        ;
                        lemma_rat_reduce_ok(
                            x.coefficient.n() * y.coefficient.n(),
                            x.coefficient.d() * y.coefficient.d(),
                        );
                    }
                    match (Radical {
                        coefficient: c,
                        index: sum_index,
                        radicand: Box::new(num_clone(&x.radicand)),
                    }).simplify() {
                        Ok(v) => Ok(crate::eval::radical::radical_to_number(v)),
                        Err(e) => Err(e),
                    }
                },
                None => Err(EvalError::Overflow),
            }
        } else {
            Err(EvalError::Inexact)
        }
    }

    /// Multiplies a coarse radical with a finer one that folds into it.
    fn mul_radical_folded(big: &Radical, small: &Radical) -> (res: Result<Number, EvalError>)
        requires
            big.coefficient.wf(),
            big.index >= 2,
            (*big.radicand).wf(),
            big.index % 2 == 0 ==> !known_negative(*big.radicand),
            small.coefficient.wf(),
            small.index >= 1,
            (*small.radicand).wf(),
            big.index % small.index == 0,
        ensures
            res == Self::spec_mul_radical_folded(*big, *small),
            res matches Ok(v) ==> v.wf(),
        decreases (1 + (*big.radicand).size()) + (*small.radicand).size(), 0int,
    {
        match &*small.radicand {
            Number::Int(sv) => {
                let pv = match checked_pow_i64(*sv, big.index / small.index) {
                    Some(v) => v,
                    None => {
                        return Err(EvalError::Overflow);
                    },
                };
                let c = match big.coefficient.mul(&small.coefficient) {
                    Ok(c) => c,
                    Err(e) => {
                        return Err(e);
                    },
                };
                proof {
                    assert(big.coefficient.d() * small.coefficient.d() >= 1) by (nonlinear_arith)
                        requires
                            big.coefficient.d() >= 1,
                            small.coefficient.d() >= 1,
                    ;
                    lemma_rat_reduce_ok(
                        big.coefficient.n() * small.coefficient.n(),
                        big.coefficient.d() * small.coefficient.d(),
                    );
                }
                let rad = match big.radicand.mul(&Number::Int(pv)) {
                    Ok(v) => v,
                    Err(e) => {
                        return Err(e);
                    },
                };
                if big.index % 2 == 0 && rad.is_known_negative() {
                    return Err(EvalError::Inexact);
                }
                match (Radical {
                    coefficient: c,
                    index: big.index,
                    radicand: Box::new(rad),
                }).simplify() {
                    Ok(v) => Ok(crate::eval::radical::radical_to_number(v)),
                    Err(e) => Err(e),
                }
            },
            _ => Err(EvalError::Inexact),
        }
    }

    /// Multiplies two symbolic terms by binomial expansion.
    fn mul_symbolics(a: &Symbolic, b: &Symbolic) -> (res: Result<Number, EvalError>)
        requires
            (a.coeff matches Some(c) ==> c.wf()),
            (a.constant matches Some(c) ==> c.wf()),
            (b.coeff matches Some(c) ==> c.wf()),
            (b.constant matches Some(c) ==> c.wf()),
        ensures
            res == Self::spec_mul_symbolics(*a, *b),
            res matches Ok(v) ==> v.wf(),
        decreases a.parts_size() + b.parts_size() + 2, 0int,
    {
        match (&b.coeff, &b.constant) {
            (None, None) => Err(EvalError::IllFormedSymbolic),
            (Some(k), None) => {
                let c1: Number = match &a.coeff {
                    None => num_clone(k),
                    Some(x) => match x.mul(k) {
                        Ok(v) => v,
                        Err(e) => {
                            return Err(e);
                        },
                    },
                };
                let c2 = mul_by_symbol(&c1, b.symbol);
                let constant: Option<Number> = match &a.constant {
                    None => None,
                    Some(x) => match x.mul(k) {
                        Ok(v) => Some(mul_by_symbol(&v, b.symbol)),
                        Err(e) => {
                            return Err(e);
                        },
                    },
                };
                Ok(normalize_symbolic(Symbolic { coeff: Some(c2), symbol: a.symbol, constant }))
            },
            (b_coeff, Some(kb)) => {
                let first_inner: Option<Number> = match (&a.coeff, b_coeff) {
                    (None, None) => None,
                    (Some(x), None) => Some(num_clone(x)),
                    (None, Some(y)) => Some(num_clone(y)),
                    (Some(x), Some(y)) => match x.mul(y) {
                        Ok(v) => Some(v),
                        Err(e) => {
                            return Err(e);
                        },
                    },
                };
                let first_coeff: Number = match &first_inner {
                    None => Number::Symbol(b.symbol),
                    Some(v) => mul_by_symbol(v, b.symbol),
                };
                let first_const: Option<Number> = match (&a.constant, b_coeff) {
                    (None, _) => None,
                    (Some(ka), None) => Some(mul_by_symbol(ka, b.symbol)),
                    (Some(ka), Some(cb)) => match ka.mul(cb) {
                        Ok(v) => Some(mul_by_symbol(&v, b.symbol)),
                        Err(e) => {
                            return Err(e);
                        },
                    },
                };
                let first = normalize_symbolic(
                    Symbolic { coeff: Some(first_coeff), symbol: a.symbol, constant: first_const },
                );
                let second_coeff: Number = match &a.coeff {
                    None => num_clone(kb),
                    Some(ca) => match ca.mul(kb) {
                        Ok(v) => v,
                        Err(e) => {
                            return Err(e);
                        },
                    },
                };
                let second_const: Option<Number> = match &a.constant {
                    None => None,
                    Some(ka) => match ka.mul(kb) {
                        Ok(v) => Some(v),
                        Err(e) => {
                            return Err(e);
                        },
                    },
                };
                let second = normalize_symbolic(
                    Symbolic { coeff: Some(second_coeff), symbol: a.symbol, constant: second_const },
                );
                first.add(&second)
            },
        }
    }

    /// Multiplies a symbolic term by a plain scalar.
    fn mul_symbolic_scalar(l: &Symbolic, k: &Number) -> (res: Result<Number, EvalError>)
        requires
            (l.coeff matches Some(c) ==> c.wf()),
            (l.constant matches Some(c) ==> c.wf()),
            k.wf(),
        ensures
            res == Self::spec_mul_symbolic_scalar(*l, *k),
            res matches Ok(v) ==> v.wf(),
        decreases l.parts_size() + 1 + k.size(), 0int,
    {
        let coeff: Option<Number> = match &l.coeff {
            None => Some(num_clone(k)),
            Some(x) => match x.mul(k) {
                Ok(v) => Some(v),
                Err(e) => {
                    return Err(e);
                },
            },
        };
        let constant: Option<Number> = match &l.constant {
            None => None,
            Some(x) => match x.mul(k) {
                Ok(v) => Some(v),
                Err(e) => {
                    return Err(e);
                },
            },
        };
        Ok(normalize_symbolic(Symbolic { coeff, symbol: l.symbol, constant }))
    }
}

/// The multiplication operator of the engine.  An implementor states
/// when the operation may be asked for and what it returns, so every
/// use through the trait keeps the full contract.
pub trait Mul {
    type Output;

    /// When the operands are acceptable.
    spec fn mul_req(&self, rhs: &Self) -> bool;

    /// What the product is.
    spec fn mul_spec(&self, rhs: &Self) -> Self::Output;

    fn mul(&self, rhs: &Self) -> (r: Self::Output)
        requires
            self.mul_req(rhs),
        ensures
            r == self.mul_spec(rhs),
    ;
}

impl Mul for Number {
    type Output = Result<Number, EvalError>;

    open spec fn mul_req(&self, rhs: &Number) -> bool {
        self.wf() && rhs.wf()
    }

    open spec fn mul_spec(&self, rhs: &Number) -> Result<Number, EvalError> {
        Number::spec_mul(*self, *rhs)
    }

    fn mul(&self, rhs: &Number) -> (r: Result<Number, EvalError>) {
        Number::mul(self, rhs)
    }
}

} // verus!
