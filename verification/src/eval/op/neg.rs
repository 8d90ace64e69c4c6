//! Exact negation.

use vstd::prelude::*;

use crate::eval::radical::Radical;
use crate::eval::{num_clone, EvalError, Number, Symbolic};
use crate::rat::{lemma_red_of_coprime, rat_reduce_result};

verus! {

impl Number {
    /// What negation yields for every exact value: integers and fraction
    /// parts flip sign, a bare symbol becomes a symbolic term with
    /// coefficient minus one, and a symbolic term negates both parts.
    pub open spec fn spec_neg(self) -> Result<Number, EvalError>
        decreases self,
    {
        match self {
            Number::Int(i) => if i == i64::MIN {
                Err(EvalError::Overflow)
            } else {
                Ok(Number::Int((-(i as int)) as i64))
            },
            Number::Rational(x) => match rat_reduce_result(-x.n(), x.d()) {
                Ok(q) => Ok(Number::Rational(q)),
                Err(e) => Err(e),
            },
            Number::Symbol(s) => Ok(
                Number::Symbolic(
                    Box::new(
                        Symbolic {
                            coeff: Some(Number::Int((-1) as i64)),
                            symbol: s,
                            constant: None,
                        },
                    ),
                ),
            ),
            Number::Symbolic(s) => {
                let coeff_r: Result<Option<Number>, EvalError> = match s.coeff {
                    None => Ok(Some(Number::Int((-1) as i64))),
                    Some(x) => match x.spec_neg() {
                        Ok(v) => Ok(Some(v)),
                        Err(e) => Err(e),
                    },
                };
                let constant_r: Result<Option<Number>, EvalError> = match s.constant {
                    None => Ok(None),
                    Some(x) => match x.spec_neg() {
                        Ok(v) => Ok(Some(v)),
                        Err(e) => Err(e),
                    },
                };
                match (coeff_r, constant_r) {
                    (Ok(c), Ok(k)) => Ok(
                        Number::Symbolic(
                            Box::new(Symbolic { coeff: c, symbol: s.symbol, constant: k }),
                        ),
                    ),
                    (Err(e), _) => Err(e),
                    (Ok(_), Err(e)) => Err(e),
                }
            },
            Number::Radical(r) => match rat_reduce_result(-r.coefficient.n(), r.coefficient.d()) {
                Ok(c) => Ok(
                    Number::Radical(
                        Box::new(Radical { coefficient: c, index: r.index, radicand: r.radicand }),
                    ),
                ),
                Err(e) => Err(e),
            },
        }
    }

    /// Exact negation; subtraction is defined through it.
    pub fn neg(&self) -> (r: Result<Number, EvalError>)
        requires
            self.wf(),
        ensures
            r == self.spec_neg(),
            r matches Ok(v) ==> v.wf(),
        decreases *self,
    {
        match self {
            Number::Int(i) => {
                if *i == i64::MIN {
                    Err(EvalError::Overflow)
                } else {
                    Ok(Number::Int(-*i))
                }
            },
            Number::Rational(x) => {
                match x.neg() {
                    Ok(q) => {
                        proof {
                            lemma_red_of_coprime(-x.n(), x.d());
                            crate::rat::lemma_spec_rat_parts(-x.n(), x.d());
                        }
                        Ok(Number::Rational(q))
                    },
                    Err(e) => Err(e),
                }
            },
            Number::Symbol(s) => {
                proof {
                    assert(Number::Int((-1) as i64).wf());
                }
                Ok(
                    Number::Symbolic(
                        Box::new(
                            Symbolic { coeff: Some(Number::Int(-1)), symbol: *s, constant: None },
                        ),
                    ),
                )
            },
            Number::Symbolic(s) => {
                let coeff: Option<Number> = match &s.coeff {
                    None => {
                        proof {
                            assert(Number::Int((-1) as i64).wf());
                        }
                        Some(Number::Int(-1))
                    },
                    Some(x) => match x.neg() {
                        Ok(v) => Some(v),
                        Err(e) => {
                            return Err(e);
                        },
                    },
                };
                let constant: Option<Number> = match &s.constant {
                    None => None,
                    Some(x) => match x.neg() {
                        Ok(v) => Some(v),
                        Err(e) => {
                            return Err(e);
                        },
                    },
                };
                let result = Symbolic { coeff, symbol: s.symbol, constant };
                proof {
                    assert(match result.coeff {
                        Some(c) => c.wf(),
                        None => true,
                    });
                    assert(match result.constant {
                        Some(c) => c.wf(),
                        None => true,
                    });
                    assert(!(result.coeff is None));
                    assert(Number::Symbolic(Box::new(result)).wf());
                }
                Ok(Number::Symbolic(Box::new(result)))
            },
            Number::Radical(rad) => {
                match rad.coefficient.neg() {
                    Ok(c) => {
                        proof {
                            lemma_red_of_coprime(-rad.coefficient.n(), rad.coefficient.d());
                            crate::rat::lemma_spec_rat_parts(
                                -rad.coefficient.n(),
                                rad.coefficient.d(),
                            );
                        }
                        Ok(
                            Number::Radical(
                                Box::new(
                                    Radical {
                                        coefficient: c,
                                        index: rad.index,
                                        radicand: Box::new(num_clone(&rad.radicand)),
                                    },
                                ),
                            ),
                        )
                    },
                    Err(e) => Err(e),
                }
            },
        }
    }
}

} // verus!
