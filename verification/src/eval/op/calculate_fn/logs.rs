//! Exact logarithm identities: ln over powers of e, log10 over powers
//! of ten.

use vstd::prelude::*;

use crate::eval::{EvalError, Number, Symbol};

use core::cmp::Ordering;

verus! {

/// The exponent k with 10^k == n, when n is an exact power of ten.
pub open spec fn spec_log10_exp(n: int) -> Option<int>
    decreases n,
    via spec_log10_exp_dec
{
    if n <= 0 {
        None
    } else if n == 1 {
        Some(0)
    } else if n % 10 == 0 {
        match spec_log10_exp(n / 10) {
            Some(k) => Some(k + 1),
            None => None,
        }
    } else {
        None
    }
}

#[via_fn]
proof fn spec_log10_exp_dec(n: int) {
    if n > 1 && n % 10 == 0 {
        vstd::arithmetic::div_mod::lemma_div_decreases(n, 10);
        vstd::arithmetic::div_mod::lemma_div_pos_is_pos(n, 10);
    }
}

/// Finds the exponent k with 10^k == n, if any.
pub fn log10_exp(n: i64) -> (r: Option<i64>)
    ensures
        r matches Some(k) ==> spec_log10_exp(n as int) == Some(k as int) && 0 <= k,
        r is None ==> spec_log10_exp(n as int) is None,
{
    if n <= 0 {
        return None;
    }
    let mut m: i64 = n;
    let mut k: i64 = 0;
    while m > 1 && m % 10 == 0
        invariant
            1 <= m <= n,
            0 <= k <= n - m,
            spec_log10_exp(n as int) == (match spec_log10_exp(m as int) {
                Some(j) => Some(j + k),
                None => None::<int>,
            }),
        decreases m,
    {
        proof {
            vstd::arithmetic::div_mod::lemma_div_decreases(m as int, 10);
            vstd::arithmetic::div_mod::lemma_div_pos_is_pos(m as int, 10);
            vstd::arithmetic::div_mod::lemma_fundamental_div_mod(m as int, 10);
        }
        let ghost m_old = m as int;
        m = m / 10;
        k = k + 1;
        proof {
            assert(m < m_old);
        }
    }
    if m == 1 {
        Some(k)
    } else {
        None
    }
}

impl Number {
    /// What the base-ten logarithm yields: a failure on values known to
    /// be non-positive, the exact exponent on a power of ten, the
    /// difference of the two exponents on a fraction of two powers of
    /// ten, and no exact form otherwise.
    pub open spec fn spec_log_10(x: Number) -> Result<Number, EvalError> {
        if Self::spec_try_compare(x, Number::Int(0)) == Some(Ordering::Less)
            || Self::spec_try_compare(x, Number::Int(0)) == Some(Ordering::Equal) {
            Err(EvalError::NonPositiveLog)
        } else {
            match x {
                Number::Int(n) => match spec_log10_exp(n as int) {
                    Some(k) => Ok(Number::Int(k as i64)),
                    None => Err(EvalError::Inexact),
                },
                Number::Rational(q) => match (spec_log10_exp(q.n()), spec_log10_exp(q.d())) {
                    (Some(kn), Some(kd)) => Ok(Number::Int((kn - kd) as i64)),
                    _ => Err(EvalError::Inexact),
                },
                _ => Err(EvalError::Inexact),
            }
        }
    }

    /// The base-ten logarithm, exact on powers of ten.
    pub fn log_10(x: Number) -> (r: Result<Number, EvalError>)
        requires
            x.wf(),
        ensures
            r == Self::spec_log_10(x),
            r matches Ok(v) ==> v.wf(),
    {
        let c = x.try_compare(&Number::Int(0));
        let nonpos: bool = match c {
            Some(Ordering::Less) => true,
            Some(Ordering::Equal) => true,
            _ => false,
        };
        if nonpos {
            return Err(EvalError::NonPositiveLog);
        }
        match x {
            Number::Int(n) => match log10_exp(n) {
                Some(k) => Ok(Number::Int(k)),
                None => Err(EvalError::Inexact),
            },
            Number::Rational(q) => {
                match (log10_exp(q.numer()), log10_exp(q.denom())) {
                    (Some(kn), Some(kd)) => Ok(Number::Int(kn - kd)),
                    _ => Err(EvalError::Inexact),
                }
            },
            _ => Err(EvalError::Inexact),
        }
    }

    /// How many nested factors of e a coefficient tower holds: the count
    /// of a bare e is one, and a constant-free symbolic term over e adds
    /// one to the count of its coefficient.
    pub open spec fn spec_e_count(x: Number) -> Option<int>
        decreases x,
    {
        match x {
            Number::Symbol(Symbol::E) => Some(1),
            Number::Symbolic(s) => {
                if s.symbol == Symbol::E && s.constant is None {
                    match s.coeff {
                        None => Some(1),
                        Some(c) => match Self::spec_e_count(c) {
                            Some(k) => if k < 0x7fff_ffff_ffff_fffe {
                                Some(k + 1)
                            } else {
                                None
                            },
                            None => None,
                        },
                    }
                } else {
                    None
                }
            },
            _ => None,
        }
    }

    /// Counts nested factors of e.
    pub fn recursive_e_count(x: &Number) -> (r: Option<i64>)
        ensures
            (r matches Some(k) ==> Self::spec_e_count(*x) == Some(k as int) && 1 <= k),
            r is None ==> Self::spec_e_count(*x) is None,
        decreases *x,
    {
        match x {
            Number::Symbol(Symbol::E) => Some(1),
            Number::Symbolic(s) => {
                if s.symbol == Symbol::E && s.constant.is_none() {
                    match &s.coeff {
                        None => Some(1),
                        Some(c) => match Self::recursive_e_count(c) {
                            Some(k) => if k < 0x7fff_ffff_ffff_fffe {
                                Some(k + 1)
                            } else {
                                None
                            },
                            None => None,
                        },
                    }
                } else {
                    None
                }
            },
            _ => None,
        }
    }

    /// What the natural logarithm yields: a failure on values known to
    /// be non-positive; exact values on e, on towers of e, and on roots
    /// of e; and no exact form otherwise.
    pub open spec fn spec_natural_log(x: Number) -> Result<Number, EvalError>
        decreases x,
    {
        if Self::spec_try_compare(x, Number::Int(0)) == Some(Ordering::Less)
            || Self::spec_try_compare(x, Number::Int(0)) == Some(Ordering::Equal) {
            Err(EvalError::NonPositiveLog)
        } else {
            match x {
                Number::Symbol(Symbol::E) => Ok(Number::Int(1)),
                Number::Symbolic(s) => {
                    if s.symbol == Symbol::E && s.constant is None {
                        match s.coeff {
                            None => Ok(Number::Int(1)),
                            Some(c) => match Self::spec_e_count(c) {
                                Some(k) => Ok(Number::Int((k + 1) as i64)),
                                None => match Self::spec_natural_log(c) {
                                    Ok(v) => Number::spec_add(v, Number::Int(1)),
                                    Err(e) => Err(e),
                                },
                            },
                        }
                    } else {
                        Err(EvalError::Inexact)
                    }
                },
                Number::Radical(rad) => {
                    if rad.coefficient.n() == 1 && rad.coefficient.d() == 1 && *rad.radicand
                        == Number::Symbol(Symbol::E) {
                        match crate::rat::rat_reduce_result(1, rad.index as int) {
                            Ok(q) => Ok(crate::eval::rat_to_number(q)),
                            Err(e) => Err(e),
                        }
                    } else {
                        Err(EvalError::Inexact)
                    }
                },
                _ => Err(EvalError::Inexact),
            }
        }
    }

    /// The natural logarithm, exact on powers and roots of e.
    pub fn natural_log(x: Number) -> (r: Result<Number, EvalError>)
        requires
            x.wf(),
        ensures
            r == Self::spec_natural_log(x),
            r matches Ok(v) ==> v.wf(),
        decreases x,
    {
        let c = x.try_compare(&Number::Int(0));
        let nonpos: bool = match c {
            Some(Ordering::Less) => true,
            Some(Ordering::Equal) => true,
            _ => false,
        };
        if nonpos {
            return Err(EvalError::NonPositiveLog);
        }
        match x {
            Number::Symbol(Symbol::E) => Ok(Number::Int(1)),
            Number::Symbolic(s) => {
                if s.symbol == Symbol::E && s.constant.is_none() {
                    match s.coeff {
                        None => Ok(Number::Int(1)),
                        Some(c) => match Self::recursive_e_count(&c) {
                            Some(k) => Ok(Number::Int(k + 1)),
                            None => match Self::natural_log(c) {
                                Ok(v) => v.add(&Number::Int(1)),
                                Err(e) => Err(e),
                            },
                        },
                    }
                } else {
                    Err(EvalError::Inexact)
                }
            },
            Number::Radical(rad) => {
                let coeff_is_one = rad.coefficient.is_one();
                if coeff_is_one && num_eq_symbol_e(&rad.radicand) {
                    match crate::rat::Rat::new(1, rad.index as i64) {
                        Ok(q) => {
                            proof {
                                crate::rat::lemma_rat_reduce_ok(1, rad.index as int);
                            }
                            Ok(crate::eval::rat_as_number(q))
                        },
                        Err(e) => Err(e),
                    }
                } else {
                    Err(EvalError::Inexact)
                }
            },
            _ => Err(EvalError::Inexact),
        }
    }
}

/// Whether a value is exactly the bare constant e.
fn num_eq_symbol_e(n: &Number) -> (r: bool)
    ensures
        r == (*n == Number::Symbol(Symbol::E)),
{
    match n {
        Number::Symbol(Symbol::E) => true,
        _ => false,
    }
}

} // verus!
