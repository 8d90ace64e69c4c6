//! Exact subtraction, defined as adding the negation.

use vstd::prelude::*;

use crate::eval::{EvalError, Number};

verus! {

impl Number {
    /// What subtraction yields: the sum with the negated right operand.
    pub open spec fn spec_sub(a: Number, b: Number) -> Result<Number, EvalError> {
        match b.spec_neg() {
            Ok(nb) => Number::spec_add(a, nb),
            Err(e) => Err(e),
        }
    }

    /// Exact subtraction.
    pub fn sub(&self, rhs: &Self) -> (r: Result<Number, EvalError>)
        requires
            self.wf(),
            rhs.wf(),
        ensures
            r == Self::spec_sub(*self, *rhs),
            r matches Ok(v) ==> v.wf(),
    {
        match rhs.neg() {
            Ok(nb) => self.add(&nb),
            Err(e) => Err(e),
        }
    }
}

} // verus!
