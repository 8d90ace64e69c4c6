//! Dispatch from a function name to the matching evaluator.

pub mod logs;
pub mod trig;

use vstd::prelude::*;

use crate::eval::{EvalError, Number};

verus! {

/// The single-argument functions the engine evaluates by name.
#[derive(Clone, Copy, Debug, PartialEq, Eq, Structural)]
pub enum FunctionKind {
    Sin,
    Cos,
    Tan,
    Log10,
    Ln,
}

/// Which function a name denotes, if any.
pub open spec fn spec_function_of_name(name: Seq<char>) -> Option<FunctionKind> {
    if name == "sin"@ {
        Some(FunctionKind::Sin)
    } else if name == "cos"@ {
        Some(FunctionKind::Cos)
    } else if name == "tan"@ {
        Some(FunctionKind::Tan)
    } else if name == "log"@ {
        Some(FunctionKind::Log10)
    } else if name == "ln"@ {
        Some(FunctionKind::Ln)
    } else {
        None
    }
}

/// Resolves a function name.
pub fn function_of_name(word: &String) -> (r: Option<FunctionKind>)
    ensures
        r == spec_function_of_name(word@),
{
    let sin_name: String = "sin".to_owned();
    let cos_name: String = "cos".to_owned();
    let tan_name: String = "tan".to_owned();
    let log_name: String = "log".to_owned();
    let ln_name: String = "ln".to_owned();
    if word.eq(&sin_name) {
        Some(FunctionKind::Sin)
    } else if word.eq(&cos_name) {
        Some(FunctionKind::Cos)
    } else if word.eq(&tan_name) {
        Some(FunctionKind::Tan)
    } else if word.eq(&log_name) {
        Some(FunctionKind::Log10)
    } else if word.eq(&ln_name) {
        Some(FunctionKind::Ln)
    } else {
        None
    }
}

impl FunctionKind {
    /// What applying this function to a value yields.
    pub open spec fn spec_apply(self, x: Number) -> Result<Number, EvalError> {
        match self {
            FunctionKind::Sin => Number::spec_sin(x),
            FunctionKind::Cos => Number::spec_cos(x),
            FunctionKind::Tan => Number::spec_tan(x),
            FunctionKind::Log10 => Number::spec_log_10(x),
            FunctionKind::Ln => Number::spec_natural_log(x),
        }
    }

    /// Applies this function to a value.
    pub fn apply(self, x: Number) -> (r: Result<Number, EvalError>)
        requires
            x.wf(),
        ensures
            r == self.spec_apply(x),
            r matches Ok(v) ==> v.wf(),
    {
        match self {
            FunctionKind::Sin => Number::sin(x),
            FunctionKind::Cos => Number::cos(x),
            FunctionKind::Tan => Number::tan(x),
            FunctionKind::Log10 => Number::log_10(x),
            FunctionKind::Ln => Number::natural_log(x),
        }
    }
}

/// Evaluation of a named single-argument function.  An implementor
/// states when the call may be asked for and what it returns, so every
/// use through the trait keeps the full contract.
pub trait CalculateFn where Self: Sized {
    type Output;

    /// When the argument is acceptable.
    spec fn calculate_fn_req(self, fn_name: &String) -> bool;

    /// What the call returns.
    spec fn calculate_fn_spec(self, fn_name: &String) -> Self::Output;

    fn calculate_fn(self, fn_name: &String) -> (r: Self::Output)
        requires
            self.calculate_fn_req(fn_name),
        ensures
            r == self.calculate_fn_spec(fn_name),
    ;
}

impl CalculateFn for Number {
    type Output = Result<Number, EvalError>;

    open spec fn calculate_fn_req(self, fn_name: &String) -> bool {
        self.wf()
    }

    open spec fn calculate_fn_spec(self, fn_name: &String) -> Result<Number, EvalError> {
        match spec_function_of_name(fn_name@) {
            Some(k) => k.spec_apply(self),
            None => Err(EvalError::UnknownFunction),
        }
    }

    fn calculate_fn(self, fn_name: &String) -> (r: Result<Number, EvalError>) {
        match function_of_name(fn_name) {
            Some(k) => k.apply(self),
            None => Err(EvalError::UnknownFunction),
        }
    }
}

} // verus!
