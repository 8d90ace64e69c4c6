//! The exact-value type `Number` and the helpers shared by all operators.

use vstd::prelude::*;

use crate::rat::{nat_abs, Rat};

pub mod op;
pub mod ord;
pub mod radical;

use radical::Radical;

verus! {

/// Everything an operator can report instead of an exact `Number`.
///
/// The arithmetic failures are recoverable and deterministic; `Inexact` is
/// not a mathematical failure at all: it tells the caller that no exact
/// form exists for the request and the computation has to be redone in
/// floating point (which this library deliberately does not perform).
#[derive(Clone, Copy, Debug, PartialEq, Eq, Structural)]
pub enum EvalError {
    /// Division by an exact zero.
    DivideByZero,
    /// A zero-th root was requested.
    ZerothRoot,
    /// An even root of a negative value was requested.
    EvenRootOfNegative,
    /// A logarithm of a non-positive value was requested.
    NonPositiveLog,
    /// The tangent of an odd multiple of a half turn is undefined.
    TangentUndefined,
    /// A unary node named a function this engine does not know.
    UnknownFunction,
    /// A leaf named a constant this engine does not know.
    UnknownConstant,
    /// A symbolic term with neither coefficient nor constant was found;
    /// this reports a bug in the expression that built it, not user error.
    IllFormedSymbolic,
    /// An intermediate value left the 64-bit range the engine works in.
    Overflow,
    /// The exact engine has no exact form for this result; the caller may
    /// repeat the computation in floating point.
    Inexact,
}

/// The fixed, closed set of named constants the engine understands.
#[derive(Clone, Copy, Debug, PartialEq, Eq, Structural)]
pub enum Symbol {
    Pi,
    E,
    Phi,
    Sqrt2,
}

/// A linear term `coeff * symbol + constant` over one named constant.
///
/// An absent `coeff` means one, an absent `constant` means zero.
#[derive(Debug)]
pub struct Symbolic {
    pub coeff: Option<Number>,
    pub symbol: Symbol,
    pub constant: Option<Number>,
}

/// An exact value: a whole number, a reduced fraction, a radical in
/// normal form, a named constant, or a linear symbolic term.
///
/// Approximate (floating-point) values are deliberately not represented;
/// an operator whose result would have to be approximate reports
/// `EvalError::Inexact` instead, and the caller owns the numeric fallback.
#[derive(Debug)]
pub enum Number {
    /// A whole number.
    Int(i64),
    /// A reduced fraction whose denominator is at least two.
    Rational(Rat),
    /// `coefficient * radicand^(1/index)`.
    Radical(Box<Radical>),
    /// A bare named constant.
    Symbol(Symbol),
    /// A linear term over one named constant.
    Symbolic(Box<Symbolic>),
}

/// Whether a value is a whole number or fraction known to be negative.
/// The named constants are all positive; the sign of other symbolic or
/// radical values is not decided structurally.
pub open spec fn known_negative(n: Number) -> bool {
    match n {
        Number::Int(v) => v < 0,
        Number::Rational(q) => q.n() < 0,
        _ => false,
    }
}

impl Number {
    /// Structural size, the termination measure for the operators.
    pub open spec fn size(self) -> nat
        decreases self,
    {
        match self {
            Number::Int(_) => 1,
            Number::Rational(_) => 1,
            Number::Symbol(_) => 1,
            Number::Radical(r) => 1 + (*r.radicand).size(),
            Number::Symbolic(s) => 1 + (match s.coeff {
                Some(c) => c.size(),
                None => 0,
            }) + (match s.constant {
                Some(c) => c.size(),
                None => 0,
            }),
        }
    }

    /// Structural well-formedness: fractions are reduced and not whole,
    /// radical indices are at least two, a radical of even index does
    /// not hold a radicand known to be negative, and symbolic terms
    /// have at least one of their two optional parts.
    pub open spec fn wf(self) -> bool
        decreases self,
    {
        match self {
            Number::Int(_) => true,
            Number::Rational(r) => r.wf() && r.d() != 1,
            Number::Symbol(_) => true,
            Number::Radical(r) => r.coefficient.wf() && r.index >= 2 && (*r.radicand).wf() && (
            r.index % 2 == 0 ==> !known_negative(*r.radicand)),
            Number::Symbolic(s) => {
                &&& !(s.coeff is None && s.constant is None)
                &&& (match s.coeff {
                    Some(c) => c.wf(),
                    None => true,
                })
                &&& (match s.constant {
                    Some(c) => c.wf(),
                    None => true,
                })
            },
        }
    }
}

/// Structural equality test; `Number` cannot derive it because of the
/// boxed recursion.
pub fn num_eq(a: &Number, b: &Number) -> (r: bool)
    ensures
        r == (a == b),
    decreases a,
{
    match (a, b) {
        (Number::Int(x), Number::Int(y)) => x == y,
        (Number::Rational(x), Number::Rational(y)) => x == y,
        (Number::Symbol(x), Number::Symbol(y)) => x == y,
        (Number::Radical(x), Number::Radical(y)) => radical::radical_eq(x, y),
        (Number::Symbolic(x), Number::Symbolic(y)) => symbolic_eq(x, y),
        _ => false,
    }
}

/// Structural equality of two symbolic terms.
pub fn symbolic_eq(a: &Symbolic, b: &Symbolic) -> (r: bool)
    ensures
        r == (a == b),
    decreases a,
{
    let coeff_eq: bool = match (&a.coeff, &b.coeff) {
        (None, None) => true,
        (Some(p), Some(q)) => num_eq(p, q),
        _ => false,
    };
    let constant_eq: bool = match (&a.constant, &b.constant) {
        (None, None) => true,
        (Some(p), Some(q)) => num_eq(p, q),
        _ => false,
    };
    coeff_eq && a.symbol == b.symbol && constant_eq
}

impl PartialEq for Number {
    fn eq(&self, other: &Self) -> (r: bool) {
        num_eq(self, other)
    }
}

impl vstd::std_specs::cmp::PartialEqSpecImpl for Number {
    open spec fn obeys_eq_spec() -> bool {
        true
    }

    open spec fn eq_spec(&self, other: &Number) -> bool {
        self == other
    }
}

impl PartialEq for Symbolic {
    fn eq(&self, other: &Self) -> (r: bool) {
        symbolic_eq(self, other)
    }
}

impl vstd::std_specs::cmp::PartialEqSpecImpl for Symbolic {
    open spec fn obeys_eq_spec() -> bool {
        true
    }

    open spec fn eq_spec(&self, other: &Symbolic) -> bool {
        self == other
    }
}

/// An exact copy of a value.
pub fn num_clone(a: &Number) -> (r: Number)
    ensures
        r == *a,
    decreases a,
{
    match a {
        Number::Int(x) => Number::Int(*x),
        Number::Rational(x) => Number::Rational(*x),
        Number::Symbol(x) => Number::Symbol(*x),
        Number::Radical(x) => Number::Radical(Box::new(radical::radical_clone(x))),
        Number::Symbolic(x) => Number::Symbolic(Box::new(symbolic_clone(x))),
    }
}

/// An exact copy of a symbolic term.
pub fn symbolic_clone(a: &Symbolic) -> (r: Symbolic)
    ensures
        r == *a,
    decreases a,
{
    Symbolic {
        coeff: match &a.coeff {
            Some(c) => Some(num_clone(c)),
            None => None,
        },
        symbol: a.symbol,
        constant: match &a.constant {
            Some(c) => Some(num_clone(c)),
            None => None,
        },
    }
}

impl Clone for Number {
    fn clone(&self) -> (r: Self)
        ensures
            r == *self,
    {
        num_clone(self)
    }
}

impl Clone for Symbolic {
    fn clone(&self) -> (r: Self)
        ensures
            r == *self,
    {
        symbolic_clone(self)
    }
}

/// Whether m evenly divides n, read over magnitudes; zero divides only
/// zero.
pub open spec fn int_divisible(n: int, m: int) -> bool {
    if m == 0 {
        n == 0
    } else {
        nat_abs(n) % nat_abs(m) == 0
    }
}

/// The magnitude of a 64-bit value, computed without overflow.
pub(crate) fn abs_u64(x: i64) -> (r: u64)
    ensures
        r as nat == nat_abs(x as int),
{
    if x >= 0 {
        x as u64
    } else {
        (-(x as i128)) as u64
    }
}

/// Whether m evenly divides n over 64-bit integers; never panics.
pub fn divides_i64(n: i64, m: i64) -> (r: bool)
    ensures
        r == int_divisible(n as int, m as int),
{
    if m == 0 {
        n == 0
    } else {
        abs_u64(n) % abs_u64(m) == 0
    }
}

/// The magnitude of a 128-bit value above the minimum.
pub(crate) fn abs_u128(x: i128) -> (r: u128)
    requires
        x > i128::MIN,
    ensures
        r as nat == nat_abs(x as int),
{
    if x >= 0 {
        x as u128
    } else {
        (-x) as u128
    }
}

/// The divisibility rule for two reduced fractions: a/b is divisible by
/// c/d when d evenly divides b*c.
pub open spec fn spec_rat_divisible(a: Rat, c: Rat) -> bool {
    int_divisible(a.d() * c.n(), c.d())
}

/// Whether one reduced fraction evenly divides another.
pub fn rat_divisible(a: &Rat, c: &Rat) -> (r: bool)
    requires
        a.wf(),
        c.wf(),
    ensures
        r == spec_rat_divisible(*a, *c),
{
    proof {
        crate::rat::lemma_rat_range(*a);
        crate::rat::lemma_rat_range(*c);
        crate::rat::lemma_mul_bound_num_den(c.n(), a.d());
    }
    let p: i128 = c.numer() as i128 * a.denom() as i128;
    proof {
        assert(p as int == a.d() * c.n()) by (nonlinear_arith)
            requires
                p as int == c.n() * a.d(),
        ;
    }
    abs_u128(p) % (c.denom() as u128) == 0
}

/// What `Number::divisible_by` computes, the divisibility oracle over
/// every pair of kinds: a pure test that holds exactly when the divisor
/// goes evenly into the dividend under the per-kind rules, and is false
/// for every undefined combination.
pub open spec fn spec_divisible(a: Number, b: Number) -> bool
    decreases a,
{
    match a {
        Number::Symbol(s) => b matches Number::Symbol(t) && s == t,
        Number::Symbolic(s) => spec_symbolic_divisible(*s, b),
        Number::Int(n) => b matches Number::Int(m) && int_divisible(n as int, m as int),
        Number::Rational(n) => b matches Number::Rational(m) && spec_rat_divisible(n, m),
        Number::Radical(n) => match b {
            Number::Int(m) => int_divisible(n.coefficient.n(), m as int),
            Number::Rational(m) => spec_rat_divisible(n.coefficient, m),
            Number::Radical(m) => *n.radicand == *m.radicand && n.index == m.index
                && spec_rat_divisible(n.coefficient, m.coefficient),
            _ => false,
        },
    }
}

/// The divisibility rule for a symbolic term: a bare matching symbol
/// divides a constant-free term outright; otherwise both present parts
/// must be divisible.
pub open spec fn spec_symbolic_divisible(s: Symbolic, b: Number) -> bool
    decreases s,
{
    if (b matches Number::Symbol(t) && s.constant is None && s.symbol == t) {
        true
    } else {
        match s.coeff {
            Some(d) => spec_divisible(d, b) && (match s.constant {
                Some(c) => spec_divisible(c, b),
                None => true,
            }),
            None => false,
        }
    }
}

impl Number {
    /// Whether this value is a whole number or fraction that is
    /// negative.
    pub fn is_known_negative(&self) -> (r: bool)
        ensures
            r == known_negative(*self),
    {
        match self {
            Number::Int(v) => *v < 0,
            Number::Rational(q) => q.is_neg(),
            _ => false,
        }
    }

    /// The divisibility oracle: whether `divisor` goes evenly into
    /// `self`; false for every combination with no defined rule, and it
    /// never fails or panics.
    pub fn divisible_by(&self, divisor: &Number) -> (r: bool)
        requires
            self.wf(),
            divisor.wf(),
        ensures
            r == spec_divisible(*self, *divisor),
        decreases *self,
    {
        match self {
            Number::Symbol(s) => match divisor {
                Number::Symbol(t) => s == t,
                _ => false,
            },
            Number::Symbolic(s) => symbolic_divisible_by(s, divisor),
            Number::Int(n) => match divisor {
                Number::Int(m) => divides_i64(*n, *m),
                _ => false,
            },
            Number::Rational(n) => match divisor {
                Number::Rational(m) => rat_divisible(n, m),
                _ => false,
            },
            Number::Radical(n) => match divisor {
                Number::Int(m) => divides_i64(n.coefficient.numer(), *m),
                Number::Rational(m) => rat_divisible(&n.coefficient, m),
                Number::Radical(m) => num_eq(&n.radicand, &m.radicand) && n.index == m.index
                    && rat_divisible(&n.coefficient, &m.coefficient),
                _ => false,
            },
        }
    }
}

/// Whether a scalar divisor goes evenly into a symbolic term.
pub fn symbolic_divisible_by(s: &Symbolic, divisor: &Number) -> (r: bool)
    requires
        s.coeff matches Some(c) ==> c.wf(),
        s.constant matches Some(c) ==> c.wf(),
        divisor.wf(),
    ensures
        r == spec_symbolic_divisible(*s, *divisor),
    decreases *s,
{
    let direct: bool = match divisor {
        Number::Symbol(t) => s.constant.is_none() && s.symbol == *t,
        _ => false,
    };
    if direct {
        true
    } else {
        match &s.coeff {
            Some(d) => d.divisible_by(divisor) && (match &s.constant {
                Some(c) => c.divisible_by(divisor),
                None => true,
            }),
            None => false,
        }
    }
}

/// A reduced fraction as a `Number`: demoted to an integer when its
/// denominator is one.
pub open spec fn rat_to_number(q: Rat) -> Number {
    if q.d() == 1 {
        Number::Int(q.n() as i64)
    } else {
        Number::Rational(q)
    }
}

/// Wraps a reduced fraction, demoting a whole value to `Int`.
pub fn rat_as_number(q: Rat) -> (r: Number)
    requires
        q.wf(),
    ensures
        r == rat_to_number(q),
        r.wf(),
{
    proof {
        crate::rat::lemma_rat_range(q);
    }
    if q.is_int() {
        Number::Int(q.numer())
    } else {
        Number::Rational(q)
    }
}

/// What normalizing a freshly built symbolic term yields: trivial parts
/// are dropped, and a term that was a symbol in disguise becomes that
/// bare symbol.
pub open spec fn spec_normalize_symbolic(s: Symbolic) -> Number {
    match s.spec_sanity() {
        Ok(t) => Number::Symbolic(Box::new(t)),
        Err(sym) => Number::Symbol(sym),
    }
}

/// Normalizes a freshly built symbolic term.
pub fn normalize_symbolic(s: Symbolic) -> (r: Number)
    requires
        (s.coeff matches Some(c) ==> c.wf()),
        (s.constant matches Some(c) ==> c.wf()),
    ensures
        r == spec_normalize_symbolic(s),
        r.wf(),
{
    let ghost g = s;
    match s.sanity_check() {
        Ok(t) => {
            proof {
                assert(g.spec_sanity() matches Ok(u) && u == t);
                assert(!(t.coeff is None && t.constant is None));
                assert(t.coeff matches Some(c) ==> c.wf());
                assert(t.constant matches Some(c) ==> c.wf());
            }
            Number::Symbolic(Box::new(t))
        },
        Err(sym) => Number::Symbol(sym),
    }
}

impl Symbolic {
    /// What `sanity_check` computes: drop a coefficient of exactly one and
    /// a constant of exactly zero; a term with nothing left is a symbol in
    /// disguise and is reported as such.
    pub open spec fn spec_sanity(self) -> Result<Symbolic, Symbol> {
        let coeff = if self.coeff == Some(Number::Int(1)) {
            None
        } else {
            self.coeff
        };
        let constant = if self.constant == Some(Number::Int(0)) {
            None
        } else {
            self.constant
        };
        if coeff is None && constant is None {
            Err(self.symbol)
        } else {
            Ok(Symbolic { coeff, symbol: self.symbol, constant })
        }
    }

    /// Makes sure a symbolic term is not ill formed or a symbol in
    /// disguise; returns `Err(symbol)` if it is.
    pub fn sanity_check(self) -> (r: Result<Self, Symbol>)
        ensures
            r == self.spec_sanity(),
    {
        let Symbolic { coeff, symbol, constant } = self;
        let coeff: Option<Number> = match coeff {
            Some(c) => {
                if num_eq(&c, &Number::Int(1)) {
                    None
                } else {
                    Some(c)
                }
            },
            None => None,
        };
        let constant: Option<Number> = match constant {
            Some(c) => {
                if num_eq(&c, &Number::Int(0)) {
                    None
                } else {
                    Some(c)
                }
            },
            None => None,
        };
        match (&coeff, &constant) {
            (None, None) => Err(symbol),
            _ => Ok(Symbolic { coeff, symbol, constant }),
        }
    }
}

impl From<i64> for Number {
    fn from(n: i64) -> (r: Self) {
        Number::Int(n)
    }
}

impl vstd::std_specs::convert::FromSpecImpl<i64> for Number {
    open spec fn obeys_from_spec() -> bool {
        true
    }

    open spec fn from_spec(n: i64) -> Number {
        Number::Int(n)
    }
}

impl From<Symbol> for Number {
    fn from(s: Symbol) -> (r: Self) {
        Number::Symbol(s)
    }
}

impl vstd::std_specs::convert::FromSpecImpl<Symbol> for Number {
    open spec fn obeys_from_spec() -> bool {
        true
    }

    open spec fn from_spec(s: Symbol) -> Number {
        Number::Symbol(s)
    }
}

impl crate::parser::ExprTree {
    /// What evaluating an expression tree yields: leaves give their
    /// values (a decimal-literal leaf has no exact value), a unary node
    /// negates or applies the named function, and a binary node combines
    /// the two evaluated sides with the named operator.  A failing
    /// subtree fails the whole evaluation unchanged.
    pub open spec fn spec_eval(t: crate::parser::ExprTree) -> Result<Number, EvalError>
        decreases t,
    {
        match t {
            crate::parser::ExprTree::Val(k) => Ok(k),
            crate::parser::ExprTree::Approx(_) => Err(EvalError::Inexact),
            crate::parser::ExprTree::UNode(op, sub) => match Self::spec_eval(*sub) {
                Ok(x) => match op {
                    crate::parser::UnaryOp::Neg => x.spec_neg(),
                    crate::parser::UnaryOp::Word(w) => match crate::eval::op::calculate_fn::spec_function_of_name(
                        w@,
                    ) {
                        Some(k) => k.spec_apply(x),
                        None => Err(EvalError::UnknownFunction),
                    },
                },
                Err(e) => Err(e),
            },
            crate::parser::ExprTree::BNode(op, l, r) => match Self::spec_eval(*l) {
                Ok(lv) => match Self::spec_eval(*r) {
                    Ok(rv) => match op {
                        crate::parser::BinaryOp::Plus => Number::spec_add(lv, rv),
                        crate::parser::BinaryOp::Minus => Number::spec_sub(lv, rv),
                        crate::parser::BinaryOp::Mul => Number::spec_mul(lv, rv),
                        crate::parser::BinaryOp::Div => Number::spec_div(lv, rv),
                        crate::parser::BinaryOp::Exp => Number::spec_pow(lv, rv),
                    },
                    Err(e) => Err(e),
                },
                Err(e) => Err(e),
            },
        }
    }

    /// Evaluates an expression tree to a single exact value, or to the
    /// failure of its first failing subtree.
    pub fn eval(self) -> (r: Result<Number, EvalError>)
        requires
            self.wf_tree(),
        ensures
            r == Self::spec_eval(self),
            r matches Ok(v) ==> v.wf(),
        decreases self,
    {
        match self {
            crate::parser::ExprTree::Val(k) => Ok(k),
            crate::parser::ExprTree::Approx(_) => Err(EvalError::Inexact),
            crate::parser::ExprTree::UNode(op, sub) => {
                let x = match (*sub).eval() {
                    Ok(v) => v,
                    Err(e) => {
                        return Err(e);
                    },
                };
                match op {
                    crate::parser::UnaryOp::Neg => x.neg(),
                    crate::parser::UnaryOp::Word(w) => {
                        match crate::eval::op::calculate_fn::function_of_name(&w) {
                            Some(k) => k.apply(x),
                            None => Err(EvalError::UnknownFunction),
                        }
                    },
                }
            },
            crate::parser::ExprTree::BNode(op, l, r) => {
                let lv = match (*l).eval() {
                    Ok(v) => v,
                    Err(e) => {
                        return Err(e);
                    },
                };
                let rv = match (*r).eval() {
                    Ok(v) => v,
                    Err(e) => {
                        return Err(e);
                    },
                };
                match op {
                    crate::parser::BinaryOp::Plus => lv.add(&rv),
                    crate::parser::BinaryOp::Minus => lv.sub(&rv),
                    crate::parser::BinaryOp::Mul => lv.mul(&rv),
                    crate::parser::BinaryOp::Div => lv.div(&rv),
                    crate::parser::BinaryOp::Exp => lv.pow(&rv),
                }
            },
        }
    }
}

} // verus!