//! Exact n-th roots: the perfect-power search over whole numbers, the
//! binomial row generator behind it, and the root operator on `Number`.

use vstd::prelude::*;
use vstd::arithmetic::power::{lemma_pow1, lemma_pow_adds, lemma_pow_increases, pow};

use crate::eval::radical::Radical;
use crate::eval::radical::{radical_to_number, spec_radical_to_number};
use crate::eval::{known_negative, num_clone, EvalError, Number};

use core::cmp::Ordering;
use crate::rat::{
    lemma_spec_rat_parts, nat_abs, rat_reduce_result, spec_rat, Rat,
};

use super::pow::checked_pow_i64;

verus! {

/// Binomial coefficients by Pascal's recurrence.
pub open spec fn binom(n: nat, k: nat) -> nat
    decreases n,
{
    if k == 0 {
        1
    } else if k > n {
        0
    } else {
        binom((n - 1) as nat, (k - 1) as nat) + binom((n - 1) as nat, k)
    }
}

/// The diagonal of Pascal's triangle is all ones.
proof fn lemma_binom_diag(n: nat)
    ensures
        binom(n, n) == 1,
    decreases n,
{
    if n > 0 {
        lemma_binom_diag((n - 1) as nat);
        assert(binom((n - 1) as nat, n) == 0);
        assert(binom(n, n) == binom((n - 1) as nat, (n - 1) as nat) + binom((n - 1) as nat, n));
    }
}

/// Going down one row never shrinks a binomial coefficient.
proof fn lemma_binom_row_step(n: nat, k: nat)
    ensures
        binom(n, k) <= binom(n + 1, k),
{
    if k == 0 {
    } else if k > n + 1 {
        assert(binom(n, k) == 0);
    } else {
        assert(binom(n + 1, k) == binom(n, (k - 1) as nat) + binom(n, k));
    }
}

/// Binomial coefficients grow with the row.
proof fn lemma_binom_row_le(r: nat, n: nat, k: nat)
    requires
        r <= n,
    ensures
        binom(r, k) <= binom(n, k),
    decreases n - r,
{
    if r < n {
        lemma_binom_row_le(r, (n - 1) as nat, k);
        lemma_binom_row_step((n - 1) as nat, k);
    }
}

/// The inner entries of row n of Pascal's triangle: the coefficients
/// from position one up to position n minus one.  Rows zero and one have
/// no inner entries and yield the placeholder row.
pub fn generate_pascals_row_inners(n: u32) -> (r: Vec<u32>)
    requires
        forall|k: nat| 1 <= k <= n ==> binom(n as nat, k) <= u32::MAX,
    ensures
        n <= 1 ==> r@ =~= seq![0u32],
        n >= 2 ==> r@.len() == n - 1 && forall|k: int|
            0 <= k < r@.len() ==> r@[k] as nat == binom(n as nat, (k + 1) as nat),
{
    if n <= 1 {
        let mut out: Vec<u32> = Vec::new();
        out.push(0);
        return out;
    }
    // `row` holds the full row of binomial coefficients for row index rr
    let mut row: Vec<u32> = Vec::new();
    row.push(1);
    row.push(1);
    let mut rr: u32 = 1;
    proof {
        assert(binom(1, 0) == 1);
        lemma_binom_diag(1);
    }
    while rr < n
        invariant
            1 <= rr <= n,
            row@.len() == rr + 1,
            forall|k: int| 0 <= k < row@.len() ==> row@[k] as nat == binom(rr as nat, k as nat),
            forall|k: nat| 1 <= k <= n ==> binom(n as nat, k) <= u32::MAX,
        decreases n - rr,
    {
        let mut next: Vec<u32> = Vec::new();
        next.push(1);
        let mut k: usize = 1;
        while k <= rr as usize
            invariant
                1 <= rr < n,
                row@.len() == rr + 1,
                forall|j: int| 0 <= j < row@.len() ==> row@[j] as nat == binom(rr as nat, j as nat),
                forall|j: nat| 1 <= j <= n ==> binom(n as nat, j) <= u32::MAX,
                1 <= k <= rr + 1,
                next@.len() == k,
                forall|j: int|
                    0 <= j < next@.len() ==> next@[j] as nat == binom((rr + 1) as nat, j as nat),
            decreases rr + 1 - k,
        {
            proof {
                assert(binom((rr + 1) as nat, k as nat) == binom(rr as nat, (k - 1) as nat)
                    + binom(rr as nat, k as nat));
                lemma_binom_row_le((rr + 1) as nat, n as nat, k as nat);
                assert(binom((rr + 1) as nat, k as nat) <= u32::MAX);
            }
            let sum: u32 = row[k - 1] + row[k];
            next.push(sum);
            k = k + 1;
        }
        proof {
            lemma_binom_diag((rr + 1) as nat);
        }
        next.push(1);
        row = next;
        rr = rr + 1;
    }
    // copy out the inner entries
    let mut out: Vec<u32> = Vec::new();
    let mut k: usize = 1;
    while k < n as usize
        invariant
            row@.len() == n + 1,
            forall|j: int| 0 <= j < row@.len() ==> row@[j] as nat == binom(n as nat, j as nat),
            1 <= k <= n,
            out@.len() == k - 1,
            forall|j: int| 0 <= j < out@.len() ==> out@[j] as nat == binom(n as nat, (j + 1) as nat),
            n >= 2,
        decreases n - k,
    {
        out.push(row[k]);
        k = k + 1;
    }
    out
}

/// Powers of larger bases are larger (weakly, for nonnegative bases).
pub(crate) proof fn lemma_pow_base_mono(a: int, b: int, e: nat)
    requires
        0 <= a <= b,
    ensures
        0 <= pow(a, e) <= pow(b, e),
    decreases e,
{
    if e == 0 {
        vstd::arithmetic::power::lemma_pow0(a);
        vstd::arithmetic::power::lemma_pow0(b);
    } else {
        lemma_pow_base_mono(a, b, (e - 1) as nat);
        lemma_pow_adds(a, (e - 1) as nat, 1);
        lemma_pow_adds(b, (e - 1) as nat, 1);
        lemma_pow1(a);
        lemma_pow1(b);
        assert(0 <= pow(a, (e - 1) as nat) * a <= pow(b, (e - 1) as nat) * b) by (nonlinear_arith)
            requires
                0 <= pow(a, (e - 1) as nat) <= pow(b, (e - 1) as nat),
                0 <= a <= b,
        ;
    }
}

/// Powers of strictly larger bases are strictly larger (positive
/// exponent).
proof fn lemma_pow_base_strict(a: int, b: int, e: nat)
    requires
        0 <= a < b,
        e >= 1,
    ensures
        pow(a, e) < pow(b, e),
{
    lemma_pow_base_mono(a, b, (e - 1) as nat);
    lemma_pow_adds(a, (e - 1) as nat, 1);
    lemma_pow_adds(b, (e - 1) as nat, 1);
    lemma_pow1(a);
    lemma_pow1(b);
    vstd::arithmetic::power::lemma_pow_positive(b, (e - 1) as nat);
    assert(pow(a, (e - 1) as nat) * a < pow(b, (e - 1) as nat) * b) by (nonlinear_arith)
        requires
            0 <= pow(a, (e - 1) as nat) <= pow(b, (e - 1) as nat),
            pow(b, (e - 1) as nat) >= 1,
            0 <= a < b,
    ;
}

/// A perfect root is unique.
pub proof fn lemma_perfect_root_unique(a: int, b: int, e: nat)
    requires
        0 <= a,
        0 <= b,
        e >= 1,
        pow(a, e) == pow(b, e),
    ensures
        a == b,
{
    if a < b {
        lemma_pow_base_strict(a, b, e);
    }
    if b < a {
        lemma_pow_base_strict(b, a, e);
    }
}

/// Finds the whole number whose d-th power is x, if one exists, by
/// walking candidate bases upward until the candidate power meets or
/// exceeds the target.
pub fn perfect_root_u64(x: u64, d: u32) -> (r: Option<u64>)
    requires
        d >= 1,
    ensures
        r matches Some(v) ==> pow(v as int, d as nat) == x as int,
        r is None ==> forall|v: int| 0 <= v ==> pow(v, d as nat) != x as int,
{
    let mut k: u128 = 0;
    while k <= x as u128
        invariant
            d >= 1,
            forall|j: int| 0 <= j < k ==> pow(j, d as nat) != x as int,
        decreases x as int + 1 - k,
    {
        match super::pow::checked_pow_u64(k as u64, d) {
            Some(p) => {
                if p == x {
                    return Some(k as u64);
                }
                if p > x {
                    proof {
                        assert forall|v: int| 0 <= v implies pow(v, d as nat) != x as int by {
                            if v >= k {
                                lemma_pow_base_mono(k as int, v, d as nat);
                            }
                        }
                    }
                    return None;
                }
            },
            None => {
                proof {
                    assert forall|v: int| 0 <= v implies pow(v, d as nat) != x as int by {
                        if v >= k {
                            lemma_pow_base_mono(k as int, v, d as nat);
                        }
                    }
                }
                return None;
            },
        }
        k = k + 1;
    }
    proof {
        assert forall|v: int| 0 <= v implies pow(v, d as nat) != x as int by {
            if v > x {
                lemma_pow_increases(v as nat, 1, d as nat);
                lemma_pow1(v);
            }
        }
    }
    None
}

/// The root operator of the engine.  An implementor states when the
/// operation may be asked for and what it returns, so every use through
/// the trait keeps the full contract.
pub trait NthRoot<RHS = Self> where Self: Sized {
    type Output;

    /// When the operands are acceptable.
    spec fn nth_root_req(&self, index: RHS) -> bool;

    /// What the root is.
    spec fn nth_root_spec(&self, index: RHS) -> Self::Output;

    fn nth_root(&self, index: RHS) -> (r: Self::Output)
        requires
            self.nth_root_req(index),
        ensures
            r == self.nth_root_spec(index),
    ;
}

/// The exact d-th root of a machine word, when the word is a perfect
/// d-th power.
pub open spec fn spec_u32_root(x: u32, d: u32) -> Option<u32> {
    if d >= 1 && (exists|v: int| 0 <= v <= u32::MAX && pow(v, d as nat) == x as int) {
        Some((choose|v: int| 0 <= v <= u32::MAX && pow(v, d as nat) == x as int) as u32)
    } else {
        None
    }
}

impl NthRoot for u32 {
    type Output = Option<u32>;

    open spec fn nth_root_req(&self, index: u32) -> bool {
        index >= 1
    }

    open spec fn nth_root_spec(&self, index: u32) -> Option<u32> {
        spec_u32_root(*self, index)
    }

    fn nth_root(&self, index: u32) -> (r: Option<u32>) {
        match perfect_root_u64(*self as u64, index) {
            Some(v) => {
                proof {
                    if v > u32::MAX {
                        lemma_pow_increases(v as nat, 1, index as nat);
                        lemma_pow1(v as int);
                    }
                    assert(exists|w: int|
                        0 <= w <= u32::MAX && pow(w, index as nat) == *self as int);
                    let w = choose|w: int|
                        0 <= w <= u32::MAX && pow(w, index as nat) == *self as int;
                    lemma_perfect_root_unique(w, v as int, index as nat);
                }
                Some(v as u32)
            },
            None => {
                proof {
                    assert(spec_u32_root(*self, index) is None) by {
                        if exists|w: int| 0 <= w <= u32::MAX && pow(w, index as nat) == *self
                            as int {
                            let w = choose|w: int|
                                0 <= w <= u32::MAX && pow(w, index as nat) == *self as int;
                            assert(pow(w, index as nat) == *self as int);
                        }
                    }
                }
                None
            },
        }
    }
}

impl Number {
    /// What the rhs-th root yields.
    ///
    /// A zero-th root fails; an even root of a known-negative operand
    /// fails; an odd root of a negative operand negates the root of the
    /// magnitude.  A whole-number operand that is a perfect power gives
    /// its whole root back; everything else becomes a radical in normal
    /// form (a fraction n/d contributes coefficient 1/d over radicand
    /// n times d to the index minus one; a radical multiplies the
    /// indices; symbols and symbolic terms go under the root as they
    /// are).  A negative rhs takes the positive root and then inverts.
    pub open spec fn spec_nth_root(a: Number, rhs: int) -> Result<Number, EvalError> {
        if rhs == 0 {
            Err(EvalError::ZerothRoot)
        } else if nat_abs(rhs) > u32::MAX {
            Err(EvalError::Overflow)
        } else {
            let index = nat_abs(rhs) as u32;
            let root_r = Self::spec_root_core(a, index);
            if rhs < 0 {
                match root_r {
                    Ok(v) => Self::spec_div(Number::Int(1), v),
                    Err(e) => Err(e),
                }
            } else {
                root_r
            }
        }
    }

    /// The positive-index root of a value.  For an even index the
    /// operand's sign is classified first through the exact comparison
    /// with zero: a decidedly negative operand fails, and an operand
    /// whose sign the exact engine cannot decide has no exact root
    /// here.
    pub open spec fn spec_root_core(a: Number, index: u32) -> Result<Number, EvalError> {
        if index == 1 {
            Ok(a)
        } else if index % 2 == 0 && Self::spec_try_compare(a, Number::Int(0)) == Some(
            Ordering::Less,
        ) {
            Err(EvalError::EvenRootOfNegative)
        } else if index % 2 == 0 && Self::spec_try_compare(a, Number::Int(0)) is None {
            Err(EvalError::Inexact)
        } else {
            match a {
                Number::Int(lhs) => {
                    {
                        let m = nat_abs(lhs as int);
                        if exists|v: int| 0 <= v && pow(v, index as nat) == m {
                            let v = choose|v: int| 0 <= v && pow(v, index as nat) == m;
                            if lhs < 0 {
                                Ok(Number::Int((-v) as i64))
                            } else {
                                Ok(Number::Int(v as i64))
                            }
                        } else if m > i64::MAX {
                            Err(EvalError::Overflow)
                        } else {
                            let sign: int = if lhs < 0 {
                                -1
                            } else {
                                1
                            };
                            match (Radical {
                                coefficient: spec_rat(sign, 1),
                                index,
                                radicand: Box::new(Number::Int(m as i64)),
                            }).spec_simplify() {
                                Ok(v) => Ok(spec_radical_to_number(v)),
                                Err(e) => Err(e),
                            }
                        }
                    }
                },
                Number::Rational(rat) => {
                    {
                        let pd = pow(rat.d(), (index - 1) as nat);
                        let prod = nat_abs(rat.n()) * pd;
                        if prod > i64::MAX {
                            Err(EvalError::Overflow)
                        } else {
                            let sign: int = if rat.n() < 0 {
                                -1
                            } else {
                                1
                            };
                            match (Radical {
                                coefficient: spec_rat(sign, rat.d()),
                                index,
                                radicand: Box::new(Number::Int(prod as i64)),
                            }).spec_simplify() {
                                Ok(v) => Ok(spec_radical_to_number(v)),
                                Err(e) => Err(e),
                            }
                        }
                    }
                },
                Number::Radical(rad) => {
                    if rad.index * index > u32::MAX {
                        Err(EvalError::Overflow)
                    } else {
                        let product = (rad.index * index) as u32;
                        if product % 2 == 0 && known_negative(*rad.radicand) {
                            Err(EvalError::Inexact)
                        } else {
                            match (Radical {
                                coefficient: rad.coefficient,
                                index: product,
                                radicand: rad.radicand,
                            }).spec_simplify() {
                                Ok(v) => Ok(spec_radical_to_number(v)),
                                Err(e) => Err(e),
                            }
                        }
                    }
                },
                _ => {
                    match (Radical {
                        coefficient: spec_rat(1, 1),
                        index,
                        radicand: Box::new(a),
                    }).spec_simplify() {
                        Ok(v) => Ok(spec_radical_to_number(v)),
                        Err(e) => Err(e),
                    }
                },
            }
        }
    }

    /// The exact rhs-th root.
    pub fn nth_root(&self, rhs: i64) -> (r: Result<Number, EvalError>)
        requires
            self.wf(),
        ensures
            r == Self::spec_nth_root(*self, rhs as int),
            r matches Ok(v) ==> v.wf(),
    {
        if rhs == 0 {
            return Err(EvalError::ZerothRoot);
        }
        let mag = crate::eval::abs_u64(rhs);
        if mag > u32::MAX as u64 {
            return Err(EvalError::Overflow);
        }
        let index: u32 = mag as u32;
        let root_r = Self::root_core(self, index);
        if rhs < 0 {
            match root_r {
                Ok(v) => Number::div(&Number::Int(1), &v),
                Err(e) => Err(e),
            }
        } else {
            root_r
        }
    }

    /// Takes the positive-index root.
    fn root_core(a: &Number, index: u32) -> (r: Result<Number, EvalError>)
        requires
            a.wf(),
            index >= 1,
        ensures
            r == Self::spec_root_core(*a, index),
            r matches Ok(v) ==> v.wf(),
    {
        if index == 1 {
            return Ok(num_clone(a));
        }
        if index % 2 == 0 {
            match a.try_compare(&Number::Int(0)) {
                Some(Ordering::Less) => {
                    return Err(EvalError::EvenRootOfNegative);
                },
                None => {
                    return Err(EvalError::Inexact);
                },
                Some(_) => {},
            }
        }
        match a {
            Number::Int(lhs) => {
                let m = crate::eval::abs_u64(*lhs);
                match perfect_root_u64(m, index) {
                    Some(v) => {
                        proof {
                            let w = choose|w: int| 0 <= w && pow(w, index as nat) == m as int;
                            lemma_perfect_root_unique(w, v as int, index as nat);
                            if v >= 1 {
                                lemma_pow_increases(v as nat, 1, index as nat);
                                lemma_pow1(v as int);
                            }
                            assert(v as int <= m as int);
                        }
                        if *lhs < 0 {
                            Ok(Number::Int((-(v as i128)) as i64))
                        } else {
                            Ok(Number::Int(v as i64))
                        }
                    },
                    None => {
                        proof {
                            assert(!(exists|w: int|
                                0 <= w && pow(w, index as nat) == m as int));
                            crate::rat::lemma_gcd_with_one(1);
                            lemma_spec_rat_parts(if *lhs < 0 { -1int } else { 1int }, 1);
                        }
                        if m > i64::MAX as u64 {
                            return Err(EvalError::Overflow);
                        }
                        let sign: i64 = if *lhs < 0 {
                            -1
                        } else {
                            1
                        };
                        let coeff = Rat::from_int(sign);
                        proof {
                            crate::rat::lemma_rat_eq_parts(
                                coeff,
                                spec_rat(if *lhs < 0 { -1int } else { 1int }, 1),
                            );
                        }
                        match (Radical {
                            coefficient: coeff,
                            index,
                            radicand: Box::new(Number::Int(m as i64)),
                        }).simplify() {
                            Ok(v) => Ok(radical_to_number(v)),
                            Err(e) => Err(e),
                        }
                    },
                }
            },
            Number::Rational(rat) => {
                proof {
                    crate::rat::lemma_wf_nonint_nonzero(*rat);
                }
                let pd = match checked_pow_i64(rat.denom(), index - 1) {
                    Some(v) => v,
                    None => {
                        proof {
                            vstd::arithmetic::power::lemma_pow_positive(rat.d(), (index - 1) as nat);
                            assert(nat_abs(rat.n()) * pow(rat.d(), (index - 1) as nat)
                                > i64::MAX) by (nonlinear_arith)
                                requires
                                    pow(rat.d(), (index - 1) as nat) > i64::MAX,
                                    nat_abs(rat.n()) >= 1,
                            ;
                        }
                        return Err(EvalError::Overflow);
                    },
                };
                proof {
                    vstd::arithmetic::power::lemma_pow_positive(rat.d(), (index - 1) as nat);
                }
                let num_mag: u64 = crate::eval::abs_u64(rat.numer());
                proof {
                    assert(num_mag as int * pd as int
                        <= 0x4000_0000_0000_0000_0000_0000_0000_0000) by (nonlinear_arith)
                        requires
                            0 <= num_mag as int <= 0x8000_0000_0000_0000,
                            0 <= pd as int <= 0x7fff_ffff_ffff_ffff,
                    ;
                }
                let prod: i128 = num_mag as i128 * pd as i128;
                if prod > i64::MAX as i128 {
                    return Err(EvalError::Overflow);
                }
                let sign: i64 = if rat.numer() < 0 {
                    -1
                } else {
                    1
                };
                proof {
                    crate::rat::lemma_one_gcd(nat_abs(rat.d()));
                    crate::rat::lemma_red_of_coprime(sign as int, rat.d());
                    lemma_spec_rat_parts(sign as int, rat.d());
                }
                let coeff = match Rat::new(sign, rat.denom()) {
                    Ok(c) => c,
                    Err(e) => {
                        // unreachable: a sign over this denominator always reduces
                        proof {
                            assert(false);
                        }
                        return Err(e);
                    },
                };
                proof {
                    crate::rat::lemma_rat_eq_parts(coeff, spec_rat(sign as int, rat.d()));
                }
                match (Radical {
                    coefficient: coeff,
                    index,
                    radicand: Box::new(Number::Int(prod as i64)),
                }).simplify() {
                    Ok(v) => Ok(radical_to_number(v)),
                    Err(e) => Err(e),
                }
            },
            Number::Radical(rad) => {
                match rad.index.checked_mul(index) {
                    Some(product) => {
                        proof {
                            assert(product >= 2) by (nonlinear_arith)
                                requires
                                    product == rad.index * index,
                                    rad.index >= 2,
                                    index >= 1,
                            ;
                        }
                        let neg: bool = match &*rad.radicand {
                            Number::Int(v) => *v < 0,
                            Number::Rational(q) => q.numer() < 0,
                            _ => false,
                        };
                        if product % 2 == 0 && neg {
                            // a positive operand over an odd-index negative
                            // radicand has no representation under an even
                            // combined index
                            Err(EvalError::Inexact)
                        } else {
                            match (Radical {
                                coefficient: rad.coefficient,
                                index: product,
                                radicand: Box::new(num_clone(&rad.radicand)),
                            }).simplify() {
                                Ok(v) => Ok(radical_to_number(v)),
                                Err(e) => Err(e),
                            }
                        }
                    },
                    None => Err(EvalError::Overflow),
                }
            },
            other => {
                let coeff = Rat::from_int(1);
                proof {
                    lemma_spec_rat_parts(1, 1);
                    crate::rat::lemma_rat_eq_parts(coeff, spec_rat(1, 1));
                }
                match (Radical {
                    coefficient: coeff,
                    index,
                    radicand: Box::new(num_clone(other)),
                }).simplify() {
                    Ok(v) => Ok(radical_to_number(v)),
                    Err(e) => Err(e),
                }
            },
        }
    }
}

impl NthRoot<i64> for Number {
    type Output = Result<Number, EvalError>;

    open spec fn nth_root_req(&self, index: i64) -> bool {
        self.wf()
    }

    open spec fn nth_root_spec(&self, index: i64) -> Result<Number, EvalError> {
        Number::spec_nth_root(*self, index as int)
    }

    fn nth_root(&self, index: i64) -> (r: Result<Number, EvalError>) {
        Number::nth_root(self, index)
    }
}

impl Number {
    /// The root of an exact power is its whole base: for every positive
    /// base r and index of at least two, taking the index-th root of r
    /// raised to that index gives back exactly the whole number r, never
    /// a radical and never an approximation.
    pub proof fn lemma_root_of_perfect_power(r: int, n: u32)
        requires
            1 <= r,
            2 <= n,
            pow(r, n as nat) <= i64::MAX,
        ensures
            Number::spec_nth_root(Number::Int(pow(r, n as nat) as i64), n as int) == Ok::<
                Number,
                EvalError,
            >(Number::Int(r as i64)),
    {
        let x = pow(r, n as nat);
        vstd::arithmetic::power::lemma_pow_positive(r, n as nat);
        lemma_pow_increases(r as nat, 1, n as nat);
        lemma_pow1(r);
        assert(r <= x);
        assert(nat_abs(n as int) == n);
        assert(nat_abs(x) == x);
        assert(Number::spec_nth_root(Number::Int(x as i64), n as int)
            == Number::spec_root_core(Number::Int(x as i64), n));
        assert(Number::spec_try_compare(Number::Int(x as i64), Number::Int(0)) == Some(
            Ordering::Greater,
        ));
        assert(exists|v: int| 0 <= v && pow(v, n as nat) == x) by {
            assert(pow(r, n as nat) == x);
        }
        let v = choose|v: int| 0 <= v && pow(v, n as nat) == x;
        lemma_perfect_root_unique(v, r, n as nat);
    }
}

impl Number {
    /// The sign law for odd roots: whenever the odd root of a negative
    /// whole number has an exact form, that form is negative — a whole
    /// root is a negative whole number and a radical root carries a
    /// negative coefficient.
    pub proof fn lemma_odd_root_negative(x: int, n: u32)
        requires
            i64::MIN < x < 0,
            n >= 3,
            n % 2 == 1,
        ensures
            Number::spec_nth_root(Number::Int(x as i64), n as int) matches Ok(v) ==> (match v {
                Number::Int(w) => w < 0,
                Number::Radical(rad) => rad.coefficient.n() < 0,
                _ => false,
            }),
    {
        assert(nat_abs(n as int) == n);
        let m = nat_abs(x);
        assert(Number::spec_nth_root(Number::Int(x as i64), n as int)
            == Number::spec_root_core(Number::Int(x as i64), n));
        if exists|v: int| 0 <= v && pow(v, n as nat) == m {
            let v = choose|v: int| 0 <= v && pow(v, n as nat) == m;
            assert(v >= 1) by {
                if v == 0 {
                    vstd::arithmetic::power::lemma0_pow(n as nat);
                }
            }
            vstd::arithmetic::power::lemma_pow_positive(v, n as nat);
            lemma_pow_increases(v as nat, 1, n as nat);
            lemma_pow1(v);
            assert(v <= m);
        } else {
            crate::rat::lemma_spec_rat_parts(-1, 1);
            let c0 = spec_rat(-1, 1);
            crate::eval::radical::lemma_simplify_from_sign(c0, m as int, 0, n);
            crate::eval::radical::lemma_simplify_from_value(c0, m as int, 0, n);
            crate::eval::radical::lemma_simplify_from_den_one(c0, m as int, 0, n);
            crate::eval::radical::lemma_simplify_from_magnitude(c0, m as int, 0, n);
            match crate::eval::radical::spec_simplify_from(c0, m as int, 0, n) {
                Ok(pair) => {
                    Self::lemma_unextracted_radicand(x, n, pair.0, pair.1);
                },
                Err(_) => {},
            }
        }
    }

    /// After extracting from the magnitude of a negative number that is
    /// not a perfect power, the remaining radicand cannot be one (one
    /// would mean the magnitude was a perfect power after all).
    proof fn lemma_unextracted_radicand(x: int, n: u32, c2: Rat, r2: int)
        requires
            i64::MIN < x < 0,
            3 <= n,
            n % 2 == 1,
            !(exists|v: int| 0 <= v && pow(v, n as nat) == nat_abs(x)),
            crate::eval::radical::spec_simplify_from(spec_rat(-1, 1), nat_abs(x) as int, 0, n)
                == Ok::<(Rat, int), EvalError>((c2, r2)),
        ensures
            r2 != 1,
            c2.d() == 1,
            c2.n() < 0,
    {
        let m = nat_abs(x);
        crate::rat::lemma_spec_rat_parts(-1, 1);
        let c0 = spec_rat(-1, 1);
        crate::eval::radical::lemma_simplify_from_sign(c0, m as int, 0, n);
        crate::eval::radical::lemma_simplify_from_value(c0, m as int, 0, n);
        crate::eval::radical::lemma_simplify_from_den_one(c0, m as int, 0, n);
        lemma_pow_neg_odd(1, n as nat);
        vstd::arithmetic::power::lemma1_pow(n as nat);
        assert(pow(c0.n(), n as nat) == -1);
        assert(pow(c0.d(), n as nat) == 1);
        assert(pow(c2.d(), n as nat) == 1);
        let cn = pow(c2.n(), n as nat);
        assert(cn * r2 * 1 == (-1) * (m as int) * 1);
        assert(cn * r2 == -(m as int)) by (nonlinear_arith)
            requires
                cn * r2 * 1 == (-1) * (m as int) * 1,
        ;
        if r2 == 1 {
            assert(cn == -(m as int)) by (nonlinear_arith)
                requires
                    cn * r2 == -(m as int),
                    r2 == 1,
            ;
            let u = -c2.n();
            lemma_pow_neg_odd(u, n as nat);
            assert(pow(c2.n(), n as nat) == -pow(u, n as nat));
            assert(pow(u, n as nat) == m);
            assert(u >= 0);
            assert(false);
        }
    }
}

/// Odd powers carry the sign of the base.
proof fn lemma_pow_neg_odd(a: int, n: nat)
    requires
        n % 2 == 1,
    ensures
        pow(-a, n) == -pow(a, n),
    decreases n,
{
    if n == 1 {
        lemma_pow1(a);
        lemma_pow1(-a);
    } else {
        lemma_pow_neg_odd(a, (n - 2) as nat);
        lemma_pow_adds(a, (n - 2) as nat, 2);
        lemma_pow_adds(-a, (n - 2) as nat, 2);
        lemma_pow_adds(a, 1, 1);
        lemma_pow_adds(-a, 1, 1);
        lemma_pow1(a);
        lemma_pow1(-a);
        assert(pow(-a, 2) == pow(a, 2)) by (nonlinear_arith)
            requires
                pow(-a, 2) == (-a) * (-a),
                pow(a, 2) == a * a,
        ;
        assert(pow(-a, (n - 2) as nat) * pow(-a, 2) == -(pow(a, (n - 2) as nat) * pow(a, 2)))
            by (nonlinear_arith)
            requires
                pow(-a, (n - 2) as nat) == -pow(a, (n - 2) as nat),
                pow(-a, 2) == pow(a, 2),
        ;
    }
}

impl Number {
    /// The odd root of a negative whole number above the smallest
    /// 64-bit value always succeeds: neither a sign failure nor an
    /// overflow report can occur, so the sign and recombination laws
    /// apply to an actual value.
    pub proof fn lemma_odd_root_total(x: int, n: u32)
        requires
            i64::MIN < x < 0,
            3 <= n,
            n % 2 == 1,
        ensures
            Number::spec_nth_root(Number::Int(x as i64), n as int) is Ok,
    {
        let m = nat_abs(x);
        assert(nat_abs(n as int) == n);
        assert(Number::spec_nth_root(Number::Int(x as i64), n as int)
            == Number::spec_root_core(Number::Int(x as i64), n));
        if exists|v: int| 0 <= v && pow(v, n as nat) == m {
        } else {
            crate::rat::lemma_spec_rat_parts(-1, 1);
            let c0 = spec_rat(-1, 1);
            vstd::arithmetic::power::lemma1_pow(n as nat);
            assert(nat_abs(c0.n()) == 1);
            assert(pow(nat_abs(c0.n()) as int, n as nat) * nat_abs(m as int) <= i64::MAX);
            crate::eval::radical::lemma_simplify_from_total(c0, m as int, 0, n);
        }
    }

    /// The second half of the sign law for odd roots: raising the exact
    /// odd root of a negative whole number back to its index recombines
    /// to exactly the operand, whether the root came out whole or as a
    /// radical.
    #[verifier::rlimit(50)]
    pub proof fn lemma_odd_root_recombines(x: int, n: u32)
        requires
            i64::MIN < x < 0,
            3 <= n,
            n % 2 == 1,
        ensures
            Number::spec_nth_root(Number::Int(x as i64), n as int) matches Ok(v)
                ==> Number::spec_pow(v, Number::Int(n as i64)) == Ok::<Number, EvalError>(
                Number::Int(x as i64),
            ),
    {
        let m = nat_abs(x);
        assert(nat_abs(n as int) == n);
        assert(Number::spec_nth_root(Number::Int(x as i64), n as int)
            == Number::spec_root_core(Number::Int(x as i64), n));
        if exists|v: int| 0 <= v && pow(v, n as nat) == m {
            let w = choose|v: int| 0 <= v && pow(v, n as nat) == m;
            assert(w >= 1) by {
                if w == 0 {
                    vstd::arithmetic::power::lemma0_pow(n as nat);
                }
            }
            vstd::arithmetic::power::lemma_pow_positive(w, n as nat);
            lemma_pow_increases(w as nat, 1, n as nat);
            lemma_pow1(w);
            assert(w <= m);
            // the root is the whole number -w; its n-th power is -m == x
            lemma_pow_neg_odd(w, n as nat);
            let v = Number::Int((-w) as i64);
            assert(Number::spec_pow(v, Number::Int(n as i64)) == Number::spec_pow_int(v, n));
            assert(pow(-w, n as nat) == x);
        } else {
            crate::rat::lemma_spec_rat_parts(-1, 1);
            let c0 = spec_rat(-1, 1);
            crate::eval::radical::lemma_simplify_from_value(c0, m as int, 0, n);
            crate::eval::radical::lemma_simplify_from_den_one(c0, m as int, 0, n);
            match crate::eval::radical::spec_simplify_from(c0, m as int, 0, n) {
                Ok(pair) => {
                    let c2 = pair.0;
                    let r2 = pair.1;
                    Self::lemma_unextracted_radicand(x, n, c2, r2);
                    let cn = pow(c2.n(), n as nat);
                    // the walk preserved the value: cn * r2 == -m == x
                    lemma_pow_neg_odd(1, n as nat);
                    vstd::arithmetic::power::lemma1_pow(n as nat);
                    assert(pow(c0.n(), n as nat) == -1);
                    assert(pow(c0.d(), n as nat) == 1);
                    assert(pow(c2.d(), n as nat) == 1);
                    assert(cn * r2 * 1 == (-1) * (m as int) * 1);
                    assert(cn * r2 == x) by (nonlinear_arith)
                        requires
                            cn * r2 * 1 == (-1) * (m as int) * 1,
                            m == -x,
                    ;
                    // both factors stay within the word range
                    assert(cn != 0 && r2 != 0) by (nonlinear_arith)
                        requires
                            cn * r2 == x,
                            x != 0,
                    ;
                    assert(i64::MIN < cn <= i64::MAX && i64::MIN <= r2 <= i64::MAX)
                        by (nonlinear_arith)
                        requires
                            cn * r2 == x,
                            cn != 0,
                            r2 != 0,
                            i64::MIN < x < 0,
                    ;
                    // walk pow_int through the radical arm
                    let rad = Radical {
                        coefficient: c2,
                        index: n,
                        radicand: Box::new(Number::Int(r2 as i64)),
                    };
                    let v = Number::Radical(Box::new(rad));
                    assert(r2 as i64 != 1);
                    assert(spec_radical_to_number(rad) == v);
                    assert(Number::spec_pow(v, Number::Int(n as i64)) == Number::spec_pow_int(
                        v,
                        n,
                    ));
                    assert(n % n == 0) by (nonlinear_arith)
                        requires
                            n >= 1,
                    ;
                    assert(n / n == 1) by (nonlinear_arith)
                        requires
                            n >= 1,
                    ;
                    crate::rat::lemma_gcd_with_one(nat_abs(cn));
                    crate::rat::lemma_red_of_coprime(cn, 1);
                    crate::rat::lemma_spec_rat_parts(cn, 1);
                    assert(rat_reduce_result(cn, 1) == Ok::<Rat, EvalError>(spec_rat(cn, 1)));
                    lemma_pow1(r2);
                    assert(Number::spec_pow_int(Number::Int(r2 as i64), 1) == Ok::<
                        Number,
                        EvalError,
                    >(Number::Int(r2 as i64)));
                    assert(Number::spec_mul(Number::Int(cn as i64), Number::Int(r2 as i64))
                        == Ok::<Number, EvalError>(Number::Int(x as i64)));
                },
                Err(_) => {},
            }
        }
    }
}

} // verus!
