//! Cross-representation comparison of exact values.
//!
//! Comparisons stay exact wherever algebra allows: whole numbers and
//! fractions compare by cross multiplication; the named constants
//! compare against fractions through fixed rational brackets that
//! enclose each constant; symbolic terms with fraction parts reduce to
//! the sign of a linear form in their symbol; radicals over whole
//! radicands compare by raising both sides to the index.  Where no such
//! path exists (or a machine bound is left) the comparison reports
//! nothing and the caller may fall back to approximate evaluation.

use vstd::prelude::*;
use vstd::arithmetic::power::pow;

use crate::eval::radical::Radical;
use crate::eval::{num_eq, Number, Symbol, Symbolic};
use crate::rat::Rat;

use core::cmp::Ordering;

verus! {

/// A multiplication that reports leaving the 128-bit range.
pub open spec fn chk_mul(a: int, b: int) -> Option<int> {
    if i128::MIN <= a * b <= i128::MAX {
        Some(a * b)
    } else {
        None
    }
}

/// An addition that reports leaving the 128-bit range.
pub open spec fn chk_add(a: int, b: int) -> Option<int> {
    if i128::MIN <= a + b <= i128::MAX {
        Some(a + b)
    } else {
        None
    }
}

/// The ordering that the sign of a difference denotes.
pub open spec fn ord_of_sign(s: int) -> Ordering {
    if s < 0 {
        Ordering::Less
    } else if s == 0 {
        Ordering::Equal
    } else {
        Ordering::Greater
    }
}

/// The reverse of an ordering.
pub open spec fn spec_rev_ord(o: Ordering) -> Ordering {
    match o {
        Ordering::Less => Ordering::Greater,
        Ordering::Greater => Ordering::Less,
        Ordering::Equal => Ordering::Equal,
    }
}

/// Reverses an ordering.
pub fn rev_ord(o: Ordering) -> (r: Ordering)
    ensures
        r == spec_rev_ord(o),
{
    match o {
        Ordering::Less => Ordering::Greater,
        Ordering::Greater => Ordering::Less,
        Ordering::Equal => Ordering::Equal,
    }
}

/// The common denominator of the constant brackets.
pub open spec fn sym_den() -> int {
    100000000
}

/// The lower bracket numerator of a named constant, over `sym_den`.
/// Each bracket pair encloses the constant's value strictly.
pub open spec fn sym_lo_n(s: Symbol) -> int {
    match s {
        Symbol::Pi => 314159265,
        Symbol::E => 271828182,
        Symbol::Phi => 161803398,
        Symbol::Sqrt2 => 141421356,
    }
}

/// The upper bracket numerator of a named constant, over `sym_den`.
pub open spec fn sym_hi_n(s: Symbol) -> int {
    match s {
        Symbol::Pi => 314159266,
        Symbol::E => 271828183,
        Symbol::Phi => 161803399,
        Symbol::Sqrt2 => 141421357,
    }
}

/// The bracket numerators of a named constant.
pub fn sym_bounds(s: Symbol) -> (r: (i64, i64))
    ensures
        r.0 as int == sym_lo_n(s),
        r.1 as int == sym_hi_n(s),
{
    match s {
        Symbol::Pi => (314159265, 314159266),
        Symbol::E => (271828182, 271828183),
        Symbol::Phi => (161803398, 161803399),
        Symbol::Sqrt2 => (141421356, 141421357),
    }
}

/// The named constants in increasing order of value, as their brackets
/// show.
pub open spec fn sym_rank(s: Symbol) -> int {
    match s {
        Symbol::Sqrt2 => 0,
        Symbol::Phi => 1,
        Symbol::E => 2,
        Symbol::Pi => 3,
    }
}

/// A value read as a fraction: whole numbers and fractions only.
pub open spec fn spec_as_pair(n: Number) -> Option<(int, int)> {
    match n {
        Number::Int(v) => Some((v as int, 1)),
        Number::Rational(q) => Some((q.n(), q.d())),
        _ => None,
    }
}

/// Reads a value as a fraction when it is one.
pub fn as_pair(n: &Number) -> (r: Option<(i64, i64)>)
    ensures
        r matches Some(p) ==> spec_as_pair(*n) == Some((p.0 as int, p.1 as int)),
        r is None ==> spec_as_pair(*n) is None,
{
    match n {
        Number::Int(v) => Some((*v, 1)),
        Number::Rational(q) => Some((q.numer(), q.denom())),
        _ => None,
    }
}

/// The sign of the linear form dc * s + dk, where dc and dk are
/// fractions with positive denominators, decided through the bracket of
/// the constant s; undecidable when the form straddles the bracket or a
/// product leaves the 128-bit range.
pub open spec fn spec_sign_linear(s: Symbol, dcn: int, dcd: int, dkn: int, dkd: int) -> Option<
    Ordering,
> {
    if dcn == 0 {
        Some(ord_of_sign(dkn))
    } else {
        let t2 = match chk_mul(dkn, dcd) {
            Some(v) => chk_mul(v, sym_den()),
            None => None,
        };
        let lo1 = match chk_mul(dcn, sym_lo_n(s)) {
            Some(v) => chk_mul(v, dkd),
            None => None,
        };
        let hi1 = match chk_mul(dcn, sym_hi_n(s)) {
            Some(v) => chk_mul(v, dkd),
            None => None,
        };
        match (lo1, hi1, t2) {
            (Some(l1), Some(h1), Some(t)) => match (chk_add(l1, t), chk_add(h1, t)) {
                (Some(lo_num), Some(hi_num)) => {
                    if dcn > 0 {
                        if lo_num >= 0 {
                            Some(Ordering::Greater)
                        } else if hi_num <= 0 {
                            Some(Ordering::Less)
                        } else {
                            None
                        }
                    } else {
                        if hi_num >= 0 {
                            Some(Ordering::Greater)
                        } else if lo_num <= 0 {
                            Some(Ordering::Less)
                        } else {
                            None
                        }
                    }
                },
                _ => None,
            },
            _ => None,
        }
    }
}

/// Decides the sign of dc * s + dk through the constant's bracket.
pub fn sign_linear(s: Symbol, dcn: i64, dcd: i64, dkn: i64, dkd: i64) -> (r: Option<Ordering>)
    ensures
        r == spec_sign_linear(s, dcn as int, dcd as int, dkn as int, dkd as int),
{
    if dcn == 0 {
        return Some(
            if dkn < 0 {
                Ordering::Less
            } else if dkn == 0 {
                Ordering::Equal
            } else {
                Ordering::Greater
            },
        );
    }
    let bounds = sym_bounds(s);
    let t2a = match (dkn as i128).checked_mul(dcd as i128) {
        Some(v) => v,
        None => {
            return None;
        },
    };
    let t2 = match t2a.checked_mul(100000000) {
        Some(v) => v,
        None => {
            return None;
        },
    };
    let l1a = match (dcn as i128).checked_mul(bounds.0 as i128) {
        Some(v) => v,
        None => {
            return None;
        },
    };
    let l1 = match l1a.checked_mul(dkd as i128) {
        Some(v) => v,
        None => {
            return None;
        },
    };
    let h1a = match (dcn as i128).checked_mul(bounds.1 as i128) {
        Some(v) => v,
        None => {
            return None;
        },
    };
    let h1 = match h1a.checked_mul(dkd as i128) {
        Some(v) => v,
        None => {
            return None;
        },
    };
    let lo_num = match l1.checked_add(t2) {
        Some(v) => v,
        None => {
            return None;
        },
    };
    let hi_num = match h1.checked_add(t2) {
        Some(v) => v,
        None => {
            return None;
        },
    };
    if dcn > 0 {
        if lo_num >= 0 {
            Some(Ordering::Greater)
        } else if hi_num <= 0 {
            Some(Ordering::Less)
        } else {
            None
        }
    } else {
        if hi_num >= 0 {
            Some(Ordering::Greater)
        } else if lo_num <= 0 {
            Some(Ordering::Less)
        } else {
            None
        }
    }
}

/// The sign of a quantity.
pub open spec fn sign_of(v: int) -> int {
    if v < 0 {
        -1
    } else if v == 0 {
        0
    } else {
        1
    }
}

/// The difference of two fractions as a fraction with 64-bit parts;
/// nothing when a part leaves the range.
pub open spec fn spec_pair_sub(an: int, ad: int, bn: int, bd: int) -> Option<(int, int)> {
    if an == i64::MIN || ad == i64::MIN || bn == i64::MIN || bd == i64::MIN {
        None
    } else {
        let n = an * bd - bn * ad;
        let d = ad * bd;
        if i64::MIN <= n <= i64::MAX && i64::MIN <= d <= i64::MAX {
            Some((n, d))
        } else {
            None
        }
    }
}

/// Subtracts two fractions over 64-bit parts.
pub fn pair_sub(an: i64, ad: i64, bn: i64, bd: i64) -> (r: Option<(i64, i64)>)
    ensures
        r matches Some(p) ==> spec_pair_sub(an as int, ad as int, bn as int, bd as int) == Some(
            (p.0 as int, p.1 as int),
        ),
        r is None ==> spec_pair_sub(an as int, ad as int, bn as int, bd as int) is None,
{
    if an == i64::MIN || ad == i64::MIN || bn == i64::MIN || bd == i64::MIN {
        return None;
    }
    proof {
        assert(-0x3fff_ffff_ffff_ffff_ffff_ffff_ffff_fffe <= an as int * bd as int
            <= 0x3fff_ffff_ffff_ffff_ffff_ffff_ffff_fffe) by (nonlinear_arith)
            requires
                -0x7fff_ffff_ffff_ffff <= an as int <= 0x7fff_ffff_ffff_ffff,
                -0x7fff_ffff_ffff_ffff <= bd as int <= 0x7fff_ffff_ffff_ffff,
        ;
        assert(-0x3fff_ffff_ffff_ffff_ffff_ffff_ffff_fffe <= bn as int * ad as int
            <= 0x3fff_ffff_ffff_ffff_ffff_ffff_ffff_fffe) by (nonlinear_arith)
            requires
                -0x7fff_ffff_ffff_ffff <= bn as int <= 0x7fff_ffff_ffff_ffff,
                -0x7fff_ffff_ffff_ffff <= ad as int <= 0x7fff_ffff_ffff_ffff,
        ;
        assert(-0x3fff_ffff_ffff_ffff_ffff_ffff_ffff_fffe <= ad as int * bd as int
            <= 0x3fff_ffff_ffff_ffff_ffff_ffff_ffff_fffe) by (nonlinear_arith)
            requires
                -0x7fff_ffff_ffff_ffff <= ad as int <= 0x7fff_ffff_ffff_ffff,
                -0x7fff_ffff_ffff_ffff <= bd as int <= 0x7fff_ffff_ffff_ffff,
        ;
    }
    let n: i128 = an as i128 * bd as i128 - bn as i128 * ad as i128;
    let d: i128 = ad as i128 * bd as i128;
    if n < i64::MIN as i128 || n > i64::MAX as i128 || d < i64::MIN as i128 || d > i64::MAX
        as i128 {
        None
    } else {
        Some((n as i64, d as i64))
    }
}

/// The value sign of a radical over a whole-number radicand.
pub open spec fn radical_val_sign(cn: int, x: int) -> int {
    if x == 0 || cn == 0 {
        0
    } else if x > 0 {
        sign_of(cn)
    } else {
        -sign_of(cn)
    }
}

/// Compares coefficient * radicand^(1/index) against the fraction
/// qn/qd by raising both sides to the index.
pub open spec fn spec_cmp_radical_rat(c: Rat, idx: u32, x: int, qn: int, qd: int) -> Option<
    Ordering,
> {
    if x < 0 && idx % 2 == 0 {
        None
    } else {
        let vs = radical_val_sign(c.n(), x);
        let qs = sign_of(qn);
        if vs > qs {
            Some(Ordering::Greater)
        } else if vs < qs {
            Some(Ordering::Less)
        } else if vs == 0 {
            Some(Ordering::Equal)
        } else {
            let pcn = pow(c.n(), idx as nat);
            let pcd = pow(c.d(), idx as nat);
            let pqn = pow(qn, idx as nat);
            let pqd = pow(qd, idx as nat);
            if i64::MIN <= pcn <= i64::MAX && i64::MIN <= pcd <= i64::MAX && i64::MIN <= pqn
                <= i64::MAX && i64::MIN <= pqd <= i64::MAX {
                let lhs = match chk_mul(pcn, x) {
                    Some(v) => chk_mul(v, pqd),
                    None => None,
                };
                let rhs = chk_mul(pqn, pcd);
                match (lhs, rhs) {
                    (Some(lv), Some(rv)) => {
                        let o = ord_of_sign(if lv < rv {
                            -1
                        } else if lv == rv {
                            0
                        } else {
                            1
                        });
                        if idx % 2 == 1 {
                            Some(o)
                        } else if vs > 0 {
                            Some(o)
                        } else {
                            Some(spec_rev_ord(o))
                        }
                    },
                    _ => None,
                }
            } else {
                None
            }
        }
    }
}

/// Compares a radical with a fraction.
pub fn cmp_radical_rat(c: Rat, idx: u32, x: i64, qn: i64, qd: i64) -> (r: Option<Ordering>)
    ensures
        r == spec_cmp_radical_rat(c, idx, x as int, qn as int, qd as int),
{
    if x < 0 && idx % 2 == 0 {
        return None;
    }
    let cn = c.numer();
    let vs: i64 = if x == 0 || cn == 0 {
        0
    } else if x > 0 {
        if cn < 0 {
            -1
        } else {
            1
        }
    } else {
        if cn < 0 {
            1
        } else {
            -1
        }
    };
    let qs: i64 = if qn < 0 {
        -1
    } else if qn == 0 {
        0
    } else {
        1
    };
    if vs > qs {
        return Some(Ordering::Greater);
    }
    if vs < qs {
        return Some(Ordering::Less);
    }
    if vs == 0 {
        return Some(Ordering::Equal);
    }
    let pcn = match super::op::pow::checked_pow_i64(c.numer(), idx) {
        Some(v) => v,
        None => {
            return None;
        },
    };
    let pcd = match super::op::pow::checked_pow_i64(c.denom(), idx) {
        Some(v) => v,
        None => {
            return None;
        },
    };
    let pqn = match super::op::pow::checked_pow_i64(qn, idx) {
        Some(v) => v,
        None => {
            return None;
        },
    };
    let pqd = match super::op::pow::checked_pow_i64(qd, idx) {
        Some(v) => v,
        None => {
            return None;
        },
    };
    let l1 = match (pcn as i128).checked_mul(x as i128) {
        Some(v) => v,
        None => {
            return None;
        },
    };
    let lv = match l1.checked_mul(pqd as i128) {
        Some(v) => v,
        None => {
            return None;
        },
    };
    let rv = match (pqn as i128).checked_mul(pcd as i128) {
        Some(v) => v,
        None => {
            return None;
        },
    };
    let o = if lv < rv {
        Ordering::Less
    } else if lv == rv {
        Ordering::Equal
    } else {
        Ordering::Greater
    };
    if idx % 2 == 1 {
        Some(o)
    } else if vs > 0 {
        Some(o)
    } else {
        Some(rev_ord(o))
    }
}

/// Compares two radicals of equal index.
pub open spec fn spec_cmp_radicals(a: Radical, b: Radical) -> Option<Ordering> {
    if a.index != b.index {
        None
    } else {
        let idx = a.index;
        match (*a.radicand, *b.radicand) {
            (Number::Int(x1), Number::Int(x2)) => {
                if idx % 2 == 0 && (x1 < 0 || x2 < 0) {
                    None
                } else {
                    let vs1 = radical_val_sign(a.coefficient.n(), x1 as int);
                    let vs2 = radical_val_sign(b.coefficient.n(), x2 as int);
                    if vs1 > vs2 {
                        Some(Ordering::Greater)
                    } else if vs1 < vs2 {
                        Some(Ordering::Less)
                    } else if vs1 == 0 {
                        Some(Ordering::Equal)
                    } else {
                        let p1n = pow(a.coefficient.n(), idx as nat);
                        let p1d = pow(a.coefficient.d(), idx as nat);
                        let p2n = pow(b.coefficient.n(), idx as nat);
                        let p2d = pow(b.coefficient.d(), idx as nat);
                        if i64::MIN <= p1n <= i64::MAX && i64::MIN <= p1d <= i64::MAX && i64::MIN
                            <= p2n <= i64::MAX && i64::MIN <= p2d <= i64::MAX {
                            let lhs = match chk_mul(p1n, x1 as int) {
                                Some(v) => chk_mul(v, p2d),
                                None => None,
                            };
                            let rhs = match chk_mul(p2n, x2 as int) {
                                Some(v) => chk_mul(v, p1d),
                                None => None,
                            };
                            match (lhs, rhs) {
                                (Some(lv), Some(rv)) => {
                                    let o = ord_of_sign(if lv < rv {
                                        -1
                                    } else if lv == rv {
                                        0
                                    } else {
                                        1
                                    });
                                    if idx % 2 == 1 {
                                        Some(o)
                                    } else if vs1 > 0 {
                                        Some(o)
                                    } else {
                                        Some(spec_rev_ord(o))
                                    }
                                },
                                _ => None,
                            }
                        } else {
                            None
                        }
                    }
                }
            },
            _ => {
                if *a.radicand == *b.radicand {
                    Some(
                        ord_of_sign(
                            sign_of(
                                a.coefficient.n() * b.coefficient.d() - b.coefficient.n()
                                    * a.coefficient.d(),
                            ),
                        ),
                    )
                } else {
                    None
                }
            },
        }
    }
}

/// Compares two radicals.
pub fn cmp_radicals(a: &Radical, b: &Radical) -> (r: Option<Ordering>)
    ensures
        r == spec_cmp_radicals(*a, *b),
{
    if a.index != b.index {
        return None;
    }
    let idx = a.index;
    match (&*a.radicand, &*b.radicand) {
        (Number::Int(x1), Number::Int(x2)) => {
            if idx % 2 == 0 && (*x1 < 0 || *x2 < 0) {
                return None;
            }
            let c1n = a.coefficient.numer();
            let c2n = b.coefficient.numer();
            let vs1: i64 = if *x1 == 0 || c1n == 0 {
                0
            } else if (*x1 > 0) == (c1n > 0) {
                1
            } else {
                -1
            };
            let vs2: i64 = if *x2 == 0 || c2n == 0 {
                0
            } else if (*x2 > 0) == (c2n > 0) {
                1
            } else {
                -1
            };
            if vs1 > vs2 {
                return Some(Ordering::Greater);
            }
            if vs1 < vs2 {
                return Some(Ordering::Less);
            }
            if vs1 == 0 {
                return Some(Ordering::Equal);
            }
            let p1n = match super::op::pow::checked_pow_i64(c1n, idx) {
                Some(v) => v,
                None => {
                    return None;
                },
            };
            let p1d = match super::op::pow::checked_pow_i64(a.coefficient.denom(), idx) {
                Some(v) => v,
                None => {
                    return None;
                },
            };
            let p2n = match super::op::pow::checked_pow_i64(c2n, idx) {
                Some(v) => v,
                None => {
                    return None;
                },
            };
            let p2d = match super::op::pow::checked_pow_i64(b.coefficient.denom(), idx) {
                Some(v) => v,
                None => {
                    return None;
                },
            };
            let l1 = match (p1n as i128).checked_mul(*x1 as i128) {
                Some(v) => v,
                None => {
                    return None;
                },
            };
            let lv = match l1.checked_mul(p2d as i128) {
                Some(v) => v,
                None => {
                    return None;
                },
            };
            let r1 = match (p2n as i128).checked_mul(*x2 as i128) {
                Some(v) => v,
                None => {
                    return None;
                },
            };
            let rv = match r1.checked_mul(p1d as i128) {
                Some(v) => v,
                None => {
                    return None;
                },
            };
            let o = if lv < rv {
                Ordering::Less
            } else if lv == rv {
                Ordering::Equal
            } else {
                Ordering::Greater
            };
            if idx % 2 == 1 {
                Some(o)
            } else if vs1 > 0 {
                Some(o)
            } else {
                Some(rev_ord(o))
            }
        },
        _ => {
            if num_eq(&a.radicand, &b.radicand) {
                proof {
                    crate::rat::lemma_rat_range(a.coefficient);
                    crate::rat::lemma_rat_range(b.coefficient);
                    crate::rat::lemma_mul_bound_64(a.coefficient.n(), b.coefficient.d());
                    crate::rat::lemma_mul_bound_64(b.coefficient.n(), a.coefficient.d());
                }
                let lv: i128 = a.coefficient.numer() as i128 * b.coefficient.denom() as i128;
                let rv: i128 = b.coefficient.numer() as i128 * a.coefficient.denom() as i128;
                if lv < rv {
                    Some(Ordering::Less)
                } else if lv == rv {
                    Some(Ordering::Equal)
                } else {
                    Some(Ordering::Greater)
                }
            } else {
                None
            }
        },
    }
}

/// A coarse lower bracket numerator of a named constant, over one
/// hundred; small enough that its powers stay representable for the
/// indices that matter.  Each pair encloses the constant strictly.
pub open spec fn sym_lo_coarse(s: Symbol) -> int {
    match s {
        Symbol::Pi => 314,
        Symbol::E => 271,
        Symbol::Phi => 161,
        Symbol::Sqrt2 => 141,
    }
}

/// The matching coarse upper bracket numerator, over one hundred.
pub open spec fn sym_hi_coarse(s: Symbol) -> int {
    match s {
        Symbol::Pi => 315,
        Symbol::E => 272,
        Symbol::Phi => 162,
        Symbol::Sqrt2 => 142,
    }
}

/// The coarse bracket numerators of a named constant.
pub fn sym_coarse_bounds(s: Symbol) -> (r: (i64, i64))
    ensures
        r.0 as int == sym_lo_coarse(s),
        r.1 as int == sym_hi_coarse(s),
{
    match s {
        Symbol::Pi => (314, 315),
        Symbol::E => (271, 272),
        Symbol::Phi => (161, 162),
        Symbol::Sqrt2 => (141, 142),
    }
}

/// Compares a named constant with a radical over a whole-number
/// radicand by raising the radical and the constant's coarse bracket to
/// the radical's index.  Undecidable when the radical's value falls
/// inside the bracket or a power leaves the 64-bit range.
pub open spec fn spec_cmp_symbol_radical(s: Symbol, rad: Radical) -> Option<Ordering> {
    match *rad.radicand {
        Number::Int(x) => {
            if x < 0 && rad.index % 2 == 0 {
                None
            } else {
                let vs = radical_val_sign(rad.coefficient.n(), x as int);
                if vs <= 0 {
                    // every named constant is positive
                    Some(Ordering::Greater)
                } else {
                    let k = rad.index;
                    let pcn = pow(rad.coefficient.n(), k as nat);
                    let pcd = pow(rad.coefficient.d(), k as nat);
                    let plo = pow(sym_lo_coarse(s), k as nat);
                    let phi = pow(sym_hi_coarse(s), k as nat);
                    let p100 = pow(100, k as nat);
                    if i64::MIN <= pcn <= i64::MAX && 1 <= pcd <= i64::MAX && i64::MIN <= plo
                        <= i64::MAX && i64::MIN <= phi <= i64::MAX && i64::MIN <= p100
                        <= i64::MAX {
                        let lhs = match chk_mul(pcn, x as int) {
                            Some(v) => chk_mul(v, p100),
                            None => None,
                        };
                        match (lhs, chk_mul(plo, pcd), chk_mul(phi, pcd)) {
                            (Some(lv), Some(lo_side), Some(hi_side)) => {
                                if lv <= lo_side {
                                    Some(Ordering::Greater)
                                } else if lv >= hi_side {
                                    Some(Ordering::Less)
                                } else {
                                    None
                                }
                            },
                            _ => None,
                        }
                    } else {
                        None
                    }
                }
            }
        },
        _ => None,
    }
}

/// Compares a named constant with a radical.
pub fn cmp_symbol_radical(s: Symbol, rad: &Radical) -> (r: Option<Ordering>)
    ensures
        r == spec_cmp_symbol_radical(s, *rad),
{
    match &*rad.radicand {
        Number::Int(x) => {
            if *x < 0 && rad.index % 2 == 0 {
                return None;
            }
            let cn = rad.coefficient.numer();
            let vs: i64 = if *x == 0 || cn == 0 {
                0
            } else if (*x > 0) == (cn > 0) {
                1
            } else {
                -1
            };
            if vs <= 0 {
                return Some(Ordering::Greater);
            }
            let k = rad.index;
            let pcn = match super::op::pow::checked_pow_i64(cn, k) {
                Some(v) => v,
                None => {
                    return None;
                },
            };
            let pcd = match super::op::pow::checked_pow_i64(rad.coefficient.denom(), k) {
                Some(v) => v,
                None => {
                    return None;
                },
            };
            if pcd < 1 {
                return None;
            }
            let bounds = sym_coarse_bounds(s);
            let plo = match super::op::pow::checked_pow_i64(bounds.0, k) {
                Some(v) => v,
                None => {
                    return None;
                },
            };
            let phi = match super::op::pow::checked_pow_i64(bounds.1, k) {
                Some(v) => v,
                None => {
                    return None;
                },
            };
            let p100 = match super::op::pow::checked_pow_i64(100, k) {
                Some(v) => v,
                None => {
                    return None;
                },
            };
            let l1 = match (pcn as i128).checked_mul(*x as i128) {
                Some(v) => v,
                None => {
                    return None;
                },
            };
            let lv = match l1.checked_mul(p100 as i128) {
                Some(v) => v,
                None => {
                    return None;
                },
            };
            let lo_side = match (plo as i128).checked_mul(pcd as i128) {
                Some(v) => v,
                None => {
                    return None;
                },
            };
            let hi_side = match (phi as i128).checked_mul(pcd as i128) {
                Some(v) => v,
                None => {
                    return None;
                },
            };
            if lv <= lo_side {
                Some(Ordering::Greater)
            } else if lv >= hi_side {
                Some(Ordering::Less)
            } else {
                None
            }
        },
        _ => None,
    }
}

/// Kind order used only to orient the symmetric closure of the
/// comparison.
pub open spec fn cmp_rank(n: Number) -> int {
    match n {
        Number::Int(_) => 0,
        Number::Rational(_) => 1,
        Number::Radical(_) => 2,
        Number::Symbolic(_) => 3,
        Number::Symbol(_) => 4,
    }
}

impl Number {
    /// What comparing two exact values yields where an exact path
    /// exists; nothing where only an approximate comparison could
    /// decide.
    pub open spec fn spec_try_compare(a: Number, b: Number) -> Option<Ordering>
        decreases (if cmp_rank(a) < cmp_rank(b) {
            1int
        } else {
            0int
        }),
    {
        if a == b {
            // structurally equal operands denote one value
            Some(Ordering::Equal)
        } else {
            Self::spec_try_compare_kinds(a, b)
        }
    }

    /// The kind-pair dispatch behind the comparison.
    pub open spec fn spec_try_compare_kinds(a: Number, b: Number) -> Option<Ordering>
        decreases (if cmp_rank(a) < cmp_rank(b) {
            1int
        } else {
            0int
        }),
    {
        match (a, b) {
            (Number::Int(x), Number::Int(y)) => Some(ord_of_sign(x - y)),
            (Number::Rational(p), Number::Int(y)) => Some(ord_of_sign(p.n() - y * p.d())),
            (Number::Rational(p), Number::Rational(q)) => Some(
                ord_of_sign(p.n() * q.d() - q.n() * p.d()),
            ),
            (Number::Symbol(s), Number::Int(y)) => {
                if y == i64::MIN {
                    None
                } else {
                    spec_sign_linear(s, 1, 1, -(y as int), 1)
                }
            },
            (Number::Symbol(s), Number::Rational(q)) => {
                if q.n() == i64::MIN {
                    None
                } else {
                    spec_sign_linear(s, 1, 1, -q.n(), q.d())
                }
            },
            (Number::Symbol(s), Number::Symbol(t)) => Some(ord_of_sign(sym_rank(s) - sym_rank(t))),
            (Number::Symbol(s), Number::Symbolic(t)) => {
                if t.symbol == s {
                    let cp = match t.coeff {
                        None => Some((1int, 1int)),
                        Some(c) => spec_as_pair(c),
                    };
                    let kp = match t.constant {
                        None => Some((0int, 1int)),
                        Some(k) => spec_as_pair(k),
                    };
                    match (cp, kp) {
                        (Some(c), Some(k)) => match (spec_pair_sub(1, 1, c.0, c.1), spec_pair_sub(
                            0,
                            1,
                            k.0,
                            k.1,
                        )) {
                            (Some(dc), Some(dk)) => spec_sign_linear(s, dc.0, dc.1, dk.0, dk.1),
                            _ => None,
                        },
                        _ => None,
                    }
                } else {
                    None
                }
            },
            (Number::Symbol(s), Number::Radical(r)) => spec_cmp_symbol_radical(s, *r),
            (Number::Symbolic(l), Number::Int(_)) | (Number::Symbolic(l), Number::Rational(_)) => {
                let cp = match l.coeff {
                    None => Some((1int, 1int)),
                    Some(c) => spec_as_pair(c),
                };
                let kp = match l.constant {
                    None => Some((0int, 1int)),
                    Some(k) => spec_as_pair(k),
                };
                let bp = spec_as_pair(b);
                match (cp, kp, bp) {
                    (Some(c), Some(k), Some(q)) => match spec_pair_sub(k.0, k.1, q.0, q.1) {
                        Some(dk) => spec_sign_linear(l.symbol, c.0, c.1, dk.0, dk.1),
                        None => None,
                    },
                    _ => None,
                }
            },
            (Number::Symbolic(l), Number::Symbolic(r)) => {
                if l.symbol == r.symbol {
                    let cl = match l.coeff {
                        None => Some((1int, 1int)),
                        Some(c) => spec_as_pair(c),
                    };
                    let kl = match l.constant {
                        None => Some((0int, 1int)),
                        Some(k) => spec_as_pair(k),
                    };
                    let cr = match r.coeff {
                        None => Some((1int, 1int)),
                        Some(c) => spec_as_pair(c),
                    };
                    let kr = match r.constant {
                        None => Some((0int, 1int)),
                        Some(k) => spec_as_pair(k),
                    };
                    match (cl, kl, cr, kr) {
                        (Some(c1), Some(k1), Some(c2), Some(k2)) => {
                            match (spec_pair_sub(c1.0, c1.1, c2.0, c2.1), spec_pair_sub(
                                k1.0,
                                k1.1,
                                k2.0,
                                k2.1,
                            )) {
                                (Some(dc), Some(dk)) => spec_sign_linear(
                                    l.symbol,
                                    dc.0,
                                    dc.1,
                                    dk.0,
                                    dk.1,
                                ),
                                _ => None,
                            }
                        },
                        _ => None,
                    }
                } else {
                    None
                }
            },
            (Number::Symbolic(_), Number::Radical(_)) => None,
            (Number::Radical(r), Number::Int(y)) => {
                match *r.radicand {
                    Number::Int(x) => spec_cmp_radical_rat(r.coefficient, r.index, x as int, y as int, 1),
                    _ => None,
                }
            },
            (Number::Radical(r), Number::Rational(q)) => {
                match *r.radicand {
                    Number::Int(x) => spec_cmp_radical_rat(
                        r.coefficient,
                        r.index,
                        x as int,
                        q.n(),
                        q.d(),
                    ),
                    _ => None,
                }
            },
            (Number::Radical(r1), Number::Radical(r2)) => spec_cmp_radicals(*r1, *r2),
            _ => match Self::spec_try_compare_kinds(b, a) {
                Some(o) => Some(spec_rev_ord(o)),
                None => None,
            },
        }
    }

    /// Compares two exact values where an exact path exists.
    pub fn try_compare(&self, other: &Self) -> (r: Option<Ordering>)
        ensures
            r == Self::spec_try_compare(*self, *other),
    {
        if num_eq(self, other) {
            return Some(Ordering::Equal);
        }
        Self::try_compare_kinds(self, other)
    }

    /// Dispatches the comparison by the pair of kinds.
    fn try_compare_kinds(&self, other: &Self) -> (r: Option<Ordering>)
        ensures
            r == Self::spec_try_compare_kinds(*self, *other),
        decreases (if cmp_rank(*self) < cmp_rank(*other) {
            1int
        } else {
            0int
        }),
    {
        match (self, other) {
            (Number::Int(x), Number::Int(y)) => {
                Some(
                    if x < y {
                        Ordering::Less
                    } else if x == y {
                        Ordering::Equal
                    } else {
                        Ordering::Greater
                    },
                )
            },
            (Number::Rational(p), Number::Int(y)) => {
                proof {
                    crate::rat::lemma_rat_range(*p);
                    crate::rat::lemma_mul_bound_64(*y as int, p.d());
                }
                let lhs: i128 = p.numer() as i128;
                let rhs: i128 = *y as i128 * p.denom() as i128;
                Some(
                    if lhs < rhs {
                        Ordering::Less
                    } else if lhs == rhs {
                        Ordering::Equal
                    } else {
                        Ordering::Greater
                    },
                )
            },
            (Number::Rational(p), Number::Rational(q)) => {
                proof {
                    crate::rat::lemma_rat_range(*p);
                    crate::rat::lemma_rat_range(*q);
                    crate::rat::lemma_mul_bound_64(p.n(), q.d());
                    crate::rat::lemma_mul_bound_64(q.n(), p.d());
                }
                let lhs: i128 = p.numer() as i128 * q.denom() as i128;
                let rhs: i128 = q.numer() as i128 * p.denom() as i128;
                Some(
                    if lhs < rhs {
                        Ordering::Less
                    } else if lhs == rhs {
                        Ordering::Equal
                    } else {
                        Ordering::Greater
                    },
                )
            },
            (Number::Symbol(s), Number::Int(y)) => {
                if *y == i64::MIN {
                    None
                } else {
                    sign_linear(*s, 1, 1, -*y, 1)
                }
            },
            (Number::Symbol(s), Number::Rational(q)) => {
                if q.numer() == i64::MIN {
                    None
                } else {
                    sign_linear(*s, 1, 1, -q.numer(), q.denom())
                }
            },
            (Number::Symbol(s), Number::Symbol(t)) => {
                let ra: i64 = match s {
                    Symbol::Sqrt2 => 0,
                    Symbol::Phi => 1,
                    Symbol::E => 2,
                    Symbol::Pi => 3,
                };
                let rb: i64 = match t {
                    Symbol::Sqrt2 => 0,
                    Symbol::Phi => 1,
                    Symbol::E => 2,
                    Symbol::Pi => 3,
                };
                Some(
                    if ra < rb {
                        Ordering::Less
                    } else if ra == rb {
                        Ordering::Equal
                    } else {
                        Ordering::Greater
                    },
                )
            },
            (Number::Symbol(s), Number::Symbolic(t)) => {
                if t.symbol == *s {
                    let cp: Option<(i64, i64)> = match &t.coeff {
                        None => Some((1, 1)),
                        Some(c) => as_pair(c),
                    };
                    let kp: Option<(i64, i64)> = match &t.constant {
                        None => Some((0, 1)),
                        Some(k) => as_pair(k),
                    };
                    match (cp, kp) {
                        (Some(c), Some(k)) => {
                            match (pair_sub(1, 1, c.0, c.1), pair_sub(0, 1, k.0, k.1)) {
                                (Some(dc), Some(dk)) => sign_linear(*s, dc.0, dc.1, dk.0, dk.1),
                                _ => None,
                            }
                        },
                        _ => None,
                    }
                } else {
                    None
                }
            },
            (Number::Symbol(s), Number::Radical(r)) => cmp_symbol_radical(*s, r),
            (Number::Symbolic(l), Number::Int(_)) | (Number::Symbolic(l), Number::Rational(_)) => {
                let cp: Option<(i64, i64)> = match &l.coeff {
                    None => Some((1, 1)),
                    Some(c) => as_pair(c),
                };
                let kp: Option<(i64, i64)> = match &l.constant {
                    None => Some((0, 1)),
                    Some(k) => as_pair(k),
                };
                let bp = as_pair(other);
                match (cp, kp, bp) {
                    (Some(c), Some(k), Some(q)) => match pair_sub(k.0, k.1, q.0, q.1) {
                        Some(dk) => sign_linear(l.symbol, c.0, c.1, dk.0, dk.1),
                        None => None,
                    },
                    _ => None,
                }
            },
            (Number::Symbolic(l), Number::Symbolic(r)) => {
                if l.symbol == r.symbol {
                    let cl: Option<(i64, i64)> = match &l.coeff {
                        None => Some((1, 1)),
                        Some(c) => as_pair(c),
                    };
                    let kl: Option<(i64, i64)> = match &l.constant {
                        None => Some((0, 1)),
                        Some(k) => as_pair(k),
                    };
                    let cr: Option<(i64, i64)> = match &r.coeff {
                        None => Some((1, 1)),
                        Some(c) => as_pair(c),
                    };
                    let kr: Option<(i64, i64)> = match &r.constant {
                        None => Some((0, 1)),
                        Some(k) => as_pair(k),
                    };
                    match (cl, kl, cr, kr) {
                        (Some(c1), Some(k1), Some(c2), Some(k2)) => {
                            match (pair_sub(c1.0, c1.1, c2.0, c2.1), pair_sub(
                                k1.0,
                                k1.1,
                                k2.0,
                                k2.1,
                            )) {
                                (Some(dc), Some(dk)) => sign_linear(
                                    l.symbol,
                                    dc.0,
                                    dc.1,
                                    dk.0,
                                    dk.1,
                                ),
                                _ => None,
                            }
                        },
                        _ => None,
                    }
                } else {
                    None
                }
            },
            (Number::Symbolic(_), Number::Radical(_)) => None,
            (Number::Radical(r), Number::Int(y)) => {
                match &*r.radicand {
                    Number::Int(x) => cmp_radical_rat(r.coefficient, r.index, *x, *y, 1),
                    _ => None,
                }
            },
            (Number::Radical(r), Number::Rational(q)) => {
                match &*r.radicand {
                    Number::Int(x) => cmp_radical_rat(r.coefficient, r.index, *x, q.numer(), q.denom()),
                    _ => None,
                }
            },
            (Number::Radical(r1), Number::Radical(r2)) => cmp_radicals(r1, r2),
            _ => {
                match Self::try_compare_kinds(other, self) {
                    Some(o) => Some(rev_ord(o)),
                    None => None,
                }
            },
        }
    }

    /// The comparison is consistent with equality: a value always
    /// compares equal to itself (and to any structurally equal value).
    pub proof fn lemma_compare_reflexive(a: Number, b: Number)
        requires
            a == b,
        ensures
            Number::spec_try_compare(a, b) == Some(Ordering::Equal),
    {
    }
}

impl Number {
    /// The comparison agrees with value equality on whole numbers and
    /// fractions: it reports equality exactly when the two reduced
    /// fractions denote the same value, and each strict direction
    /// exactly when the cross products order that way.
    pub proof fn lemma_compare_consistent_with_value(p: Rat, q: Rat)
        requires
            p.wf(),
            q.wf(),
        ensures
            (Number::spec_try_compare(Number::Rational(p), Number::Rational(q)) == Some(
                Ordering::Equal,
            )) <==> (p.n() * q.d() == q.n() * p.d()),
            (Number::spec_try_compare(Number::Rational(p), Number::Rational(q)) == Some(
                Ordering::Less,
            )) <==> (p.n() * q.d() < q.n() * p.d()),
            (Number::spec_try_compare(Number::Rational(p), Number::Rational(q)) == Some(
                Ordering::Greater,
            )) <==> (p.n() * q.d() > q.n() * p.d()),
    {
    }

    /// Radicals over one and the same root compare by their
    /// coefficients alone: for equal indices and equal radicands that
    /// are not whole numbers, the exact path orders the two values as
    /// the cross products of the coefficients order.
    pub proof fn lemma_radical_compare_by_coefficient(a: Radical, b: Radical)
        requires
            a.index == b.index,
            *a.radicand == *b.radicand,
            !(*a.radicand matches Number::Int(_)),
        ensures
            spec_cmp_radicals(a, b) == Some(
                ord_of_sign(
                    sign_of(
                        a.coefficient.n() * b.coefficient.d() - b.coefficient.n()
                            * a.coefficient.d(),
                    ),
                ),
            ),
    {
    }
}

impl PartialOrd for Number {
    fn partial_cmp(&self, other: &Self) -> (r: Option<Ordering>) {
        self.try_compare(other)
    }
}

impl vstd::std_specs::cmp::PartialOrdSpecImpl for Number {
    open spec fn obeys_partial_cmp_spec() -> bool {
        true
    }

    open spec fn partial_cmp_spec(&self, other: &Number) -> Option<Ordering> {
        Number::spec_try_compare(*self, *other)
    }
}

} // verus!
