//! An exact-value arithmetic engine: integers, reduced rationals, radicals,
//! named constants and linear symbolic terms, combined by operators that
//! keep results exact wherever an exact form exists and report when a
//! caller has to fall back to an approximate (floating-point) evaluation.

pub mod eval;
pub mod parser;
pub mod rat;
