//! The arithmetic operators over `Number`, one module each.

pub mod add;
pub mod calculate_fn;
pub mod div;
pub mod mul;
pub mod neg;
pub mod pow;
pub mod root;
pub mod sub;
