//! The arithmetic operators.
pub mod add;
pub mod mul;
pub mod inv;
pub mod mul_laws;
pub mod power;
