//! Exact symbolic arithmetic: real numbers as terms built from rational
//! coefficients, named constants, sums, rational-power products and
//! elementary functions, kept in a canonical form so that equal handles
//! mean equal expressions.
//!
//! * [`frac`] holds the rationals, with not-a-number and the infinities.
//! * [`term`] holds the mathematical model of an expression, a finite tree,
//!   and the canonical order of such trees.
//! * [`expr_field`] holds the handles, the arena that stores every node once,
//!   the simplification of sums and products, the operators, and the textual
//!   notation.
//! * [`io`] holds the scanner that the parser reads with.
//! * [`structs`] holds an append-only array.
//!
//! Every operation is stated over the terms that handles stand for: the
//! arena says which term a handle stands for, and an operation says which
//! term its result stands for.
pub mod frac;
pub mod term;
pub mod expr_field;
pub mod io_traits;
pub mod io;
pub mod structs;
