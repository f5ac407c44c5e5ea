//! symmetrica: exact symbolic and number-theoretic computation with verified contracts.
use vstd::prelude::*;

pub mod arith;
pub mod assumptions;
pub mod calculus;
pub mod canonical;
pub mod evalf;
pub mod algebraic;
pub mod expr_core;
pub mod grobner;
pub mod io;
pub mod matrix;
pub mod polysolve;
pub mod number_theory;
pub mod text;

verus! {

} // verus!
