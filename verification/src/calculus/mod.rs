//! Calculus over expressions: constant evaluation and folding, power series and
//! Maclaurin expansions, and limits.
//!
//! The calculus-specific rewrites (`symbolic_simplify::apply_calculus_rules`), the shape
//! checks of ODE right-hand sides (`ode`) and the step of a definite integral that
//! follows its antiderivative (`definite::definite_from_antiderivative`) are here;
//! differentiation, integration, ODE solving and the general simplification pass that
//! runs before those rewrites are not: each of them rests on the simplifier and polynomial
//! crates of the wider workspace (`simplify`, `polys`, `pattern`, `special`), which this
//! crate does not have.
pub mod evaluate;
pub mod series;

pub use evaluate::{fold_constants, try_eval_constant};
pub use series::{limit_poly, maclaurin, LimitPoint, LimitResult, Series};

pub mod limit;
pub mod risch;
pub mod definite;
pub mod symbolic_simplify;
pub mod ode;
