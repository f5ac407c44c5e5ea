//! Printers and parsers for expressions: LaTeX, S-expressions and JSON.
pub mod json;
pub mod latex;

pub use json::{from_json, to_json};
pub use latex::to_latex;
pub mod sexpr;

pub use sexpr::{from_sexpr, to_sexpr};
