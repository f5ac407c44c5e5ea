//! Errors of numeric evaluation of expressions.
use vstd::prelude::*;

verus! {

/// Why an expression could not be evaluated to a number.
#[derive(Debug, Clone, PartialEq)]
pub enum EvalError {
    /// A symbol with no value bound to it.
    UnboundVariable(String),
    /// A function with no numeric meaning.
    UnknownFunction(String),
    /// An argument outside the function's domain (such as the logarithm of a negative number).
    DomainError(String),
    /// The result is infinite or not a number.
    NonFinite,
}

/// The message of an evaluation error.
pub open spec fn eval_error_text(e: EvalError) -> Seq<char> {
    match e {
        EvalError::UnboundVariable(name) => "unbound variable: "@ + name@,
        EvalError::UnknownFunction(name) => "unknown function: "@ + name@,
        EvalError::DomainError(msg) => "domain error: "@ + msg@,
        EvalError::NonFinite => "result is non-finite"@,
    }
}

impl EvalError {
    /// The message of the error.
    pub fn to_string(&self) -> (s: String)
        ensures
            s@ == eval_error_text(*self),
    {
        match self {
            EvalError::UnboundVariable(name) => {
                let mut s = String::from_str("unbound variable: ");
                s.append(name.as_str());
                s
            },
            EvalError::UnknownFunction(name) => {
                let mut s = String::from_str("unknown function: ");
                s.append(name.as_str());
                s
            },
            EvalError::DomainError(msg) => {
                let mut s = String::from_str("domain error: ");
                s.append(msg.as_str());
                s
            },
            EvalError::NonFinite => String::from_str("result is non-finite"),
        }
    }
}

} // verus!
