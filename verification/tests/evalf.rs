use symmetrica::evalf::EvalError;

#[test]
fn eval_error_display() {
    let err1 = EvalError::UnboundVariable("x".to_string());
    assert_eq!(err1.to_string(), "unbound variable: x");

    let err2 = EvalError::UnknownFunction("foo".to_string());
    assert_eq!(err2.to_string(), "unknown function: foo");

    let err3 = EvalError::DomainError("test message".to_string());
    assert_eq!(err3.to_string(), "domain error: test message");

    let err4 = EvalError::NonFinite;
    assert_eq!(err4.to_string(), "result is non-finite");
}
