use symmetrica::assumptions::{Context, Prop, Truth};

#[test]
fn assume_and_query() {
    let mut ctx = Context::new();
    assert!(matches!(ctx.has("x", Prop::Nonzero), Truth::Unknown));
    ctx.assume_prop("x", Prop::Nonzero);
    assert!(matches!(ctx.has("x", Prop::Nonzero), Truth::True));
    assert!(matches!(ctx.has("x", Prop::Positive), Truth::Unknown));
}

#[test]
fn assumptions_accumulate_per_symbol() {
    let mut ctx = Context::default();
    ctx.assume_prop("x", Prop::Real);
    ctx.assume_prop("y", Prop::Positive);
    ctx.assume_prop("x", Prop::Integer);
    assert_eq!(ctx.has("x", Prop::Real), Truth::True);
    assert_eq!(ctx.has("x", Prop::Integer), Truth::True);
    assert_eq!(ctx.has("x", Prop::Positive), Truth::Unknown);
    assert_eq!(ctx.has("y", Prop::Positive), Truth::True);
    assert_eq!(ctx.has("z", Prop::Real), Truth::Unknown);
}

#[test]
fn prop_assume_positive_implies_real() {
    let mut ctx = Context::new();
    ctx.assume_prop("z1", Prop::Positive);
    assert_eq!(ctx.has("z1", Prop::Positive), Truth::True);
    assert_eq!(ctx.has("z1", Prop::Real), Truth::True);
    assert_eq!(ctx.has("w", Prop::Real), Truth::Unknown);
}

#[test]
fn prop_positive_implies_nonzero() {
    let mut ctx = Context::new();
    ctx.assume_prop("b1", Prop::Positive);
    assert_eq!(ctx.has("b1", Prop::Nonzero), Truth::True);
    assert_eq!(ctx.has("b1", Prop::Integer), Truth::Unknown);
}

#[test]
fn integer_implies_nothing_more() {
    let mut ctx = Context::new();
    ctx.assume_prop("k", Prop::Integer);
    assert_eq!(ctx.has("k", Prop::Integer), Truth::True);
    assert_eq!(ctx.has("k", Prop::Real), Truth::Unknown);
    assert_eq!(ctx.has("k", Prop::Nonzero), Truth::Unknown);
    assert_eq!(ctx.has("k", Prop::Positive), Truth::Unknown);
}
