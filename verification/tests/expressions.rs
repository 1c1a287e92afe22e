use skvs::ast::Expr;
use skvs::double::Real;
use skvs::expr::{eval, sql_like_match, EvalCtx};
use skvs::schema::Value;
use skvs::sql::parser::parse_expression;

fn parse_expr(s: &str) -> Expr {
    parse_expression(s).unwrap()
}

fn number(x: f64) -> Value {
    Value::Real(Real { bits: x.to_bits() })
}

#[test]
fn arithmetic_promotes_to_real_only_when_needed() {
    let mut idx = 0usize;
    let ctx = EvalCtx::no_row();
    assert_eq!(eval(&parse_expr("2 + 3"), &ctx, &[], &mut idx), Value::Integer(5));
    assert_eq!(eval(&parse_expr("1 / 2"), &ctx, &[], &mut idx), number(0.5));
}

#[test]
fn like_wildcards() {
    assert!(sql_like_match("hello world", "hello%", false));
    assert!(sql_like_match("hello", "h_llo", false));
    assert!(!sql_like_match("hello", "world", false));
}

#[test]
fn case_expr() {
    let mut idx = 0usize;
    let ctx = EvalCtx::no_row();
    let v = eval(&parse_expr("CASE WHEN 1 = 2 THEN 'a' ELSE 'b' END"), &ctx, &[], &mut idx);
    assert_eq!(v, Value::Text("b".into()));
}
