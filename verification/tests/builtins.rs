use lisp_rs::eval::builtins::{add, def, eq, gt, lt, mul};
use lisp_rs::eval::env::Env;
use lisp_rs::eval::error::Error;
use lisp_rs::eval::value::{Builtin, Value};
use lisp_rs::integer::Integer;

fn num(value: i64) -> Value {
    Value::Int(Integer::from_i64(value))
}

fn text(value: &str) -> Value {
    Value::Str(value.to_string())
}

fn symbol(value: &str) -> Value {
    Value::Symbol(value.to_string())
}

#[test]
fn add_sums_integers() {
    let mut env = Env::default();
    assert_eq!(add(vec![num(1), num(2), num(3), num(4), num(5)], &mut env), Ok(num(15)));
    assert_eq!(add(vec![num(-7), num(7)], &mut env), Ok(num(0)));
    assert_eq!(add(vec![num(-7), num(-8)], &mut env), Ok(num(-15)));
    assert_eq!(
        add(vec![num(i64::MAX), num(i64::MAX)], &mut env),
        Ok(Value::Int(Integer { negative: false, limbs: vec![0xffff_fffe, 0xffff_ffff] }))
    );
    assert_eq!(
        add(vec![num(i64::MIN), num(i64::MIN)], &mut env),
        Ok(Value::Int(Integer { negative: true, limbs: vec![0, 0, 1] }))
    );
}

#[test]
fn add_concatenates_strings_in_order() {
    let mut env = Env::default();
    assert_eq!(add(vec![text("ab"), text(""), text("c")], &mut env), Ok(text("abc")));
    assert_eq!(add(vec![text("b"), text("a")], &mut env), Ok(text("ba")));
}

#[test]
fn add_checks_arity_before_types() {
    let mut env = Env::default();
    assert_eq!(add(vec![], &mut env), Err(Error::WrongNumberOfArguments));
    assert_eq!(add(vec![Value::Nil], &mut env), Err(Error::WrongNumberOfArguments));
    assert_eq!(add(vec![Value::Nil, Value::Nil], &mut env), Err(Error::TypeError));
}

#[test]
fn mul_multiplies_integers() {
    let mut env = Env::default();
    assert_eq!(mul(vec![num(2), num(3), num(7)], &mut env), Ok(num(42)));
    assert_eq!(mul(vec![num(-2), num(3)], &mut env), Ok(num(-6)));
    assert_eq!(mul(vec![num(-2), num(-3)], &mut env), Ok(num(6)));
    assert_eq!(mul(vec![num(5), num(0)], &mut env), Ok(num(0)));
    assert_eq!(
        mul(vec![num(1 << 40), num(1 << 40)], &mut env),
        Ok(Value::Int(Integer { negative: false, limbs: vec![0, 0, 1 << 16] }))
    );
}

#[test]
fn mul_repeats_a_string() {
    let mut env = Env::default();
    assert_eq!(mul(vec![text("ha"), num(2)], &mut env), Ok(text("haha")));
    assert_eq!(mul(vec![text("ha"), num(1)], &mut env), Ok(text("ha")));
    assert_eq!(mul(vec![text("ha"), num(0)], &mut env), Ok(text("")));
}

#[test]
fn mul_refuses_counts_it_cannot_hold() {
    let mut env = Env::default();
    assert_eq!(mul(vec![text("ha"), num(-1)], &mut env), Err(Error::InternalError));
    let huge = Value::Int(Integer { negative: false, limbs: vec![0, 0, 0, 0, 1] });
    assert_eq!(mul(vec![text("ha"), huge], &mut env), Err(Error::InternalError));
    assert_eq!(mul(vec![text("ha"), num(i64::MAX)], &mut env), Err(Error::InternalError));
    let huge = Value::Int(Integer { negative: false, limbs: vec![0, 0, 0, 0, 1] });
    assert_eq!(mul(vec![text(""), huge], &mut env), Err(Error::InternalError));
}

#[test]
fn mul_takes_the_string_first_only() {
    let mut env = Env::default();
    assert_eq!(mul(vec![num(2), text("ha")], &mut env), Err(Error::TypeError));
    assert_eq!(mul(vec![text("ha"), num(2), num(2)], &mut env), Err(Error::TypeError));
    assert_eq!(mul(vec![text("ha"), text("ha")], &mut env), Err(Error::TypeError));
    assert_eq!(mul(vec![text("ha")], &mut env), Err(Error::WrongNumberOfArguments));
}

#[test]
fn eq_compares_by_value() {
    let mut env = Env::default();
    assert_eq!(eq(vec![num(3), num(3), num(3)], &mut env), Ok(Value::Bool(true)));
    assert_eq!(eq(vec![num(3), num(3), num(4)], &mut env), Ok(Value::Bool(false)));
    assert_eq!(eq(vec![num(3), num(-3)], &mut env), Ok(Value::Bool(false)));
    let padded = Value::Int(Integer { negative: false, limbs: vec![3, 0, 0] });
    assert_eq!(eq(vec![num(3), padded], &mut env), Ok(Value::Bool(true)));
    let zero = Value::Int(Integer { negative: true, limbs: vec![] });
    assert_eq!(eq(vec![num(0), zero], &mut env), Ok(Value::Bool(true)));
    assert_eq!(eq(vec![symbol("a"), symbol("a")], &mut env), Ok(Value::Bool(true)));
    assert_eq!(eq(vec![symbol("a"), text("a")], &mut env), Ok(Value::Bool(false)));
    assert_eq!(eq(vec![Value::Nil, Value::Nil], &mut env), Ok(Value::Bool(true)));
    assert_eq!(eq(vec![Value::Nil, Value::Absent], &mut env), Ok(Value::Bool(false)));
    assert_eq!(eq(vec![Value::Absent, Value::Absent], &mut env), Ok(Value::Bool(true)));
    assert_eq!(eq(vec![Value::Bool(true), Value::Bool(false)], &mut env), Ok(Value::Bool(false)));
    assert_eq!(eq(vec![num(1)], &mut env), Err(Error::WrongNumberOfArguments));
}

#[test]
fn functions_are_never_equal() {
    let mut env = Env::default();
    let plus = Value::Fun(Builtin::Add);
    assert_eq!(eq(vec![plus.clone(), plus.clone()], &mut env), Ok(Value::Bool(false)));
    assert_eq!(eq(vec![num(1), num(1), plus.clone()], &mut env), Ok(Value::Bool(false)));
    assert!(plus != plus.clone());
}

#[test]
fn gt_and_lt_order_integers_and_strings() {
    let mut env = Env::default();
    assert_eq!(gt(vec![num(2), num(1)], &mut env), Ok(Value::Bool(true)));
    assert_eq!(gt(vec![num(-2), num(1)], &mut env), Ok(Value::Bool(false)));
    assert_eq!(lt(vec![num(-2), num(1)], &mut env), Ok(Value::Bool(true)));
    assert_eq!(lt(vec![num(-2), num(-3)], &mut env), Ok(Value::Bool(false)));
    assert_eq!(lt(vec![num(5), num(5)], &mut env), Ok(Value::Bool(false)));
    assert_eq!(gt(vec![text("b"), text("a")], &mut env), Ok(Value::Bool(true)));
    assert_eq!(lt(vec![text("b"), text("a")], &mut env), Ok(Value::Bool(false)));
    assert_eq!(lt(vec![text("abc"), text("abd")], &mut env), Ok(Value::Bool(true)));
    assert_eq!(lt(vec![text("\u{ffff}"), text("\u{10000}")], &mut env), Ok(Value::Bool(true)));
    assert_eq!(gt(vec![num(2), text("a")], &mut env), Err(Error::TypeError));
    assert_eq!(lt(vec![Value::Bool(true), Value::Bool(false)], &mut env), Err(Error::TypeError));
    assert_eq!(gt(vec![num(2)], &mut env), Err(Error::WrongNumberOfArguments));
    assert_eq!(lt(vec![num(2), num(3), num(4)], &mut env), Err(Error::WrongNumberOfArguments));
}

#[test]
fn def_binds_in_the_environment() {
    let mut env = Env::default();
    assert_eq!(def(vec![symbol("a"), num(10)], &mut env), Ok(Value::Absent));
    assert_eq!(env.get_binding("a".to_string()), Some(&num(10)));
    assert_eq!(def(vec![symbol("a"), text("x")], &mut env), Ok(Value::Absent));
    assert_eq!(env.get_binding("a".to_string()), Some(&text("x")));
    assert_eq!(def(vec![text("a"), num(10)], &mut env), Err(Error::TypeError));
    assert_eq!(def(vec![symbol("a")], &mut env), Err(Error::WrongNumberOfArguments));
    assert_eq!(env.get_binding("a".to_string()), Some(&text("x")));
}

#[test]
fn call_dispatches_on_the_builtin() {
    let mut env = Env::default();
    assert_eq!(Builtin::Add.call(vec![num(1), num(2)], &mut env), Ok(num(3)));
    assert_eq!(Builtin::Mul.call(vec![num(4), num(2)], &mut env), Ok(num(8)));
    assert_eq!(Builtin::Equal.call(vec![num(4), num(2)], &mut env), Ok(Value::Bool(false)));
    assert_eq!(Builtin::Greater.call(vec![num(4), num(2)], &mut env), Ok(Value::Bool(true)));
    assert_eq!(Builtin::Less.call(vec![num(4), num(2)], &mut env), Ok(Value::Bool(false)));
    assert_eq!(Builtin::Def.call(vec![symbol("x"), Value::Nil], &mut env), Ok(Value::Absent));
    assert_eq!(env.get_binding("x".to_string()), Some(&Value::Nil));
}
