//! Runtime values.

use crate::eval::error::Error;
use crate::integer::Integer;
use vstd::prelude::*;
use vstd::std_specs::cmp::PartialEqSpecImpl;

verus! {

/// The functions that the language provides.
#[derive(Clone, Copy, Debug, PartialEq, Eq)]
pub enum Builtin {
    /// `+`
    Add,
    /// `*`
    Mul,
    /// `=`
    Equal,
    /// `>`
    Greater,
    /// `<`
    Less,
    /// `def`
    Def,
}

/// What an expression evaluates to.
#[derive(Debug)]
pub enum Value {
    Int(Integer),
    Str(String),
    Bool(bool),
    /// A builtin function.
    Fun(Builtin),
    /// The value of the empty list.
    Nil,
    /// A quoted identifier: a name as data.
    Symbol(String),
    /// The value of a definition and of an empty program.
    Absent,
}

/// The mathematical value of a [`Value`].
pub enum ValueView {
    Int(int),
    Str(Seq<char>),
    Bool(bool),
    Fun(Builtin),
    Nil,
    Symbol(Seq<char>),
    Absent,
}

impl View for Value {
    type V = ValueView;

    open spec fn view(&self) -> ValueView {
        match self {
            Value::Int(value) => ValueView::Int(value@),
            Value::Str(text) => ValueView::Str(text@),
            Value::Bool(value) => ValueView::Bool(*value),
            Value::Fun(builtin) => ValueView::Fun(*builtin),
            Value::Nil => ValueView::Nil,
            Value::Symbol(name) => ValueView::Symbol(name@),
            Value::Absent => ValueView::Absent,
        }
    }
}

/// The mathematical values of a run of values.
pub open spec fn values_view(values: Seq<Value>) -> Seq<ValueView> {
    Seq::new(values.len(), |i: int| values[i]@)
}

/// The mathematical value of what evaluation returns.
pub open spec fn result_view(result: Result<Value, Error>) -> Result<ValueView, Error> {
    match result {
        Ok(value) => Ok(value@),
        Err(error) => Err(error),
    }
}

/// Whether two values are equal: they are of one kind and hold the same
/// number, text, truth value or name. A function is equal to nothing, not
/// even to itself.
pub open spec fn values_equal(a: ValueView, b: ValueView) -> bool {
    match (a, b) {
        (ValueView::Int(x), ValueView::Int(y)) => x == y,
        (ValueView::Str(x), ValueView::Str(y)) => x == y,
        (ValueView::Bool(x), ValueView::Bool(y)) => x == y,
        (ValueView::Symbol(x), ValueView::Symbol(y)) => x == y,
        (ValueView::Nil, ValueView::Nil) => true,
        (ValueView::Absent, ValueView::Absent) => true,
        _ => false,
    }
}

impl Clone for Value {
    fn clone(&self) -> (copy: Self)
        ensures
            copy@ == self@,
    {
        match self {
            Value::Int(value) => Value::Int(value.clone()),
            Value::Str(text) => Value::Str(text.clone()),
            Value::Bool(value) => Value::Bool(*value),
            Value::Fun(builtin) => Value::Fun(*builtin),
            Value::Nil => Value::Nil,
            Value::Symbol(name) => Value::Symbol(name.clone()),
            Value::Absent => Value::Absent,
        }
    }
}

impl PartialEq for Value {
    fn eq(&self, other: &Self) -> (same: bool) {
        match (self, other) {
            (Value::Int(lhs), Value::Int(rhs)) => *lhs == *rhs,
            (Value::Str(lhs), Value::Str(rhs)) => *lhs == *rhs,
            (Value::Bool(lhs), Value::Bool(rhs)) => *lhs == *rhs,
            (Value::Symbol(lhs), Value::Symbol(rhs)) => *lhs == *rhs,
            (Value::Nil, Value::Nil) => true,
            (Value::Absent, Value::Absent) => true,
            _ => false,
        }
    }
}

impl PartialEqSpecImpl for Value {
    open spec fn obeys_eq_spec() -> bool {
        true
    }

    open spec fn eq_spec(&self, other: &Self) -> bool {
        values_equal(self@, other@)
    }
}

} // verus!
