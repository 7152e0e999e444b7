//! The tree walk: from an expression and an environment to a value.

use crate::ast::{all_well_formed, exprs_view, well_formed, Expr, ExprView, TopLevel};
use crate::ast::{lemma_list_view, lemma_well_formed_list};
use crate::eval::builtins::{builtin_scope, call_outcome};
use crate::eval::env::{lookup, Env, Scope};
use crate::eval::error::Error;
use crate::eval::value::{result_view, values_view, Value, ValueView};
use vstd::prelude::*;

verus! {

// -------------------------------------------------------------------------- //
// What evaluation computes                                                   //
// -------------------------------------------------------------------------- //

/// The value of `expr` in `env`, or the error that stops its evaluation, and
/// the environment that the evaluation leaves.
///
/// A literal is its own value, an identifier has the value it is bound to,
/// a quoted identifier is a symbol, and the empty list is nil. Of any other
/// list the elements are evaluated from left to right, up to the first that
/// fails; where the first is a function it is called with the others; a
/// single value that is no function is the value of its list.
pub open spec fn eval(expr: ExprView, env: Seq<Scope>) -> (Result<ValueView, Error>, Seq<Scope>)
    recommends
        well_formed(expr),
    decreases expr, 0nat,
{
    match expr {
        ExprView::Int(value) => (Ok(ValueView::Int(value)), env),
        ExprView::Str(text) => (Ok(ValueView::Str(text)), env),
        ExprView::Bool(value) => (Ok(ValueView::Bool(value)), env),
        ExprView::Ident(name) => match lookup(env, name) {
            Some(value) => (Ok(value), env),
            None => (Err(Error::UndefinedBinding), env),
        },
        ExprView::Quoted(inner) => match *inner {
            ExprView::Ident(name) => (Ok(ValueView::Symbol(name)), env),
            // A well-formed expression quotes nothing else.
            _ => arbitrary(),
        },
        ExprView::List(items) => if items.len() == 0 {
            (Ok(ValueView::Nil), env)
        } else {
            match eval_each(items, items.len(), env) {
                (Err(error), after) => (Err(error), after),
                (Ok(values), after) => match values[0] {
                    ValueView::Fun(builtin) => call_outcome(builtin, values.drop_first(), after),
                    first => if items.len() == 1 {
                        (Ok(first), after)
                    } else {
                        (Err(Error::CallingANonFunctionValue), after)
                    },
                },
            }
        },
    }
}

/// The values of the first `n` of `items`, evaluated from left to right, each
/// in the environment that the one before it left; or the first error among
/// them, with nothing evaluated after it.
pub open spec fn eval_each(items: Seq<ExprView>, n: nat, env: Seq<Scope>) -> (
    Result<Seq<ValueView>, Error>,
    Seq<Scope>,
)
    recommends
        n <= items.len(),
    decreases items, n,
{
    if n == 0 || n > items.len() {
        (Ok(Seq::empty()), env)
    } else {
        match eval_each(items, (n - 1) as nat, env) {
            (Err(error), after) => (Err(error), after),
            (Ok(values), after) => match eval(items[n - 1], after) {
                (Err(error), last) => (Err(error), last),
                (Ok(value), last) => (Ok(values.push(value)), last),
            },
        }
    }
}

/// The value of a program in `env` and the environment it leaves: the
/// expressions are evaluated in order, each in the environment that the one
/// before it left, up to the first that fails. That error is the result of
/// the program; where none fails, the value of the last expression is. An
/// empty program has no value.
pub open spec fn eval_program(program: Seq<ExprView>, env: Seq<Scope>) -> (
    Result<ValueView, Error>,
    Seq<Scope>,
)
    decreases program.len(),
{
    if program.len() == 0 {
        (Ok(ValueView::Absent), env)
    } else {
        match eval_program(program.drop_last(), env) {
            (Err(error), after) => (Err(error), after),
            (Ok(_), after) => eval(program.last(), after),
        }
    }
}

/// Once an expression of a program has failed, the ones after it are not
/// evaluated: the program fails as its first failing expression does.
pub proof fn lemma_eval_program_stops(program: Seq<ExprView>, failed: int, env: Seq<Scope>)
    requires
        0 <= failed <= program.len(),
        eval_program(program.take(failed), env).0 is Err,
    ensures
        eval_program(program, env) == eval_program(program.take(failed), env),
    decreases program.len(),
{
    if failed < program.len() {
        let front = program.drop_last();
        assert(front.take(failed) =~= program.take(failed));
        lemma_eval_program_stops(front, failed, env);
    } else {
        assert(program.take(failed) =~= program);
    }
}

/// A quoted identifier evaluates to its symbol: the name is not looked up,
/// bound or not, and the environment stays as it is.
pub proof fn lemma_quoted_is_symbol(name: Seq<char>, env: Seq<Scope>)
    ensures
        eval(ExprView::Quoted(Box::new(ExprView::Ident(name))), env) == (
            Ok::<ValueView, Error>(ValueView::Symbol(name)),
            env,
        ),
{
}

// -------------------------------------------------------------------------- //
// The evaluator                                                              //
// -------------------------------------------------------------------------- //

/// Evaluates `ast` in an environment that binds the builtins and nothing
/// else.
pub fn evaluate_toplevel(ast: TopLevel) -> (result: Result<Value, Error>)
    requires
        all_well_formed(ast@),
    ensures
        result_view(result) == eval_program(ast@, seq![builtin_scope()]).0,
{
    let mut env = Env::default();
    evaluate_toplevel_with_env(ast, &mut env)
}

/// Evaluates `ast` in `env`: the expressions in order, up to the first that
/// fails. The result is that error, or the value of the last expression; an
/// empty program has no value.
pub fn evaluate_toplevel_with_env(ast: TopLevel, env: &mut Env) -> (result: Result<Value, Error>)
    requires
        all_well_formed(ast@),
        old(env)@.len() > 0,
    ensures
        (result_view(result), final(env)@) == eval_program(ast@, old(env)@),
        final(env)@.len() == old(env)@.len(),
{
    let mut last = Value::Absent;
    let mut i: usize = 0;
    assert(ast@.take(0) =~= Seq::<ExprView>::empty());
    while i < ast.0.len()
        invariant
            i <= ast.0.len(),
            all_well_formed(ast@),
            env@.len() == old(env)@.len(),
            env@.len() > 0,
            (Ok::<ValueView, Error>(last@), env@) == eval_program(
                ast@.take(i as int),
                old(env)@,
            ),
        decreases ast.0.len() - i,
    {
        proof {
            assert(ast@.take(i + 1).drop_last() =~= ast@.take(i as int));
            assert(ast@.take(i + 1).last() == ast@[i as int]);
            assert(well_formed(ast@[i as int]));
        }
        match eval_expr(&ast.0[i], env) {
            Ok(value) => {
                last = value;
            },
            Err(error) => {
                proof {
                    lemma_eval_program_stops(ast@, i + 1, old(env)@);
                }
                return Err(error);
            },
        }
        i = i + 1;
    }
    assert(ast@.take(i as int) =~= ast@);
    Ok(last)
}

/// Evaluates one expression.
pub fn eval_expr(ast: &Expr, env: &mut Env) -> (result: Result<Value, Error>)
    requires
        well_formed(ast@),
        old(env)@.len() > 0,
    ensures
        (result_view(result), final(env)@) == eval(ast@, old(env)@),
        final(env)@.len() == old(env)@.len(),
    decreases ast, 1nat,
{
    match ast {
        Expr::List(body) => {
            proof {
                lemma_list_view(*body);
                lemma_well_formed_list(exprs_view(body@));
            }
            eval_list(body, env)
        },
        Expr::Ident(name) => lookup_ident(name.clone(), env),
        Expr::Int(value) => Ok(Value::Int(value.clone())),
        Expr::Str(value) => Ok(Value::Str(value.clone())),
        Expr::Bool(value) => Ok(Value::Bool(*value)),
        Expr::Quoted(expr) => {
            proof {
                reveal_with_fuel(Expr::model, 2);
            }
            match &**expr {
                Expr::Ident(name) => Ok(Value::Symbol(name.clone())),
                _ => {
                    // Not reached: a well-formed expression quotes
                    // identifiers only.
                    assert(false);
                    Err(Error::InternalError)
                },
            }
        },
    }
}

/// Evaluates a list: its elements from left to right, then the call.
pub fn eval_list(body: &Vec<Expr>, env: &mut Env) -> (result: Result<Value, Error>)
    requires
        all_well_formed(exprs_view(body@)),
        old(env)@.len() > 0,
    ensures
        (result_view(result), final(env)@) == eval(
            ExprView::List(exprs_view(body@)),
            old(env)@,
        ),
        final(env)@.len() == old(env)@.len(),
    decreases body, 0nat,
{
    let n = body.len();
    if n == 0 {
        return Ok(Value::Nil);
    }
    let ghost items = exprs_view(body@);
    let mut values: Vec<Value> = Vec::new();
    let mut i: usize = 0;
    assert(values_view(values@) =~= Seq::<ValueView>::empty());
    while i < n
        invariant
            n == body.len(),
            i <= n,
            values.len() == i,
            items == exprs_view(body@),
            all_well_formed(items),
            env@.len() == old(env)@.len(),
            env@.len() > 0,
            (Ok::<Seq<ValueView>, Error>(values_view(values@)), env@) == eval_each(
                items,
                i as nat,
                old(env)@,
            ),
        decreases n - i,
    {
        assert(well_formed(items[i as int]));
        match eval_expr(&body[i], env) {
            Ok(value) => {
                proof {
                    assert(values_view(values@.push(value)) =~= values_view(values@).push(value@));
                }
                values.push(value);
            },
            Err(error) => {
                proof {
                    lemma_eval_each_stops(items, i as nat + 1, n as nat, old(env)@);
                }
                return Err(error);
            },
        }
        i = i + 1;
    }
    let ghost evaluated = values_view(values@);
    let rest = values.split_off(1);
    let first = values.pop().unwrap();
    assert(values_view(rest@) =~= evaluated.drop_first());
    if let Value::Fun(fun) = first {
        fun.call(rest, env)
    } else if n == 1 {
        Ok(first)
    } else {
        Err(Error::CallingANonFunctionValue)
    }
}

/// The value that `name` is bound to.
fn lookup_ident(name: String, env: &Env) -> (result: Result<Value, Error>)
    ensures
        result_view(result) == eval(ExprView::Ident(name@), env@).0,
{
    match env.get_binding(name) {
        Some(value) => Ok(value.clone()),
        None => Err(Error::UndefinedBinding),
    }
}

/// Once an expression has failed, the ones after it are not evaluated.
pub proof fn lemma_eval_each_stops(items: Seq<ExprView>, failed: nat, n: nat, env: Seq<Scope>)
    requires
        failed <= n <= items.len(),
        eval_each(items, failed, env).0 is Err,
    ensures
        eval_each(items, n, env) == eval_each(items, failed, env),
    decreases n,
{
    if failed < n {
        lemma_eval_each_stops(items, failed, (n - 1) as nat, env);
    }
}

} // verus!
