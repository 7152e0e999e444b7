//! The builtin functions: arithmetic, text, comparison and definition.

use crate::eval::env::{bind, scope_view, Env, Scope};
use crate::eval::error::Error;
use crate::eval::value::{result_view, values_equal, values_view, Builtin, Value, ValueView};
use crate::integer::{big_less, big_product, big_sum, big_to_usize};
use vstd::prelude::*;
use vstd::string::StringExecFns;
use vstd::utf8::encode_utf8;

verus! {

// -------------------------------------------------------------------------- //
// What the builtins compute                                                  //
// -------------------------------------------------------------------------- //

/// Whether every argument is an integer.
pub open spec fn all_ints(args: Seq<ValueView>) -> bool {
    forall|i: int| 0 <= i < args.len() ==> (#[trigger] args[i]) is Int
}

/// Whether every argument is a string.
pub open spec fn all_strs(args: Seq<ValueView>) -> bool {
    forall|i: int| 0 <= i < args.len() ==> (#[trigger] args[i]) is Str
}

/// The sum of integer arguments.
pub open spec fn int_sum(args: Seq<ValueView>) -> int
    decreases args.len(),
{
    if args.len() == 0 {
        0
    } else {
        int_sum(args.drop_last()) + args.last()->Int_0
    }
}

/// The product of integer arguments.
pub open spec fn int_product(args: Seq<ValueView>) -> int
    decreases args.len(),
{
    if args.len() == 0 {
        1
    } else {
        int_product(args.drop_last()) * args.last()->Int_0
    }
}

/// String arguments, one after the other.
pub open spec fn str_concat(args: Seq<ValueView>) -> Seq<char>
    decreases args.len(),
{
    if args.len() == 0 {
        Seq::empty()
    } else {
        str_concat(args.drop_last()) + args.last()->Str_0
    }
}

/// `count` copies of `text`, one after the other.
pub open spec fn repeat(text: Seq<char>, count: nat) -> Seq<char>
    decreases count,
{
    if count == 0 {
        Seq::empty()
    } else {
        repeat(text, (count - 1) as nat) + text
    }
}

/// Whether `a` comes before `b` in the order of strings: at the first place
/// where they differ `a` has the smaller character, or `a` ends there and `b`
/// goes on.
pub open spec fn text_less(a: Seq<char>, b: Seq<char>) -> bool
    decreases a.len(),
{
    if b.len() == 0 {
        false
    } else if a.len() == 0 {
        true
    } else if a[0] != b[0] {
        a[0] < b[0]
    } else {
        text_less(a.drop_first(), b.drop_first())
    }
}

/// Whether this machine can hold `count` copies of `text` in one string:
/// `count` is a size, and the copies take no more bytes than a string may
/// have.
pub open spec fn can_repeat(text: Seq<char>, count: int) -> bool {
    0 <= count <= usize::MAX && encode_utf8(text).len() * count <= isize::MAX
}

/// Whether every two of the arguments are equal.
pub open spec fn pairwise_equal(args: Seq<ValueView>) -> bool {
    forall|i: int, j: int|
        0 <= i < args.len() && 0 <= j < args.len() && i != j ==> values_equal(
            #[trigger] args[i],
            #[trigger] args[j],
        )
}

/// `+` takes two arguments or more, all integers or all strings: the sum of
/// the integers, or the strings in one.
pub open spec fn add_result(args: Seq<ValueView>) -> Result<ValueView, Error> {
    if args.len() < 2 {
        Err(Error::WrongNumberOfArguments)
    } else if all_ints(args) {
        Ok(ValueView::Int(int_sum(args)))
    } else if all_strs(args) {
        Ok(ValueView::Str(str_concat(args)))
    } else {
        Err(Error::TypeError)
    }
}

/// `*` takes two arguments or more: the product of integers, or for a
/// string and an integer the string that many times. A count that is
/// negative, or too large for this machine, is an `InternalError`.
pub open spec fn mul_result(args: Seq<ValueView>) -> Result<ValueView, Error> {
    if args.len() < 2 {
        Err(Error::WrongNumberOfArguments)
    } else if all_ints(args) {
        Ok(ValueView::Int(int_product(args)))
    } else if args.len() == 2 && args[0] is Str && args[1] is Int {
        if can_repeat(args[0]->Str_0, args[1]->Int_0) {
            Ok(ValueView::Str(repeat(args[0]->Str_0, args[1]->Int_0 as nat)))
        } else {
            Err(Error::InternalError)
        }
    } else {
        Err(Error::TypeError)
    }
}

/// `=` takes two arguments or more: whether they are all equal.
pub open spec fn eq_result(args: Seq<ValueView>) -> Result<ValueView, Error> {
    if args.len() < 2 {
        Err(Error::WrongNumberOfArguments)
    } else {
        Ok(ValueView::Bool(pairwise_equal(args)))
    }
}

/// `<` takes two integers or two strings: whether the first is the smaller
/// number, or comes first in the order of strings.
pub open spec fn lt_result(args: Seq<ValueView>) -> Result<ValueView, Error> {
    if args.len() != 2 {
        Err(Error::WrongNumberOfArguments)
    } else {
        match (args[0], args[1]) {
            (ValueView::Int(lhs), ValueView::Int(rhs)) => Ok(ValueView::Bool(lhs < rhs)),
            (ValueView::Str(lhs), ValueView::Str(rhs)) => Ok(ValueView::Bool(text_less(lhs, rhs))),
            _ => Err(Error::TypeError),
        }
    }
}

/// `>` takes two integers or two strings: whether the first is the larger
/// number, or comes last in the order of strings.
pub open spec fn gt_result(args: Seq<ValueView>) -> Result<ValueView, Error> {
    if args.len() != 2 {
        Err(Error::WrongNumberOfArguments)
    } else {
        match (args[0], args[1]) {
            (ValueView::Int(lhs), ValueView::Int(rhs)) => Ok(ValueView::Bool(lhs > rhs)),
            (ValueView::Str(lhs), ValueView::Str(rhs)) => Ok(ValueView::Bool(text_less(rhs, lhs))),
            _ => Err(Error::TypeError),
        }
    }
}

/// `def` takes a symbol and a value: the symbol's name is bound to the value
/// in the innermost scope, and the result is absent.
pub open spec fn def_outcome(args: Seq<ValueView>, env: Seq<Scope>) -> (
    Result<ValueView, Error>,
    Seq<Scope>,
) {
    if args.len() != 2 {
        (Err(Error::WrongNumberOfArguments), env)
    } else {
        match args[0] {
            ValueView::Symbol(name) => (Ok(ValueView::Absent), bind(env, name, args[1])),
            _ => (Err(Error::TypeError), env),
        }
    }
}

/// What a call of `builtin` returns and what it leaves of the environment.
pub open spec fn call_outcome(builtin: Builtin, args: Seq<ValueView>, env: Seq<Scope>) -> (
    Result<ValueView, Error>,
    Seq<Scope>,
) {
    match builtin {
        Builtin::Add => (add_result(args), env),
        Builtin::Mul => (mul_result(args), env),
        Builtin::Equal => (eq_result(args), env),
        Builtin::Greater => (gt_result(args), env),
        Builtin::Less => (lt_result(args), env),
        Builtin::Def => def_outcome(args, env),
    }
}

/// The names that every environment starts with.
pub open spec fn builtin_scope() -> Scope {
    Map::empty().insert("+"@, ValueView::Fun(Builtin::Add)).insert(
        "*"@,
        ValueView::Fun(Builtin::Mul),
    ).insert("="@, ValueView::Fun(Builtin::Equal)).insert(
        ">"@,
        ValueView::Fun(Builtin::Greater),
    ).insert("<"@, ValueView::Fun(Builtin::Less)).insert("def"@, ValueView::Fun(Builtin::Def))
}

/// A call of `+` or `*` with an integer and a string among its arguments
/// fails with `TypeError`, whatever the environment; the one mix that `*`
/// takes is a string followed by an integer.
pub proof fn lemma_mixed_types(args: Seq<ValueView>, i: int, s: int, env: Seq<Scope>)
    requires
        0 <= i < args.len(),
        0 <= s < args.len(),
        args[i] is Int,
        args[s] is Str,
    ensures
        call_outcome(Builtin::Add, args, env).0 == Err::<ValueView, Error>(Error::TypeError),
        !(args.len() == 2 && args[0] is Str && args[1] is Int) ==> call_outcome(
            Builtin::Mul,
            args,
            env,
        ).0 == Err::<ValueView, Error>(Error::TypeError),
{
}

// -------------------------------------------------------------------------- //
// Calls into std                                                             //
// -------------------------------------------------------------------------- //

/// `str::repeat`: `count` copies of `text`, one after the other. It panics
/// where the copies would take more bytes than a string may have.
#[verifier::external_body]
fn repeat_text(text: &str, count: usize) -> (repeated: String)
    requires
        encode_utf8(text@).len() * count <= isize::MAX,
    ensures
        repeated@ == repeat(text@, count as nat),
{
    text.repeat(count)
}

/// `<` on `str`: strings are ordered lexicographically by their bytes,
/// which orders them by the code points of their characters.
#[verifier::external_body]
fn text_less_than(a: &str, b: &str) -> (less: bool)
    ensures
        less == text_less(a@, b@),
{
    a < b
}

// -------------------------------------------------------------------------- //
// The builtins                                                               //
// -------------------------------------------------------------------------- //

impl Default for Env {
    /// An environment of one scope, which binds the builtins.
    fn default() -> (env: Self)
        ensures
            env@ == seq![builtin_scope()],
    {
        let mut table: Vec<(String, Value)> = Vec::new();
        table.push((String::from_str("+"), Value::Fun(Builtin::Add)));
        table.push((String::from_str("*"), Value::Fun(Builtin::Mul)));
        table.push((String::from_str("="), Value::Fun(Builtin::Equal)));
        table.push((String::from_str(">"), Value::Fun(Builtin::Greater)));
        table.push((String::from_str("<"), Value::Fun(Builtin::Less)));
        table.push((String::from_str("def"), Value::Fun(Builtin::Def)));
        proof {
            reveal_with_fuel(scope_view, 7);
            assert(scope_view(table@) =~= builtin_scope());
        }
        Env::new(table)
    }
}

/// `+`: the sum of integers, or strings in one.
pub fn add(args: Vec<Value>, env: &mut Env) -> (result: Result<Value, Error>)
    ensures
        result_view(result) == add_result(values_view(args@)),
        final(env)@ == old(env)@,
{
    if args.len() < 2 {
        return Err(Error::WrongNumberOfArguments);
    }
    let ghost views = values_view(args@);
    match &args[0] {
        Value::Int(first) => {
            assert(!all_strs(views)) by {
                assert(views[0] is Int);
            }
            let mut total = first.clone();
            proof {
                reveal_with_fuel(int_sum, 2);
                assert(views.take(1).drop_last() =~= Seq::<ValueView>::empty());
            }
            let mut i: usize = 1;
            while i < args.len()
                invariant
                    1 <= i <= args.len(),
                    views == values_view(args@),
                    !all_strs(views),
                    all_ints(views.take(i as int)),
                    total@ == int_sum(views.take(i as int)),
                decreases args.len() - i,
            {
                match &args[i] {
                    Value::Int(next) => {
                        total = big_sum(&total, next);
                    },
                    _ => {
                        assert(!all_ints(views)) by {
                            assert(!(views[i as int] is Int));
                        }
                        return Err(Error::TypeError);
                    },
                }
                proof {
                    assert(views.take(i + 1).drop_last() =~= views.take(i as int));
                    assert forall|j: int| 0 <= j < i + 1 implies (#[trigger] views.take(
                        i + 1,
                    )[j]) is Int by {
                        if j < i {
                            assert(views.take(i as int)[j] is Int);
                        }
                    }
                }
                i = i + 1;
            }
            assert(views.take(i as int) =~= views);
            Ok(Value::Int(total))
        },
        Value::Str(first) => {
            assert(!all_ints(views)) by {
                assert(views[0] is Str);
            }
            let mut text = first.clone();
            proof {
                reveal_with_fuel(str_concat, 2);
                assert(views.take(1).drop_last() =~= Seq::<ValueView>::empty());
                assert(text@ =~= str_concat(views.take(1)));
            }
            let mut i: usize = 1;
            while i < args.len()
                invariant
                    1 <= i <= args.len(),
                    views == values_view(args@),
                    !all_ints(views),
                    all_strs(views.take(i as int)),
                    text@ == str_concat(views.take(i as int)),
                decreases args.len() - i,
            {
                match &args[i] {
                    Value::Str(next) => {
                        text.append(next.as_str());
                    },
                    _ => {
                        assert(!all_strs(views)) by {
                            assert(!(views[i as int] is Str));
                        }
                        return Err(Error::TypeError);
                    },
                }
                proof {
                    assert(views.take(i + 1).drop_last() =~= views.take(i as int));
                    assert forall|j: int| 0 <= j < i + 1 implies (#[trigger] views.take(
                        i + 1,
                    )[j]) is Str by {
                        if j < i {
                            assert(views.take(i as int)[j] is Str);
                        }
                    }
                }
                i = i + 1;
            }
            assert(views.take(i as int) =~= views);
            Ok(Value::Str(text))
        },
        _ => {
            assert(!all_ints(views) && !all_strs(views)) by {
                assert(!(views[0] is Int) && !(views[0] is Str));
            }
            Err(Error::TypeError)
        },
    }
}

/// `*`: the product of integers, or a string repeated.
pub fn mul(args: Vec<Value>, env: &mut Env) -> (result: Result<Value, Error>)
    ensures
        result_view(result) == mul_result(values_view(args@)),
        final(env)@ == old(env)@,
{
    if args.len() < 2 {
        return Err(Error::WrongNumberOfArguments);
    }
    let ghost views = values_view(args@);
    match &args[0] {
        Value::Int(first) => {
            let mut total = first.clone();
            proof {
                reveal_with_fuel(int_product, 2);
                assert(views.take(1).drop_last() =~= Seq::<ValueView>::empty());
            }
            let mut i: usize = 1;
            while i < args.len()
                invariant
                    1 <= i <= args.len(),
                    views == values_view(args@),
                    views[0] is Int,
                    all_ints(views.take(i as int)),
                    total@ == int_product(views.take(i as int)),
                decreases args.len() - i,
            {
                match &args[i] {
                    Value::Int(next) => {
                        total = big_product(&total, next);
                    },
                    _ => {
                        assert(!all_ints(views)) by {
                            assert(!(views[i as int] is Int));
                        }
                        return Err(Error::TypeError);
                    },
                }
                proof {
                    assert(views.take(i + 1).drop_last() =~= views.take(i as int));
                    assert forall|j: int| 0 <= j < i + 1 implies (#[trigger] views.take(
                        i + 1,
                    )[j]) is Int by {
                        if j < i {
                            assert(views.take(i as int)[j] is Int);
                        }
                    }
                }
                i = i + 1;
            }
            assert(views.take(i as int) =~= views);
            Ok(Value::Int(total))
        },
        Value::Str(text) => {
            assert(!all_ints(views)) by {
                assert(views[0] is Str);
            }
            if args.len() != 2 {
                return Err(Error::TypeError);
            }
            match &args[1] {
                Value::Int(times) => {
                    let count = match big_to_usize(times) {
                        Some(count) => count,
                        None => {
                            return Err(Error::InternalError);
                        },
                    };
                    let bytes = text.as_str().as_bytes().len();
                    match bytes.checked_mul(count) {
                        Some(total) if total <= isize::MAX as usize => Ok(
                            Value::Str(repeat_text(text.as_str(), count)),
                        ),
                        _ => Err(Error::InternalError),
                    }
                },
                _ => Err(Error::TypeError),
            }
        },
        _ => {
            assert(!all_ints(views)) by {
                assert(!(views[0] is Int));
            }
            Err(Error::TypeError)
        },
    }
}

/// `=`: whether all arguments are equal.
pub fn eq(args: Vec<Value>, env: &mut Env) -> (result: Result<Value, Error>)
    ensures
        result_view(result) == eq_result(values_view(args@)),
        final(env)@ == old(env)@,
{
    if args.len() < 2 {
        return Err(Error::WrongNumberOfArguments);
    }
    let ghost views = values_view(args@);
    let mut i: usize = 1;
    while i < args.len()
        invariant
            1 <= i <= args.len(),
            views == values_view(args@),
            forall|j: int| 1 <= j < i ==> values_equal(views[0], #[trigger] views[j]),
        decreases args.len() - i,
    {
        if !(args[0] == args[i]) {
            assert(!pairwise_equal(views)) by {
                assert(!values_equal(views[0], views[i as int]));
            }
            return Ok(Value::Bool(false));
        }
        i = i + 1;
    }
    assert(pairwise_equal(views)) by {
        assert forall|i: int, j: int|
            0 <= i < views.len() && 0 <= j < views.len() && i != j implies values_equal(
            #[trigger] views[i],
            #[trigger] views[j],
        ) by {
            if i != 0 {
                assert(values_equal(views[0], views[i]));
            }
            if j != 0 {
                assert(values_equal(views[0], views[j]));
            }
        }
    }
    Ok(Value::Bool(true))
}

/// `>`: whether the first argument is the larger.
pub fn gt(args: Vec<Value>, env: &mut Env) -> (result: Result<Value, Error>)
    ensures
        result_view(result) == gt_result(values_view(args@)),
        final(env)@ == old(env)@,
{
    if args.len() != 2 {
        return Err(Error::WrongNumberOfArguments);
    }
    match (&args[0], &args[1]) {
        (Value::Int(lhs), Value::Int(rhs)) => Ok(Value::Bool(big_less(rhs, lhs))),
        (Value::Str(lhs), Value::Str(rhs)) => Ok(
            Value::Bool(text_less_than(rhs.as_str(), lhs.as_str())),
        ),
        _ => Err(Error::TypeError),
    }
}

/// `<`: whether the first argument is the smaller.
pub fn lt(args: Vec<Value>, env: &mut Env) -> (result: Result<Value, Error>)
    ensures
        result_view(result) == lt_result(values_view(args@)),
        final(env)@ == old(env)@,
{
    if args.len() != 2 {
        return Err(Error::WrongNumberOfArguments);
    }
    match (&args[0], &args[1]) {
        (Value::Int(lhs), Value::Int(rhs)) => Ok(Value::Bool(big_less(lhs, rhs))),
        (Value::Str(lhs), Value::Str(rhs)) => Ok(
            Value::Bool(text_less_than(lhs.as_str(), rhs.as_str())),
        ),
        _ => Err(Error::TypeError),
    }
}

/// `def`: binds a name to a value.
pub fn def(args: Vec<Value>, env: &mut Env) -> (result: Result<Value, Error>)
    requires
        old(env)@.len() > 0,
    ensures
        (result_view(result), final(env)@) == def_outcome(values_view(args@), old(env)@),
{
    if args.len() != 2 {
        return Err(Error::WrongNumberOfArguments);
    }
    let mut rest = args;
    let value = rest.pop().unwrap();
    let first = rest.pop().unwrap();
    if let Value::Symbol(name) = first {
        env.add_binding(name, value);
        Ok(Value::Absent)
    } else {
        Err(Error::TypeError)
    }
}

impl Builtin {
    /// Calls the builtin with `args` in `env`.
    pub fn call(self, args: Vec<Value>, env: &mut Env) -> (result: Result<Value, Error>)
        requires
            old(env)@.len() > 0,
        ensures
            (result_view(result), final(env)@) == call_outcome(
                self,
                values_view(args@),
                old(env)@,
            ),
    {
        match self {
            Builtin::Add => self::add(args, env),
            Builtin::Mul => self::mul(args, env),
            Builtin::Equal => eq(args, env),
            Builtin::Greater => gt(args, env),
            Builtin::Less => lt(args, env),
            Builtin::Def => def(args, env),
        }
    }
}

} // verus!
