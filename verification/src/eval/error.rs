//! The ways in which evaluation fails.

use vstd::prelude::*;

verus! {

/// Why an expression has no value.
#[derive(Clone, Copy, Debug, PartialEq)]
pub enum Error {
    /// An identifier is bound to nothing.
    UndefinedBinding,
    /// A list of several elements starts with something that is no function.
    CallingANonFunctionValue,
    /// A builtin is called with too few or too many arguments.
    WrongNumberOfArguments,
    /// A builtin is called with arguments of types it does not take.
    TypeError,
    /// A conversion failed that the language gives no way to ask for, such
    /// as a repeat count that the machine cannot hold.
    InternalError,
}

} // verus!
