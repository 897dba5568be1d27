//! Errors.
use vstd::prelude::*;
use vstd::string::StringExecFns;

use crate::ids;

verus! {

/// Errors that can occur during converge, each with its message.
#[derive(Clone, PartialEq, Eq, Debug)]
pub enum ConvergeError {
    /// A backend error occurred.
    Backend(String),
    /// An error occurred while evaluating the revset expression for finding divergent commits.
    RevsetEvaluation(String),
    /// An error occurred while traversing the evolution graph of the divergent commits.
    WalkPredecessors(String),
    /// An IO error occurred.
    IO(String),
    /// An unexpected error occurred.
    Other(String),
}

/// An unexpected error with the given message.
pub open spec fn is_other<T>(result: Result<T, ConvergeError>, message: Seq<char>) -> bool {
    result matches Err(ConvergeError::Other(text)) && text@ == message
}

/// Fails with the given message unless the predicate holds.
pub fn validate(predicate: bool, msg: &str) -> (result: Result<(), ConvergeError>)
    ensures
        predicate ==> result is Ok,
        !predicate ==> is_other(result, msg@),
{
    if !predicate {
        Err(ConvergeError::Other(msg.to_owned()))
    } else {
        Ok(())
    }
}

/// The decimal form of a number.
pub open spec fn decimal(number: nat) -> Seq<char>
    decreases number,
{
    if number < 10 {
        seq![ids::hex_digit(number as int)]
    } else {
        decimal(number / 10).push(ids::hex_digit((number % 10) as int))
    }
}

/// The decimal form of a number.
pub(crate) fn to_decimal(number: usize) -> (text: String)
    ensures
        text@ == decimal(number as nat),
    decreases number,
{
    if number < 10 {
        ids::digit_str(number as u8).to_owned()
    } else {
        let mut text = to_decimal(number / 10);
        text.append(ids::digit_str((number % 10) as u8));
        assert(text@ =~= decimal(number as nat));
        text
    }
}

} // verus!
