//! The error types shared by the whole crate.

use vstd::prelude::*;
use vstd::string::StringExecFns;

verus! {

/// The error of a missing value.
#[derive(Clone, Copy, Debug, PartialEq, Eq, PartialOrd, Ord, Hash)]
#[non_exhaustive]
pub enum ExampleError {
    /// An option held no value.
    NoneError,
}

impl ExampleError {
    /// The message of this error.
    pub fn to_string(&self) -> (text: String)
        ensures
            text@ == "none on option"@,
    {
        match self {
            ExampleError::NoneError => String::from_str("none on option"),
        }
    }
}

/// The error of a checked setter.
#[derive(Clone, Copy, Debug, PartialEq, Eq, PartialOrd, Ord, Hash)]
#[non_exhaustive]
pub enum SetError {
    /// The value lies outside the range of the type.
    ValueOutOfBounds,
}

impl SetError {
    /// The message of this error.
    pub fn to_string(&self) -> (text: String)
        ensures
            text@ == "the value is out of bounds"@,
    {
        match self {
            SetError::ValueOutOfBounds => String::from_str("the value is out of bounds"),
        }
    }
}

} // verus!
