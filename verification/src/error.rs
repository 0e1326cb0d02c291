//! Error helpers: a message for unwrapping an absent value, and a trait
//! that turns an optional value into a `Result` with a contextual message.

use vstd::prelude::*;
use vstd::string::StringExecFns;

verus! {

/// The message carried when an absent value is unwrapped.
pub struct NoneErrorRich<'a>(pub &'a str);

impl<'a> NoneErrorRich<'a> {
    /// The message to show the user.
    pub fn message(&self) -> (m: &'a str)
        ensures
            m@ == self.0@,
    {
        self.0
    }
}

/// An error with the context in which it arose, for the caller to print.
#[derive(Clone, Debug, PartialEq, Eq)]
pub struct SfwError {
    pub message: String,
}

/// Carriers that may hold a value, turned into a `Result` with a
/// contextual error message when they do not.
pub trait SfwResError<T>: Sized {
    /// The value this carrier holds, if any.
    spec fn value_of(self) -> Option<T>;

    /// The held value, or an error carrying `fstr` as its context.
    fn sfw_err(self, fstr: &str) -> (r: Result<T, SfwError>)
        ensures
            match r {
                Ok(v) => self.value_of() == Some(v),
                Err(e) => self.value_of() is None && e.message@ == fstr@,
            },
    ;
}

impl<T> SfwResError<T> for Option<T> {
    open spec fn value_of(self) -> Option<T> {
        self
    }

    fn sfw_err(self, fstr: &str) -> (r: Result<T, SfwError>)
        ensures
            match r {
                Ok(v) => self.value_of() == Some(v),
                Err(e) => self.value_of() is None && e.message@ == fstr@,
            },
    {
        match self {
            Some(s) => Ok(s),
            None => Err(SfwError { message: String::from_str(fstr) }),
        }
    }
}

} // verus!
