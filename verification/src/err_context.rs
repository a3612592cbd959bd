//! Adding context to the errors of a deserializing result.
use vstd::prelude::*;

use crate::bin_deserialize::BinError;
use crate::text_deserialize::TextError;

verus! {

/// A result whose error can be given a line of context.
pub trait Context: Sized {
    /// The result, with `context` put in front of the error's text if it is an error.
    fn context(self, context: &str) -> Self;

    /// As [`Context::context`], with the context made by `context` only when there is an error.
    fn with_context<F: Fn() -> String>(self, context: F) -> Self
        requires
            context.requires(()),
    ;
}

impl<T> Context for Result<T, BinError> {
    fn context(self, context: &str) -> (res: Self)
        ensures
            match self {
                Ok(v) => res matches Ok(r) && r == v,
                Err(e) => res matches Err(BinError::Custom(m)) && m@ == context@ + ":\n"@
                    + e.spec_message(),
            },
    {
        match self {
            Ok(value) => Ok(value),
            Err(err) => Err(err.context(context)),
        }
    }

    fn with_context<F: Fn() -> String>(self, context: F) -> (res: Self)
        ensures
            match self {
                Ok(v) => res matches Ok(r) && r == v,
                Err(e) => res matches Err(BinError::Custom(m)) && exists|c: String|
                    context.ensures((), c) && m@ == c@ + ":\n"@ + e.spec_message(),
            },
    {
        match self {
            Ok(value) => Ok(value),
            Err(err) => {
                let c = context();
                Err(err.context(c.as_str()))
            },
        }
    }
}

impl<T> Context for Result<T, TextError> {
    fn context(self, context: &str) -> (res: Self)
        ensures
            match self {
                Ok(v) => res matches Ok(r) && r == v,
                Err(e) => res matches Err(TextError::Custom(m)) && m@ == context@ + ":\n"@
                    + e.spec_message(),
            },
    {
        match self {
            Ok(value) => Ok(value),
            Err(err) => Err(err.context(context)),
        }
    }

    fn with_context<F: Fn() -> String>(self, context: F) -> (res: Self)
        ensures
            match self {
                Ok(v) => res matches Ok(r) && r == v,
                Err(e) => res matches Err(TextError::Custom(m)) && exists|c: String|
                    context.ensures((), c) && m@ == c@ + ":\n"@ + e.spec_message(),
            },
    {
        match self {
            Ok(value) => Ok(value),
            Err(err) => {
                let c = context();
                Err(err.context(c.as_str()))
            },
        }
    }
}

} // verus!
