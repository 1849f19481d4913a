//! The pipeline's error type. Every stage fails fast with one of these;
//! no partial result is ever returned.

use vstd::prelude::*;

verus! {

/// A fatal preprocessing failure, carrying enough of the offending input
/// for a human to fix it.
#[derive(Debug)]
pub enum FilterError {
    /// A size-suffixed token whose numeric part does not parse or whose
    /// value does not fit in 64 bits.
    NumberFormat { token: Vec<u8> },
    /// A method on a recognized receiver that is not in its allow-list.
    UnknownMethod { receiver: Vec<u8>, method: Vec<u8>, allowed: Vec<Vec<u8>> },
    /// A call argument that is not a double-quoted string literal.
    MalformedArgument { receiver: Vec<u8> },
    /// An opening quote with no closing quote before the end of the input.
    UnterminatedString { receiver: Vec<u8> },
    /// A natural-language date string that could not be resolved.
    DateParse { input: Vec<u8> },
    /// A glob literal that is not valid wildcard syntax.
    GlobCompile { pattern: Vec<u8>, pos: usize, cause: Vec<u8> },
    /// A quick-filter shorthand with no usable glob part.
    BadSeparator,
    /// A free-form failure, corresponding to a plain I/O-style error.
    Io { message: Vec<u8> },
}

/// Builds the free-form error from a message.
pub fn io_error(msg: &[u8]) -> (r: FilterError)
    ensures
        r matches FilterError::Io { message } && message@ == msg@,
{
    let message = vstd::slice::slice_to_vec(msg);
    FilterError::Io { message }
}

/// Wraps a message as an `Err` result.
pub fn err_io<T>(msg: &[u8]) -> (r: Result<T, FilterError>)
    ensures
        r matches Err(e) && (e matches FilterError::Io { message } && message@ == msg@),
{
    Err(io_error(msg))
}

} // verus!
