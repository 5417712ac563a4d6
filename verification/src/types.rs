use crate::error::Error;
use vstd::prelude::*;

verus! {

/// What a native callback returns: a value, or the error that the script
/// gets to see.
pub type CallbackResult<T> = Result<T, Error>;

} // verus!
