use vstd::prelude::*;
use vstd::string::StringExecFns;

verus! {

/// Failure reported by the host side: by a native callback, or by an
/// operation whose text the engine cannot hold.
#[derive(Debug)]
pub struct Error {
    pub details: String,
}

impl Error {
    pub fn new(details: &str) -> (r: Error)
        ensures
            r.details@ == details@,
    {
        Error { details: String::from_str(details) }
    }

    /// The message text.
    pub fn message(&self) -> (r: String)
        ensures
            r@ == self.details@,
    {
        self.details.clone()
    }
}

} // verus!
