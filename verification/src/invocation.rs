use crate::rubtle::Rubtle;
use crate::value::Value;
use vstd::prelude::*;

verus! {

/// What a native callback is called with: the handle of the engine that
/// calls, the arguments of the call, and, for a constructor or a method, the
/// user data of the instance.
pub struct Invocation<'rubtle, T> {
    pub rubtle: &'rubtle Rubtle,
    pub args: Option<Vec<Value>>,
    pub udata: Option<T>,
}

} // verus!
