//! What a native entry point decides when the engine calls it: the
//! arguments, the handles, and the reply to how the callback ended.

use crate::engine::{ops_view, Hidden, Op, OpView, Slot, Trampoline};
use crate::invocation::Invocation;
use crate::marshal::{decode_items, decoded_items, plan, pushable, transcodable, CONTAINER};
use crate::registry::Registry;
use crate::rubtle::{fatal, fatal_plan, no_handle, value_unpushable, Rubtle, TOP};
use crate::transcode::{cesu8_decoding, from_engine_bytes};
use crate::types::CallbackResult;
use crate::value::{items_view, Value};
use vstd::prelude::*;
use vstd::string::StringExecFns;

verus! {

/// How a native callback ended, as seen from the boundary that it was called
/// behind: it returned, or it panicked and the panic was caught.
pub enum Outcome<R> {
    Returned(R),
    Panicked,
}

/// What a native entry point hands back to the engine: calls to make before
/// it returns, and the status to return.
pub struct Reply {
    pub ops: Vec<Op>,
    pub status: i32,
}

/// The status that tells the engine that one value was left on the stack as
/// the result of a call.
pub const ONE_RESULT: i32 = 1;

/// The status that tells the engine that a call has no result.
pub const NO_RESULT: i32 = 0;

/// The status that makes the engine throw an error in the calling script.
pub const FAILURE: i32 = -1;

/// The fatal error of a panic in a callback of a native function.
pub open spec fn function_panic() -> Seq<char> {
    "fatal error on func call"@
}

/// The fatal error of a panic in a callback of a native object.
pub open spec fn object_panic() -> Seq<char> {
    "Fatal error on func call"@
}

/// The fatal error of a constructor that was called as a plain function.
pub open spec fn not_constructed() -> Seq<char> {
    "constructor called without new"@
}

/// The fatal error of an instance without user data.
pub open spec fn no_user_data() -> Seq<char> {
    "Null user data pointer"@
}

/// Whether a reply reports a fatal error with the given message, and does
/// nothing else.
pub open spec fn is_fatal(reply: Reply, message: Seq<char>) -> bool {
    ops_view(reply.ops@) == fatal_plan(message) && reply.status == FAILURE
}

/// Whether a reply is the right one to the outcome of a callback that
/// returns a value: a value is pushed as the one result; an error of the
/// callback becomes the given status without any call; a panic, or a value
/// that is not `pushable`, is fatal.
pub open spec fn answers(
    reply: Reply,
    outcome: Outcome<CallbackResult<Value>>,
    failure: i32,
    panic: Seq<char>,
) -> bool {
    match outcome {
        Outcome::Returned(Ok(value)) => if pushable(value) {
            &&& ops_view(reply.ops@) == plan(value)
            &&& reply.status == ONE_RESULT
            &&& transcodable(value)
        } else {
            is_fatal(reply, value_unpushable())
        },
        Outcome::Returned(Err(_)) => reply.ops@.len() == 0 && reply.status == failure,
        Outcome::Panicked => is_fatal(reply, panic),
    }
}

/// The calls that attach the user data of a new instance to it: its handle
/// is stored on the instance under a reserved name, and a finalizer is set.
pub open spec fn attach_plan(handle: u64) -> Seq<OpView> {
    seq![
        OpView::RequireStack(2),
        OpView::PushThis,
        OpView::PushPointer(handle),
        OpView::PutPropHidden(CONTAINER, Hidden::Udata),
        OpView::PushNative(Trampoline::Finalizer(Hidden::Udata)),
        OpView::SetFinalizer(CONTAINER),
        OpView::Remove(TOP),
    ]
}

/// The calls that clear a handle on the object in the first slot of the
/// stack, so that it is not used again.
pub open spec fn clear_plan(name: Hidden) -> Seq<OpView> {
    seq![OpView::RequireStack(1), OpView::PushUndefined, OpView::PutPropHidden(0, name)]
}

/// The object that holds a handle under a reserved name.
#[derive(Debug, Clone, Copy, PartialEq, Eq, Structural)]
pub enum Holder {
    /// The function object that is running.
    Callee,
    /// The object that the running call was made on.
    This,
    /// The object that is about to be freed: the one argument of a finalizer.
    Freed,
}

/// The calls that push the handle that an object holds under a reserved
/// name, above the object itself where that has to be pushed first.
pub open spec fn locate_plan(holder: Holder, name: Hidden) -> Seq<OpView> {
    match holder {
        Holder::Callee => seq![
            OpView::RequireStack(2),
            OpView::PushCallee,
            OpView::GetPropHidden(TOP, name),
        ],
        Holder::This => seq![
            OpView::RequireStack(2),
            OpView::PushThis,
            OpView::GetPropHidden(TOP, name),
        ],
        Holder::Freed => seq![OpView::RequireStack(1), OpView::GetPropHidden(0, name)],
    }
}

/// The calls that take off the stack what `locate_plan` has pushed.
pub open spec fn release_plan(holder: Holder) -> Seq<OpView> {
    match holder {
        Holder::Freed => seq![OpView::Remove(TOP)],
        _ => seq![OpView::Remove(TOP), OpView::Remove(TOP)],
    }
}

/// The handle in a slot; zero, which is no handle, where the slot holds none.
pub open spec fn handle_in(slot: Slot) -> u64 {
    match slot {
        Slot::Pointer(handle) => handle,
        _ => 0,
    }
}

/// A handle that was found, and the calls that clear the stack of what was
/// pushed to find it.
pub struct Located {
    pub handle: u64,
    pub ops: Vec<Op>,
}

/// What is printed when the engine reports a fatal error, before the process
/// ends: the engine's message after a fixed beginning, or a fixed text in its
/// place where the message is malformed.
pub open spec fn fatal_text(message: Seq<u8>) -> Seq<char> {
    "fatal error from duktape: "@ + match cesu8_decoding(message) {
        Some(text) => text,
        None => "failed to decode message"@,
    }
}

/// The line to print for a fatal error of the engine, given its message as
/// the engine's bytes.
pub fn fatal_handler(msg: &Vec<u8>) -> (r: String)
    ensures
        r@ == fatal_text(msg@),
{
    let mut line = String::from_str("fatal error from duktape: ");
    match from_engine_bytes(msg) {
        Ok(text) => line.append(text.as_str()),
        Err(_) => line.append("failed to decode message"),
    }
    line
}

/// The reply that reports a fatal error.
fn fatal_reply(message: &str) -> (r: Reply)
    ensures
        is_fatal(r, message@),
{
    Reply { ops: fatal(message), status: FAILURE }
}

impl Rubtle {
    /// The calls that push the handle that an object holds under a reserved
    /// name, for `located` to take.
    pub fn locate(&self, holder: Holder, name: Hidden) -> (r: Vec<Op>)
        ensures
            ops_view(r@) == locate_plan(holder, name),
    {
        let mut ops: Vec<Op> = Vec::new();
        match holder {
            Holder::Callee => {
                ops.push(Op::RequireStack(2));
                ops.push(Op::PushCallee);
                ops.push(Op::GetPropHidden(TOP, name));
            },
            Holder::This => {
                ops.push(Op::RequireStack(2));
                ops.push(Op::PushThis);
                ops.push(Op::GetPropHidden(TOP, name));
            },
            Holder::Freed => {
                ops.push(Op::RequireStack(1));
                ops.push(Op::GetPropHidden(0, name));
            },
        }
        assert(ops_view(ops@) =~= locate_plan(holder, name));
        ops
    }

    /// Takes what `locate` had pushed, given what the slot on top holds: the
    /// handle, or zero where there is none.
    pub fn located(&self, holder: Holder, slot: &Slot) -> (r: Located)
        ensures
            r.handle == handle_in(*slot),
            ops_view(r.ops@) == release_plan(holder),
    {
        let handle = match slot {
            Slot::Pointer(handle) => *handle,
            _ => 0,
        };
        let mut ops: Vec<Op> = Vec::new();
        ops.push(Op::Remove(TOP));
        match holder {
            Holder::Freed => {},
            _ => {
                ops.push(Op::Remove(TOP));
            },
        }
        assert(ops_view(ops@) =~= release_plan(holder));
        Located { handle, ops }
    }

    /// The arguments of a call, from what the slots of the stack hold, first
    /// to last. A slot that holds no value gives no argument.
    pub fn collect_arguments(&self, slots: &Vec<Slot>) -> (r: Vec<Value>)
        ensures
            items_view(r@) == decoded_items(slots@),
    {
        decode_items(slots)
    }

    /// What the callback of a native function is called with: the arguments
    /// of the call, and no user data.
    pub fn begin_function<'a>(&'a self, slots: &Vec<Slot>) -> (r: Invocation<'a, i8>)
        ensures
            r.rubtle == self,
            r.udata is None,
            r.args matches Some(args) && items_view(args@) == decoded_items(slots@),
    {
        Invocation { rubtle: self, args: Some(decode_items(slots)), udata: None }
    }

    /// The reply to the outcome of a callback that returns a value.
    fn reply_to(&self, outcome: Outcome<CallbackResult<Value>>, failure: i32, panic: &str) -> (r:
        Reply)
        ensures
            answers(r, outcome, failure, panic@),
    {
        match outcome {
            Outcome::Returned(Ok(value)) => match self.push_value(&value) {
                Ok(ops) => Reply { ops, status: ONE_RESULT },
                Err(_) => fatal_reply("value cannot be pushed"),
            },
            Outcome::Returned(Err(_)) => Reply { ops: Vec::new(), status: failure },
            Outcome::Panicked => fatal_reply(panic),
        }
    }

    /// The reply of a native function to the engine: the value that the
    /// callback returned is pushed as the result; an error of the callback is
    /// thrown in the script; a panic is fatal.
    pub fn function_return(&self, outcome: Outcome<CallbackResult<Value>>) -> (r: Reply)
        ensures
            answers(r, outcome, FAILURE, function_panic()),
    {
        self.reply_to(outcome, FAILURE, "fatal error on func call")
    }

    /// What is done when the engine frees an object that holds a handle: the
    /// item under the handle leaves the registry for good, and the handle is
    /// cleared on the object.
    pub fn finalize<C>(&self, handle: u64, name: Hidden, registry: &mut Registry<C>) -> (r: Reply)
        ensures
            final(registry)@ == old(registry)@.remove(handle),
            final(registry).issued() == old(registry).issued(),
            ops_view(r.ops@) == clear_plan(name),
            r.status == NO_RESULT,
    {
        let _ = registry.take(handle);
        let mut ops: Vec<Op> = Vec::new();
        ops.push(Op::RequireStack(1));
        ops.push(Op::PushUndefined);
        ops.push(Op::PutPropHidden(0, name));
        assert(ops_view(ops@) =~= clear_plan(name));
        Reply { ops, status: NO_RESULT }
    }

    /// What a constructor callback is called with: the arguments of the call
    /// and fresh user data. A constructor that was called as a plain function
    /// is a fatal error.
    pub fn begin_construct<'a, T: Default>(
        &'a self,
        is_constructor_call: bool,
        slots: &Vec<Slot>,
    ) -> (r: Result<Invocation<'a, T>, Reply>)
        ensures
            r is Ok <==> is_constructor_call,
            r matches Ok(inv) ==> {
                &&& inv.rubtle == self
                &&& inv.args matches Some(args) && items_view(args@) == decoded_items(slots@)
                &&& inv.udata is Some
            },
            r matches Err(reply) ==> is_fatal(reply, not_constructed()),
    {
        if !is_constructor_call {
            return Err(fatal_reply("constructor called without new"));
        }
        Ok(Invocation { rubtle: self, args: Some(decode_items(slots)), udata: Some(T::default()) })
    }

    /// The reply of a native constructor to the engine: the user data, as the
    /// callback left it, goes into the registry and its handle onto the new
    /// instance. A panic of the callback is fatal, and so is a registry
    /// without a handle left.
    pub fn finish_construct<T>(
        &self,
        outcome: Outcome<()>,
        udata: Option<T>,
        instances: &mut Registry<Option<T>>,
    ) -> (r: Reply)
        ensures
            match outcome {
                Outcome::Returned(_) => if old(instances).issued() < u64::MAX {
                    &&& final(instances).issued() == old(instances).issued() + 1
                    &&& final(instances)@ == old(instances)@.insert(
                        final(instances).issued() as u64,
                        udata,
                    )
                    &&& ops_view(r.ops@) == attach_plan(final(instances).issued() as u64)
                    &&& r.status == NO_RESULT
                } else {
                    *final(instances) == *old(instances) && is_fatal(r, no_handle())
                },
                Outcome::Panicked => *final(instances) == *old(instances) && is_fatal(
                    r,
                    object_panic(),
                ),
            },
    {
        match outcome {
            Outcome::Panicked => fatal_reply("Fatal error on func call"),
            Outcome::Returned(_) => match instances.insert(udata) {
                Ok(handle) => {
                    let mut ops: Vec<Op> = Vec::new();
                    ops.push(Op::RequireStack(2));
                    ops.push(Op::PushThis);
                    ops.push(Op::PushPointer(handle));
                    ops.push(Op::PutPropHidden(CONTAINER, Hidden::Udata));
                    ops.push(Op::PushNative(Trampoline::Finalizer(Hidden::Udata)));
                    ops.push(Op::SetFinalizer(CONTAINER));
                    ops.push(Op::Remove(TOP));
                    assert(ops_view(ops@) =~= attach_plan(handle));
                    Reply { ops, status: NO_RESULT }
                },
                Err(_) => fatal_reply("no handle is left"),
            },
        }
    }

    /// What a method callback is called with: the arguments of this call and
    /// the user data of the instance, which leaves the registry for the time
    /// of the call. An instance without user data is a fatal error.
    pub fn begin_method<'a, T>(
        &'a self,
        slots: &Vec<Slot>,
        instance: u64,
        instances: &mut Registry<Option<T>>,
    ) -> (r: Result<Invocation<'a, T>, Reply>)
        ensures
            r is Ok <==> old(instances)@.dom().contains(instance),
            final(instances)@ == old(instances)@.remove(instance),
            final(instances).issued() == old(instances).issued(),
            r matches Ok(inv) ==> {
                &&& inv.rubtle == self
                &&& inv.args matches Some(args) && items_view(args@) == decoded_items(slots@)
                &&& inv.udata == old(instances)@[instance]
            },
            r matches Err(reply) ==> is_fatal(reply, no_user_data()),
    {
        match instances.take(instance) {
            Some(udata) => Ok(
                Invocation { rubtle: self, args: Some(decode_items(slots)), udata },
            ),
            None => Err(fatal_reply("Null user data pointer")),
        }
    }

    /// The reply of a native method to the engine: the user data, as the
    /// callback left it, goes back under the handle of the instance; the
    /// value that the callback returned is pushed as the result; an error of
    /// the callback gives no result; a panic is fatal.
    pub fn finish_method<T>(
        &self,
        outcome: Outcome<CallbackResult<Value>>,
        instance: u64,
        udata: Option<T>,
        instances: &mut Registry<Option<T>>,
    ) -> (r: Reply)
        ensures
            final(instances).issued() == old(instances).issued(),
            if 1 <= instance <= old(instances).issued() && !old(instances)@.dom().contains(
                instance,
            ) {
                &&& final(instances)@ == old(instances)@.insert(instance, udata)
                &&& answers(r, outcome, NO_RESULT, object_panic())
            } else {
                final(instances)@ == old(instances)@ && is_fatal(r, no_user_data())
            },
    {
        match instances.restore(instance, udata) {
            Ok(()) => self.reply_to(outcome, NO_RESULT, "Fatal error on func call"),
            Err(_) => fatal_reply("Null user data pointer"),
        }
    }
}

} // verus!
