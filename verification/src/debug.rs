//! A line that shows the state of the stack.

use crate::engine::{ops_view, Op, OpView};
use crate::number::{decimal_digits, push_decimal};
use crate::transcode::{cesu8_decoding, from_engine_bytes};
use vstd::prelude::*;
use vstd::string::StringExecFns;

verus! {

/// The calls that push a description of the stack, for `debug_stack` to
/// print and a pop to take off again.
pub fn context_dump() -> (r: Vec<Op>)
    ensures
        ops_view(r@) == seq![OpView::RequireStack(1), OpView::PushContextDump],
{
    let mut ops: Vec<Op> = Vec::new();
    ops.push(Op::RequireStack(1));
    ops.push(Op::PushContextDump);
    assert(ops_view(ops@) =~= seq![OpView::RequireStack(1), OpView::PushContextDump]);
    ops
}

/// The line that shows a description of the stack: a line break, the place
/// it was asked at as file, `@` and line number, a colon and the description.
pub open spec fn debug_line(filename: Seq<char>, lineno: u32, dump: Seq<char>) -> Seq<char> {
    "\n"@ + filename + "@"@ + decimal_digits(lineno as nat) + ": "@ + dump
}

/// The line to print for a description of the stack, given as the engine's
/// bytes; none where the bytes are malformed.
pub fn debug_stack(filename: &str, lineno: u32, dump: &Vec<u8>) -> (r: Option<String>)
    ensures
        r is Some <==> cesu8_decoding(dump@) is Some,
        r matches Some(line) ==> line@ == debug_line(filename@, lineno, cesu8_decoding(dump@)->0),
{
    match from_engine_bytes(dump) {
        Ok(text) => {
            let mut line = String::from_str("\n");
            line.append(filename);
            line.append("@");
            push_decimal(&mut line, lineno as u64);
            line.append(": ");
            line.append(text.as_str());
            Some(line)
        },
        Err(_) => None,
    }
}

} // verus!
