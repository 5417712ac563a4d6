//! The handle of an engine heap: values, globals, native functions and
//! objects, each as a plan of engine calls.

use crate::engine::{ops_view, CompileFlags, Hidden, Op, OpView, Slot, Trampoline};
use crate::error::Error;
use crate::marshal::{decode, decoded, plan, push_into, pushable, transcodable, CONTAINER};
use crate::object_builder::Object;
use crate::registry::Registry;
use crate::transcode::{cesu8_encoding, encodable, has_zero, to_engine_bytes};
use crate::value::{Value, ValueView};
use vstd::prelude::*;
use vstd::string::StrSliceExecFns;
use vstd::string::StringExecFns;
use vstd::string::StringSliceAdditionalSpecFns;

verus! {

/// The index of the top of the stack.
pub const TOP: i32 = -1;

/// A value taken off the stack: what the slot held, and the calls that take
/// the slot off.
pub struct Popped {
    pub value: Option<Value>,
    pub ops: Vec<Op>,
}

/// The call that reports a fatal error.
pub open spec fn fatal_plan(message: Seq<char>) -> Seq<OpView> {
    seq![OpView::Fatal(message)]
}

/// The fatal error of a name that the engine cannot be handed.
pub open spec fn name_unencodable() -> Seq<char> {
    "name cannot be encoded"@
}

/// The fatal error of a value that is not `pushable`.
pub open spec fn value_unpushable() -> Seq<char> {
    "value cannot be pushed"@
}

/// The fatal error of a template without a constructor.
pub open spec fn no_constructor() -> Seq<char> {
    "No constructor"@
}

/// The fatal error of a registry without handles left.
pub open spec fn no_handle() -> Seq<char> {
    "no handle is left"@
}

/// The calls that take a slot off the stack, where there is one.
pub open spec fn pop_plan(idx: i32, slot: Slot) -> Seq<OpView> {
    if slot is Missing {
        Seq::empty()
    } else {
        seq![OpView::Remove(idx)]
    }
}

/// The calls that bind a value to a global name.
pub open spec fn store_plan(name: Seq<u8>, v: Value) -> Seq<OpView> {
    plan(v) + seq![OpView::RequireStack(1), OpView::PutGlobalLString(name)]
}

/// The calls that push what a global name is bound to.
pub open spec fn fetch_plan(name: Seq<u8>) -> Seq<OpView> {
    seq![OpView::RequireStack(1), OpView::GetGlobalLString(name)]
}

/// How a script is compiled: as a program, keeping neither its source nor
/// its result, and without a file name.
pub open spec fn script_flags() -> CompileFlags {
    CompileFlags { eval: true, no_source: true, no_result: true, no_filename: true }
}

/// What a global holds for the host: the value in its slot, but nothing
/// where the global is undefined.
pub open spec fn global_value(slot: Slot) -> Option<ValueView> {
    match decoded(slot) {
        Some(ValueView::Absent) => None,
        other => other,
    }
}

/// The calls that make a native function and bind it to a global name: the
/// function object is made, the handle of its callback is stored on it under
/// a reserved name, a finalizer is set on it, and it is bound.
pub open spec fn function_plan(name: Seq<u8>, handle: u64) -> Seq<OpView> {
    seq![
        OpView::RequireStack(2),
        OpView::PushNative(Trampoline::Function),
        OpView::PushPointer(handle),
        OpView::PutPropHidden(CONTAINER, Hidden::Func),
        OpView::PushNative(Trampoline::Finalizer(Hidden::Func)),
        OpView::SetFinalizer(CONTAINER),
        OpView::PutGlobalLString(name),
    ]
}

/// The calls that make one native method, with the handle of its callback
/// and a finalizer, and store it on the prototype.
pub open spec fn method_plan(name: Seq<u8>, handle: u64) -> Seq<OpView> {
    seq![
        OpView::PushNative(Trampoline::Method),
        OpView::PushPointer(handle),
        OpView::PutPropHidden(CONTAINER, Hidden::Meth),
        OpView::PushNative(Trampoline::Finalizer(Hidden::Meth)),
        OpView::SetFinalizer(CONTAINER),
        OpView::PutPropLString(CONTAINER, name),
    ]
}

/// The calls that make the methods of a template, the one added last first,
/// with handles counting up from `first`.
pub open spec fn methods_plan<M>(methods: Seq<(String, M)>, first: nat) -> Seq<OpView>
    decreases methods.len(),
{
    if methods.len() == 0 {
        Seq::empty()
    } else {
        method_plan(cesu8_encoding(methods.last().0@), first as u64) + methods_plan(
            methods.drop_last(),
            first + 1,
        )
    }
}

/// What a registry holds once it has taken the methods of a template in, the
/// one added last first, under handles counting up from `first`.
pub open spec fn held_with<M>(held: Map<u64, M>, methods: Seq<(String, M)>, first: nat) -> Map<
    u64,
    M,
>
    decreases methods.len(),
{
    if methods.len() == 0 {
        held
    } else {
        held_with(held.insert(first as u64, methods.last().1), methods.drop_last(), first + 1)
    }
}

/// The calls that make the constructor function of a native object, with the
/// handle of its callback and a finalizer, and an empty prototype above it.
pub open spec fn constructor_plan(constructor: u64) -> Seq<OpView> {
    seq![
        OpView::RequireStack(4),
        OpView::PushNative(Trampoline::Constructor),
        OpView::PushPointer(constructor),
        OpView::PutPropHidden(CONTAINER, Hidden::Ctor),
        OpView::PushNative(Trampoline::Finalizer(Hidden::Ctor)),
        OpView::SetFinalizer(CONTAINER),
        OpView::PushObject,
    ]
}

/// The calls that make a native object and bind it to a global name: the
/// constructor function, the prototype with the methods, and the binding.
pub open spec fn object_plan<M>(
    name: Seq<u8>,
    constructor: u64,
    methods: Seq<(String, M)>,
    first: nat,
) -> Seq<OpView> {
    constructor_plan(constructor) + methods_plan(methods, first) + seq![
        OpView::PutPrototype(CONTAINER),
        OpView::PutGlobalLString(name),
    ]
}

/// Whether the engine can be handed the name of each method.
pub open spec fn names_encodable<M>(methods: Seq<(String, M)>) -> bool {
    forall|i: int| 0 <= i < methods.len() ==> encodable((#[trigger] methods[i]).0@)
}

/// Whether a template can be registered under a name, or what fatal error
/// it is not to: the name must be one that the engine can be handed, there
/// must be a constructor, the same goes for the name of each method, and the
/// registries must have handles left for all the callbacks.
pub open spec fn object_fault<M>(
    name: Seq<char>,
    with_constructor: bool,
    methods: Seq<(String, M)>,
    constructors_issued: nat,
    methods_issued: nat,
) -> Option<Seq<char>> {
    if !encodable(name) {
        Some(name_unencodable())
    } else if !with_constructor {
        Some(no_constructor())
    } else if !names_encodable(methods) {
        Some(name_unencodable())
    } else if constructors_issued >= u64::MAX || methods_issued + methods.len() > u64::MAX {
        Some(no_handle())
    } else {
        None
    }
}

/// The calls that report a fatal error.
pub fn fatal(message: &str) -> (r: Vec<Op>)
    ensures
        ops_view(r@) == fatal_plan(message@),
{
    let mut ops: Vec<Op> = Vec::new();
    ops.push(Op::Fatal(String::from_str(message)));
    assert(ops_view(ops@) =~= fatal_plan(message@));
    ops
}

/// The handle of one engine heap. The handle that was made for the heap owns
/// it; the handles made on the way into a native callback refer to the same
/// heap and never free it.
pub struct Rubtle {
    drop_ctx: bool,
}

impl Rubtle {
    /// Whether this handle frees the heap at its end.
    pub closed spec fn owns_heap(&self) -> bool {
        self.drop_ctx
    }

    /// The handle of a new heap, which it owns.
    pub fn new() -> (r: Rubtle)
        ensures
            r.owns_heap(),
    {
        Rubtle { drop_ctx: true }
    }

    /// A handle to the same heap for the time of a native call. It does not
    /// own the heap.
    pub fn reenter(&self) -> (r: Rubtle)
        ensures
            !r.owns_heap(),
    {
        Rubtle { drop_ctx: false }
    }

    /// The calls to make at the end of the handle: the heap is freed by the
    /// handle that owns it, and by no other.
    pub fn teardown(&self) -> (r: Vec<Op>)
        ensures
            ops_view(r@) == if self.owns_heap() {
                seq![OpView::DestroyHeap]
            } else {
                Seq::<OpView>::empty()
            },
    {
        let mut ops: Vec<Op> = Vec::new();
        if self.drop_ctx {
            ops.push(Op::DestroyHeap);
        }
        assert(ops_view(ops@) =~= if self.owns_heap() {
            seq![OpView::DestroyHeap]
        } else {
            Seq::<OpView>::empty()
        });
        ops
    }

    /// The calls that push a value onto the stack, or an error where the
    /// value is not `pushable`: where an array in it has more items than the
    /// engine can index. Every string of a value, a zero character and all,
    /// comes back from its encoding, so that what is pushed is read back as
    /// the same value (`lemma_push_then_pop`).
    pub fn push_value(&self, rval: &Value) -> (r: Result<Vec<Op>, Error>)
        ensures
            r is Ok <==> pushable(*rval),
            r matches Ok(ops) ==> ops_view(ops@) == plan(*rval) && transcodable(*rval),
    {
        let mut ops: Vec<Op> = Vec::new();
        assert(ops_view(ops@) =~= Seq::<OpView>::empty());
        match push_into(rval, &mut ops) {
            Ok(()) => {
                assert(Seq::<OpView>::empty() + plan(*rval) =~= plan(*rval));
                Ok(ops)
            },
            Err(e) => Err(e),
        }
    }

    /// Takes the value at the top of the stack, given what its slot holds.
    pub fn pop_value(&self, slot: &Slot) -> (r: Popped)
        ensures
            r.value is Some <==> decoded(*slot) is Some,
            r.value matches Some(v) ==> decoded(*slot) == Some(v@),
            ops_view(r.ops@) == pop_plan(TOP, *slot),
    {
        self.pop_value_at(TOP, slot)
    }

    /// Takes the value at a stack index, given what its slot holds. The slot
    /// leaves the stack whether or not it held a value; where the index
    /// names no slot nothing is done.
    pub fn pop_value_at(&self, idx: i32, slot: &Slot) -> (r: Popped)
        ensures
            r.value is Some <==> decoded(*slot) is Some,
            r.value matches Some(v) ==> decoded(*slot) == Some(v@),
            ops_view(r.ops@) == pop_plan(idx, *slot),
    {
        let mut ops: Vec<Op> = Vec::new();
        match slot {
            Slot::Missing => {},
            _ => {
                ops.push(Op::Remove(idx));
            },
        }
        assert(ops_view(ops@) =~= pop_plan(idx, *slot));
        Popped { value: decode(slot), ops }
    }

    /// The calls that bind a value to a global name, in place of what the
    /// name was bound to. A name that the engine cannot be handed is a fatal
    /// error, and so is a value with an array of more items than the engine
    /// can index.
    pub fn set_global_value(&self, name: &str, rval: &Value) -> (r: Vec<Op>)
        ensures
            ops_view(r@) == if !encodable(name@) {
                fatal_plan(name_unencodable())
            } else if !pushable(*rval) {
                fatal_plan(value_unpushable())
            } else {
                store_plan(cesu8_encoding(name@), *rval)
            },
            encodable(name@) && pushable(*rval) ==> transcodable(*rval),
    {
        let key = match to_engine_bytes(name) {
            Ok(bytes) => bytes,
            Err(_) => {
                return fatal("name cannot be encoded");
            },
        };
        let mut ops: Vec<Op> = Vec::new();
        assert(ops_view(ops@) =~= Seq::<OpView>::empty());
        match push_into(rval, &mut ops) {
            Ok(()) => {},
            Err(_) => {
                return fatal("value cannot be pushed");
            },
        }
        ops.push(Op::RequireStack(1));
        ops.push(Op::PutGlobalLString(key));
        assert(ops_view(ops@) =~= store_plan(cesu8_encoding(name@), *rval));
        ops
    }

    /// The calls that push what a global name is bound to, for
    /// `read_global` to take; `None` where the engine cannot be handed the
    /// name.
    pub fn get_global_value(&self, name: &str) -> (r: Option<Vec<Op>>)
        ensures
            r is Some <==> encodable(name@),
            r matches Some(ops) ==> ops_view(ops@) == fetch_plan(cesu8_encoding(name@)),
    {
        match to_engine_bytes(name) {
            Ok(key) => {
                let mut ops: Vec<Op> = Vec::new();
                ops.push(Op::RequireStack(1));
                ops.push(Op::GetGlobalLString(key));
                assert(ops_view(ops@) =~= fetch_plan(cesu8_encoding(name@)));
                Some(ops)
            },
            Err(_) => None,
        }
    }

    /// Takes what `get_global_value` had pushed, given what its slot holds:
    /// the value of the global, and none where the global is undefined.
    pub fn read_global(&self, slot: &Slot) -> (r: Popped)
        ensures
            r.value is Some <==> global_value(*slot) is Some,
            r.value matches Some(v) ==> global_value(*slot) == Some(v@),
            ops_view(r.ops@) == pop_plan(TOP, *slot),
    {
        let popped = self.pop_value(slot);
        match popped.value {
            Some(Value::Absent) => Popped { value: None, ops: popped.ops },
            other => Popped { value: other, ops: popped.ops },
        }
    }

    /// The calls that make a native function of a callback and bind it to a
    /// global name, in place of what the name was bound to. The callback goes
    /// into the registry, and its handle onto the function object. A name
    /// that the engine cannot be handed is a fatal error, and so is a
    /// registry without a handle left: the callback is dropped then, and
    /// never called.
    pub fn set_global_function<C>(&self, name: &str, func: C, callbacks: &mut Registry<C>) -> (r:
        Vec<Op>)
        ensures
            if !encodable(name@) {
                *final(callbacks) == *old(callbacks) && ops_view(r@) == fatal_plan(
                    name_unencodable(),
                )
            } else if old(callbacks).issued() >= u64::MAX {
                *final(callbacks) == *old(callbacks) && ops_view(r@) == fatal_plan(no_handle())
            } else {
                &&& final(callbacks).issued() == old(callbacks).issued() + 1
                &&& final(callbacks)@ == old(callbacks)@.insert(
                    final(callbacks).issued() as u64,
                    func,
                )
                &&& ops_view(r@) == function_plan(
                    cesu8_encoding(name@),
                    final(callbacks).issued() as u64,
                )
            },
    {
        let key = match to_engine_bytes(name) {
            Ok(bytes) => bytes,
            Err(_) => {
                return fatal("name cannot be encoded");
            },
        };
        let handle = match callbacks.insert(func) {
            Ok(handle) => handle,
            Err(_) => {
                return fatal("no handle is left");
            },
        };
        let mut ops: Vec<Op> = Vec::new();
        ops.push(Op::RequireStack(2));
        ops.push(Op::PushNative(Trampoline::Function));
        ops.push(Op::PushPointer(handle));
        ops.push(Op::PutPropHidden(CONTAINER, Hidden::Func));
        ops.push(Op::PushNative(Trampoline::Finalizer(Hidden::Func)));
        ops.push(Op::SetFinalizer(CONTAINER));
        ops.push(Op::PutGlobalLString(key));
        assert(ops_view(ops@) =~= function_plan(cesu8_encoding(name@), handle));
        ops
    }

    /// The calls that make a native object of a template and bind it to a
    /// global name. The template is used up: its constructor and its methods
    /// go into the registries, the method added last first, and their handles
    /// onto the function objects. Where the template cannot be registered
    /// (`object_fault`) the error is fatal, and nothing is taken out of the
    /// template or registered.
    pub fn set_global_object<C, M>(
        &self,
        name: &str,
        object: &mut Object<C, M>,
        constructors: &mut Registry<C>,
        methods: &mut Registry<M>,
    ) -> (r: Vec<Op>)
        ensures
            match object_fault(
                name@,
                old(object).constructor() is Some,
                old(object).methods(),
                old(constructors).issued(),
                old(methods).issued(),
            ) {
                Some(message) => {
                    &&& ops_view(r@) == fatal_plan(message)
                    &&& final(object).constructor() == old(object).constructor()
                    &&& final(object).methods() == old(object).methods()
                    &&& *final(constructors) == *old(constructors)
                    &&& *final(methods) == *old(methods)
                },
                None => {
                    &&& final(object).constructor() is None
                    &&& final(object).methods().len() == 0
                    &&& final(constructors).issued() == old(constructors).issued() + 1
                    &&& final(constructors)@ == old(constructors)@.insert(
                        final(constructors).issued() as u64,
                        old(object).constructor()->0,
                    )
                    &&& final(methods).issued() == old(methods).issued() + old(
                        object,
                    ).methods().len()
                    &&& final(methods)@ == held_with(
                        old(methods)@,
                        old(object).methods(),
                        old(methods).issued() + 1,
                    )
                    &&& ops_view(r@) == object_plan(
                        cesu8_encoding(name@),
                        final(constructors).issued() as u64,
                        old(object).methods(),
                        old(methods).issued() + 1,
                    )
                },
            },
            old(object).wf() ==> final(object).wf(),
    {
        let key = match to_engine_bytes(name) {
            Ok(bytes) => bytes,
            Err(_) => {
                return fatal("name cannot be encoded");
            },
        };
        if !object.has_constructor() {
            return fatal("No constructor");
        }
        let count = object.len();
        let mut i: usize = 0;
        while i < count
            invariant
                i <= count == object.methods().len(),
                *object == *old(object),
                *constructors == *old(constructors),
                *methods == *old(methods),
                encodable(name@),
                object.constructor() is Some,
                forall|j: int| 0 <= j < i ==> encodable((#[trigger] object.methods()[j]).0@),
            decreases count - i,
        {
            match to_engine_bytes(object.method_name(i).as_str()) {
                Ok(_) => {},
                Err(_) => {
                    assert(!encodable(object.methods()[i as int].0@));
                    return fatal("name cannot be encoded");
                },
            }
            i = i + 1;
        }
        assert(names_encodable(object.methods()));
        if constructors.room() == 0 || methods.room() < count as u64 {
            return fatal("no handle is left");
        }
        let constructor = match object.take_constructor() {
            Some(constructor) => constructor,
            None => {
                return fatal("No constructor");
            },
        };
        let handle = match constructors.insert(constructor) {
            Ok(handle) => handle,
            Err(_) => {
                return fatal("no handle is left");
            },
        };
        let mut ops: Vec<Op> = Vec::new();
        ops.push(Op::RequireStack(4));
        ops.push(Op::PushNative(Trampoline::Constructor));
        ops.push(Op::PushPointer(handle));
        ops.push(Op::PutPropHidden(CONTAINER, Hidden::Ctor));
        ops.push(Op::PushNative(Trampoline::Finalizer(Hidden::Ctor)));
        ops.push(Op::SetFinalizer(CONTAINER));
        ops.push(Op::PushObject);
        let ghost all = old(object).methods();
        let ghost first = old(methods).issued() + 1;
        let ghost head = ops_view(ops@);
        assert(head =~= constructor_plan(handle));
        loop
            invariant
                object.constructor() is None,
                object.methods().len() <= all.len(),
                names_encodable(object.methods()),
                methods.issued() + object.methods().len() == first - 1 + all.len() <= u64::MAX,
                held_with(methods@, object.methods(), methods.issued() + 1) == held_with(
                    old(methods)@,
                    all,
                    first,
                ),
                ops_view(ops@) + methods_plan(object.methods(), methods.issued() + 1) == head
                    + methods_plan(all, first),
                old(object).wf() ==> object.wf(),
            ensures
                object.methods().len() == 0,
            decreases object.methods().len(),
        {
            let ghost remaining = object.methods();
            let ghost before = ops_view(ops@);
            match object.next() {
                None => {
                    break ;
                },
                Some((method_name, method)) => {
                    proof {
                        assert(remaining[remaining.len() - 1] == (method_name, method));
                        assert forall|j: int| 0 <= j < object.methods().len() implies encodable(
                            (#[trigger] object.methods()[j]).0@,
                        ) by {
                            assert(object.methods()[j] == remaining[j]);
                        }
                    }
                    let method_handle = match methods.insert(method) {
                        Ok(handle) => handle,
                        Err(_) => {
                            assert(false);
                            0
                        },
                    };
                    let method_key = match to_engine_bytes(method_name.as_str()) {
                        Ok(bytes) => bytes,
                        Err(_) => {
                            assert(false);
                            Vec::new()
                        },
                    };
                    ops.push(Op::PushNative(Trampoline::Method));
                    ops.push(Op::PushPointer(method_handle));
                    ops.push(Op::PutPropHidden(CONTAINER, Hidden::Meth));
                    ops.push(Op::PushNative(Trampoline::Finalizer(Hidden::Meth)));
                    ops.push(Op::SetFinalizer(CONTAINER));
                    ops.push(Op::PutPropLString(CONTAINER, method_key));
                    proof {
                        assert(ops_view(ops@) =~= before + method_plan(
                            cesu8_encoding(method_name@),
                            method_handle,
                        ));
                        assert(ops_view(ops@) + methods_plan(
                            object.methods(),
                            methods.issued() + 1,
                        ) =~= before + methods_plan(remaining, method_handle as nat));
                    }
                },
            }
        }
        let ghost filled = ops_view(ops@);
        ops.push(Op::PutPrototype(CONTAINER));
        ops.push(Op::PutGlobalLString(key));
        proof {
            assert(filled + methods_plan(object.methods(), methods.issued() + 1) =~= filled);
            assert(ops_view(ops@) =~= filled + seq![
                OpView::PutPrototype(CONTAINER),
                OpView::PutGlobalLString(cesu8_encoding(name@)),
            ]);
        }
        ops
    }

    /// The call that runs a script, compiled as `script_flags` says. An error
    /// where the script holds a zero byte, which a C string cannot.
    pub fn eval(&self, str_val: &str) -> (r: Result<Vec<Op>, Error>)
        ensures
            r is Ok <==> !str_val.spec_bytes().contains(0u8),
            r matches Ok(ops) ==> ops_view(ops@) == seq![
                OpView::Eval(str_val.spec_bytes(), script_flags()),
            ],
    {
        let source = str_val.as_bytes_vec();
        if has_zero(&source) {
            return Err(Error::new("script holds a zero byte"));
        }
        let mut ops: Vec<Op> = Vec::new();
        let flags = CompileFlags { eval: true, no_source: true, no_result: true, no_filename: true };
        ops.push(Op::Eval(source, flags));
        assert(ops_view(ops@) =~= seq![OpView::Eval(str_val.spec_bytes(), script_flags())]);
        Ok(ops)
    }
}

} // verus!
