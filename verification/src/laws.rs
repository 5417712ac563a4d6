//! What holds of the plans when the engine does what the model says.

use crate::bridge::{
    answers, attach_plan, clear_plan, handle_in, is_fatal, locate_plan, release_plan, Holder,
    Outcome, Reply,
};
use crate::engine::{
    lemma_run_concat, lemma_run_first, lemma_run_one, lemma_run_pair, ops_view, resolve, shows, Cell, Engine,
    Hidden, OpView, Slot, Trampoline,
};
use crate::marshal::{
    cell_of, decoded, lemma_plan_pushes, lemma_round_trip, plan, pushable, pushable_entries,
    pushable_items, transcodable, CONTAINER,
};
use crate::rubtle::{
    constructor_plan, fatal_plan, fetch_plan, function_plan, global_value, method_plan,
    methods_plan, object_plan, pop_plan, store_plan, TOP,
};
use crate::transcode::cesu8_encoding;
use crate::value::Value;
use vstd::prelude::*;

verus! {

/// A pop takes exactly one slot off the stack, the one it was aimed at, and
/// leaves the rest as it was, whether or not the slot held a value.
pub proof fn lemma_pop_takes_one(e: Engine, idx: i32, slot: Slot)
    requires
        resolve(idx, e.stack.len()) is Some,
        shows(slot, e.stack[resolve(idx, e.stack.len())->0]),
    ensures
        e.run(pop_plan(idx, slot)) matches Some(after) && {
            &&& after.stack == e.stack.remove(resolve(idx, e.stack.len())->0)
            &&& after.stack.len() == e.stack.len() - 1
            &&& after.globals == e.globals
            &&& after.this == e.this
        },
{
    lemma_run_one(e, OpView::Remove(idx));
}

/// Whether a value is a primitive: neither an array nor an object.
pub open spec fn primitive(v: Value) -> bool {
    !(v is Array) && !(v is Object)
}

proof fn lemma_items_of_primitives(items: Seq<Value>)
    requires
        forall|i: int| 0 <= i < items.len() ==> primitive(#[trigger] items[i]),
    ensures
        pushable_items(items),
    decreases items.len(),
{
    if items.len() > 0 {
        lemma_items_of_primitives(items.drop_last());
        assert(primitive(items.last()));
        assert(pushable(items.last()));
    }
}

proof fn lemma_entries_of_primitives(entries: Seq<(String, Value)>)
    requires
        forall|i: int| 0 <= i < entries.len() ==> primitive((#[trigger] entries[i]).1),
    ensures
        pushable_entries(entries),
    decreases entries.len(),
{
    if entries.len() > 0 {
        lemma_entries_of_primitives(entries.drop_last());
        assert(primitive(entries.last().1));
        assert(pushable(entries.last().1));
    }
}

/// Every primitive can be pushed: the absent value, a boolean, a number and
/// a string, whatever characters the string holds. So can an array of
/// primitives that the engine can index, and an object of primitives,
/// whatever characters its keys hold.
pub proof fn lemma_primitives_can_be_pushed(v: Value)
    requires
        v matches Value::Array(items) ==> items.len() <= u32::MAX && forall|i: int|
            0 <= i < items.len() ==> primitive(#[trigger] items[i]),
        v matches Value::Object(entries) ==> forall|i: int|
            0 <= i < entries.len() ==> primitive((#[trigger] entries[i]).1),
    ensures
        pushable(v),
{
    match v {
        Value::Array(items) => lemma_items_of_primitives(items@),
        Value::Object(entries) => lemma_entries_of_primitives(entries@),
        _ => {},
    }
}

/// What was pushed is what is popped: after the calls that push a value, the
/// slot on top holds that value, and once it is popped the stack is as it was
/// before. This holds of each value that can be pushed, whatever the engine
/// held and in whatever order the properties of an object are read.
pub proof fn lemma_push_then_pop(v: Value, e: Engine, slot: Slot)
    requires
        pushable(v),
        transcodable(v),
        shows(slot, cell_of(v)),
    ensures
        e.run(plan(v)) matches Some(pushed) && pushed.stack.last() == cell_of(v),
        decoded(slot) == Some(v@),
        e.run(plan(v) + pop_plan(TOP, slot)) matches Some(after) && after.stack == e.stack
            && after.globals == e.globals,
{
    lemma_plan_pushes(v, e);
    lemma_round_trip(v, slot);
    let pushed = e.run(plan(v))->0;
    lemma_pop_takes_one(pushed, TOP, slot);
    lemma_run_concat(e, plan(v), pop_plan(TOP, slot));
    assert(pushed.stack.remove(pushed.stack.len() - 1) =~= e.stack);
}

/// A global that was set is the global that is read: after the calls that
/// bind a value to a name, the calls that fetch the name push what stands for
/// the value, and the host reads the value from it. The stack is as it was
/// once the value is popped. (The absent value is left out: a global bound to
/// it reads as not bound at all.)
pub proof fn lemma_global_set_then_get(name: Seq<u8>, v: Value, e: Engine, slot: Slot)
    requires
        pushable(v),
        transcodable(v),
        !(v is Absent),
        shows(slot, cell_of(v)),
    ensures
        e.run(store_plan(name, v)) matches Some(stored) && {
            &&& stored.stack == e.stack
            &&& stored.globals == e.globals.insert(name, cell_of(v))
            &&& stored.run(fetch_plan(name)) matches Some(fetched) && {
                &&& fetched.stack == e.stack.push(cell_of(v))
                &&& fetched.globals == stored.globals
            }
        },
        global_value(slot) == Some(v@),
{
    lemma_plan_pushes(v, e);
    lemma_round_trip(v, slot);
    let pushed = e.run(plan(v))->0;
    let bind = seq![OpView::RequireStack(1), OpView::PutGlobalLString(name)];
    lemma_run_pair(pushed, OpView::RequireStack(1), OpView::PutGlobalLString(name));
    lemma_run_concat(e, plan(v), bind);
    let stored = e.run(store_plan(name, v))->0;
    assert(stored.stack =~= e.stack);
    lemma_run_pair(stored, OpView::RequireStack(1), OpView::GetGlobalLString(name));
}

/// A global that is not bound reads as nothing: the calls that fetch it push
/// undefined, which the host reads as no value.
pub proof fn lemma_global_unset(name: Seq<u8>, e: Engine, slot: Slot)
    requires
        !e.globals.dom().contains(name),
    ensures
        e.run(fetch_plan(name)) matches Some(fetched) && fetched.stack == e.stack.push(
            Cell::Undefined,
        ),
        shows(slot, Cell::Undefined) ==> global_value(slot) is None,
{
    lemma_run_pair(e, OpView::RequireStack(1), OpView::GetGlobalLString(name));
}

/// The function object that stands for a native function: it enters the host
/// at the function entry, holds the handle of its callback, and has a
/// finalizer.
pub open spec fn native_function(handle: u64) -> Cell {
    Cell::Native {
        entry: Trampoline::Function,
        hidden: Map::empty().insert(Hidden::Func, Cell::Pointer(handle)),
        prototype: Map::empty(),
        finalizer: true,
    }
}

/// The function object that stands for a native method.
pub open spec fn native_method(handle: u64) -> Cell {
    Cell::Native {
        entry: Trampoline::Method,
        hidden: Map::empty().insert(Hidden::Meth, Cell::Pointer(handle)),
        prototype: Map::empty(),
        finalizer: true,
    }
}

/// The properties of a prototype once the methods of a template are stored
/// on it, the one added last first, with handles counting up from `first`.
pub open spec fn prototype_with<M>(
    properties: Map<Seq<u8>, Cell>,
    methods: Seq<(String, M)>,
    first: nat,
) -> Map<Seq<u8>, Cell>
    decreases methods.len(),
{
    if methods.len() == 0 {
        properties
    } else {
        prototype_with(
            properties.insert(cesu8_encoding(methods.last().0@), native_method(first as u64)),
            methods.drop_last(),
            first + 1,
        )
    }
}

/// The function object that stands for a native object: it enters the host
/// at the constructor entry, holds the handle of the constructor callback,
/// has a finalizer, and has the given properties on its prototype.
pub open spec fn native_constructor(constructor: u64, prototype: Map<Seq<u8>, Cell>) -> Cell {
    Cell::Native {
        entry: Trampoline::Constructor,
        hidden: Map::empty().insert(Hidden::Ctor, Cell::Pointer(constructor)),
        prototype,
        finalizer: true,
    }
}

/// The function object that stands for a native object with the methods of
/// a template.
pub open spec fn native_object<M>(constructor: u64, methods: Seq<(String, M)>, first: nat) -> Cell {
    native_constructor(constructor, prototype_with(Map::empty(), methods, first))
}

/// The plan of a native function binds the name to a function object with
/// the handle and a finalizer, and leaves the stack as it was.
pub proof fn lemma_function_plan_binds(name: Seq<u8>, handle: u64, e: Engine)
    ensures
        e.run(function_plan(name, handle)) matches Some(after) && {
            &&& after.stack == e.stack
            &&& after.globals == e.globals.insert(name, native_function(handle))
            &&& after.this == e.this
        },
{
    reveal_with_fuel(Engine::run, 8);
    let after = e.run(function_plan(name, handle))->0;
    assert(after.stack =~= e.stack);
    assert(after.globals.dom().contains(name));
    assert(after.globals[name]->Native_hidden =~= native_function(handle)->Native_hidden);
}

/// With a prototype on top of the stack, the calls of `method_plan` store
/// one more method on it.
proof fn lemma_method_plan_stores(
    name: Seq<u8>,
    handle: u64,
    below: Seq<Cell>,
    properties: Map<Seq<u8>, Cell>,
    e: Engine,
)
    requires
        e.stack == below.push(Cell::Object(properties)),
        e.reserve >= 2,
    ensures
        e.run(method_plan(name, handle)) matches Some(after) && {
            &&& after.stack == below.push(
                Cell::Object(properties.insert(name, native_method(handle))),
            )
            &&& after.reserve == e.reserve
            &&& after.globals == e.globals
            &&& after.this == e.this
            &&& after.this_finalizer == e.this_finalizer
        },
{
    reveal_with_fuel(Engine::run, 7);
    let one = method_plan(name, handle);
    let made = e.step(one[0])->0.step(one[1])->0.step(one[2])->0.step(one[3])->0.step(one[4])->0;
    assert(made.stack.last()->Native_hidden =~= native_method(handle)->Native_hidden);
    let after = e.run(one)->0;
    assert(after.stack =~= below.push(Cell::Object(properties.insert(name, native_method(handle)))));
}

/// With a prototype on top of the stack that holds some methods, the calls of
/// `methods_plan` leave it holding the further ones as well.
proof fn lemma_methods_plan_fills<M>(
    methods: Seq<(String, M)>,
    first: nat,
    below: Seq<Cell>,
    properties: Map<Seq<u8>, Cell>,
    e: Engine,
)
    requires
        e.stack == below.push(Cell::Object(properties)),
        e.reserve >= 2,
    ensures
        e.run(methods_plan(methods, first)) matches Some(after) && {
            &&& after.stack == below.push(Cell::Object(prototype_with(properties, methods, first)))
            &&& after.reserve == e.reserve
            &&& after.globals == e.globals
            &&& after.this == e.this
            &&& after.this_finalizer == e.this_finalizer
        },
    decreases methods.len(),
{
    if methods.len() > 0 {
        let name = cesu8_encoding(methods.last().0@);
        let one = method_plan(name, first as u64);
        lemma_method_plan_stores(name, first as u64, below, properties, e);
        let mid = e.run(one)->0;
        lemma_methods_plan_fills(
            methods.drop_last(),
            first + 1,
            below,
            properties.insert(name, native_method(first as u64)),
            mid,
        );
        lemma_run_concat(e, one, methods_plan(methods.drop_last(), first + 1));
    }
}

/// The calls of `constructor_plan` leave the constructor function and an
/// empty prototype on the stack, with room for two more values.
proof fn lemma_constructor_plan_makes(constructor: u64, e: Engine)
    ensures
        e.run(constructor_plan(constructor)) matches Some(after) && {
            &&& after.stack == e.stack.push(native_constructor(constructor, Map::empty())).push(
                Cell::Object(Map::empty()),
            )
            &&& after.reserve >= 2
            &&& after.globals == e.globals
            &&& after.this == e.this
        },
{
    reveal_with_fuel(Engine::run, 8);
    let one = constructor_plan(constructor);
    let made = e.step(one[0])->0.step(one[1])->0.step(one[2])->0.step(one[3])->0;
    assert(made.stack.last()->Native_hidden =~= native_constructor(
        constructor,
        Map::empty(),
    )->Native_hidden);
    let after = e.run(one)->0;
    assert(after.stack =~= e.stack.push(native_constructor(constructor, Map::empty())).push(
        Cell::Object(Map::empty()),
    ));
}

/// The plan of a native object binds the name to a constructor function with
/// the handle of the constructor and the methods on its prototype, and leaves
/// the stack as it was.
pub proof fn lemma_object_plan_binds<M>(
    name: Seq<u8>,
    constructor: u64,
    methods: Seq<(String, M)>,
    first: nat,
    e: Engine,
)
    ensures
        e.run(object_plan(name, constructor, methods, first)) matches Some(after) && {
            &&& after.stack == e.stack
            &&& after.globals == e.globals.insert(
                name,
                native_object(constructor, methods, first),
            )
            &&& after.this == e.this
        },
{
    let head = constructor_plan(constructor);
    let tail = seq![OpView::PutPrototype(CONTAINER), OpView::PutGlobalLString(name)];
    lemma_constructor_plan_makes(constructor, e);
    let made = e.run(head)->0;
    let function = native_constructor(constructor, Map::empty());
    lemma_methods_plan_fills(methods, first, e.stack.push(function), Map::empty(), made);
    let filled = made.run(methods_plan(methods, first))->0;
    lemma_run_pair(filled, OpView::PutPrototype(CONTAINER), OpView::PutGlobalLString(name));
    let after = filled.run(tail)->0;
    assert(after.stack =~= e.stack);
    lemma_run_concat(e, head, methods_plan(methods, first));
    lemma_run_concat(e, head + methods_plan(methods, first), tail);
}

/// The first calls of `attach_plan` store the handle on the object that the
/// call was made on.
proof fn lemma_attach_plan_first(handle: u64, e: Engine)
    ensures
        e.run(attach_plan(handle).subrange(0, 4)) matches Some(after) && {
            &&& after.stack == e.stack.push(Cell::This)
            &&& after.reserve >= 1
            &&& after.globals == e.globals
            &&& after.this == e.this.insert(Hidden::Udata, Cell::Pointer(handle))
        },
{
    reveal_with_fuel(Engine::run, 5);
    let first = attach_plan(handle).subrange(0, 4);
    let after = e.run(first)->0;
    assert(after.stack =~= e.stack.push(Cell::This));
}

/// The last calls of `attach_plan` set the finalizer and take the object off
/// the stack.
proof fn lemma_attach_plan_last(handle: u64, below: Seq<Cell>, e: Engine)
    requires
        e.stack == below.push(Cell::This),
        e.reserve >= 1,
    ensures
        e.run(attach_plan(handle).subrange(4, 7)) matches Some(after) && {
            &&& after.stack == below
            &&& after.globals == e.globals
            &&& after.this == e.this
            &&& after.this_finalizer
        },
{
    reveal_with_fuel(Engine::run, 4);
    let last = attach_plan(handle).subrange(4, 7);
    let after = e.run(last)->0;
    assert(after.stack =~= below);
}

/// The plan that attaches user data stores its handle on the object that the
/// call was made on, sets a finalizer on it, and leaves the stack as it was.
pub proof fn lemma_attach_plan_stores(handle: u64, e: Engine)
    ensures
        e.run(attach_plan(handle)) matches Some(after) && {
            &&& after.stack == e.stack
            &&& after.globals == e.globals
            &&& after.this == e.this.insert(Hidden::Udata, Cell::Pointer(handle))
            &&& after.this_finalizer
        },
{
    let all = attach_plan(handle);
    assert(all =~= all.subrange(0, 4) + all.subrange(4, 7));
    lemma_attach_plan_first(handle, e);
    let mid = e.run(all.subrange(0, 4))->0;
    lemma_attach_plan_last(handle, e.stack, mid);
    lemma_run_concat(e, all.subrange(0, 4), all.subrange(4, 7));
}

/// The plan that clears a handle leaves undefined under the reserved name on
/// the object in the first slot, and the stack at its depth.
pub proof fn lemma_clear_plan_clears(name: Hidden, e: Engine)
    requires
        e.stack.len() >= 1,
        e.stack[0] is Native || e.stack[0] is This,
    ensures
        e.run(clear_plan(name)) matches Some(after) && {
            &&& after.stack.len() == e.stack.len()
            &&& after.globals == e.globals
            &&& match e.stack[0] {
                Cell::Native { entry, hidden, prototype, finalizer } => {
                    &&& after.stack == e.stack.update(
                        0,
                        Cell::Native {
                            entry,
                            hidden: hidden.insert(name, Cell::Undefined),
                            prototype,
                            finalizer,
                        },
                    )
                    &&& after.this == e.this
                },
                _ => after.stack == e.stack && after.this == e.this.insert(name, Cell::Undefined),
            }
        },
{
    reveal_with_fuel(Engine::run, 4);
    let after = e.run(clear_plan(name))->0;
    match e.stack[0] {
        Cell::Native { entry, hidden, prototype, finalizer } => {
            assert(after.stack =~= e.stack.update(
                0,
                Cell::Native {
                    entry,
                    hidden: hidden.insert(name, Cell::Undefined),
                    prototype,
                    finalizer,
                },
            ));
        },
        _ => {
            assert(after.stack =~= e.stack);
        },
    }
}

/// What was stored is what is found: while a native function, constructor or
/// method runs, the calls that look for its handle push the handle that its
/// function object holds, a reader finds that handle in the slot on top, and
/// the stack is as it was once what was pushed is taken off again.
pub proof fn lemma_locate_finds_callee(name: Hidden, handle: u64, e: Engine, slot: Slot)
    requires
        e.callee matches Cell::Native { hidden, .. } && hidden.dom().contains(name) && hidden[name]
            == Cell::Pointer(handle),
        shows(slot, Cell::Pointer(handle)),
    ensures
        e.run(locate_plan(Holder::Callee, name)) matches Some(found) && {
            &&& found.stack == e.stack.push(e.callee).push(Cell::Pointer(handle))
            &&& found.run(release_plan(Holder::Callee)) matches Some(after) && after.stack
                == e.stack
        },
        handle_in(slot) == handle,
{
    let reserve = OpView::RequireStack(2);
    let fetch = OpView::GetPropHidden(TOP, name);
    assert(locate_plan(Holder::Callee, name) =~= seq![reserve] + seq![OpView::PushCallee, fetch]);
    lemma_run_first(e, reserve, seq![OpView::PushCallee, fetch]);
    lemma_run_pair(e.step(reserve)->0, OpView::PushCallee, fetch);
    let found = e.run(locate_plan(Holder::Callee, name))->0;
    lemma_run_pair(found, OpView::Remove(TOP), OpView::Remove(TOP));
    assert(found.stack =~= e.stack.push(e.callee).push(Cell::Pointer(handle)));
    let after = found.run(release_plan(Holder::Callee))->0;
    assert(after.stack =~= e.stack);
}

/// The same of the user data of an instance: while a method runs, the calls
/// that look for the handle of the user data push the handle that was
/// attached to the instance.
pub proof fn lemma_locate_finds_this(name: Hidden, handle: u64, e: Engine, slot: Slot)
    requires
        e.this.dom().contains(name),
        e.this[name] == Cell::Pointer(handle),
        shows(slot, Cell::Pointer(handle)),
    ensures
        e.run(locate_plan(Holder::This, name)) matches Some(found) && {
            &&& found.stack == e.stack.push(Cell::This).push(Cell::Pointer(handle))
            &&& found.run(release_plan(Holder::This)) matches Some(after) && after.stack
                == e.stack
        },
        handle_in(slot) == handle,
{
    let reserve = OpView::RequireStack(2);
    let fetch = OpView::GetPropHidden(TOP, name);
    assert(locate_plan(Holder::This, name) =~= seq![reserve] + seq![OpView::PushThis, fetch]);
    lemma_run_first(e, reserve, seq![OpView::PushThis, fetch]);
    lemma_run_pair(e.step(reserve)->0, OpView::PushThis, fetch);
    let found = e.run(locate_plan(Holder::This, name))->0;
    lemma_run_pair(found, OpView::Remove(TOP), OpView::Remove(TOP));
    assert(found.stack =~= e.stack.push(Cell::This).push(Cell::Pointer(handle)));
    let after = found.run(release_plan(Holder::This))->0;
    assert(after.stack =~= e.stack);
}

/// Instances are apart: a call of a method takes the user data of its own
/// instance out of the registry and puts it back, changed or not, and a
/// construction adds user data under the next handle. Neither touches what
/// the registry holds under the handle of another instance.
pub proof fn lemma_instances_are_apart<T>(
    held: Map<u64, Option<T>>,
    issued: nat,
    instance: u64,
    other: u64,
    left: Option<T>,
    fresh: Option<T>,
)
    requires
        instance != other,
        held.dom().contains(other),
        forall|handle: u64| #[trigger] held.dom().contains(handle) ==> 1 <= handle <= issued,
        issued < u64::MAX,
    ensures
        held.remove(instance).insert(instance, left).dom().contains(other),
        held.remove(instance).insert(instance, left)[other] == held[other],
        (issued + 1) as u64 != other,
        held.insert((issued + 1) as u64, fresh)[other] == held[other],
{
}

/// A panic never gets past the boundary: whatever the callback was to
/// return, the reply to a panic is the one call that reports the fatal
/// error. Nothing is pushed or popped, and the engine takes no further call.
pub proof fn lemma_panic_is_fatal(reply: Reply, failure: i32, message: Seq<char>, e: Engine)
    requires
        answers(reply, Outcome::Panicked, failure, message),
    ensures
        is_fatal(reply, message),
        ops_view(reply.ops@) == fatal_plan(message),
        e.run(ops_view(reply.ops@)) is None,
{
    lemma_run_one(e, OpView::Fatal(message));
}

/// Turning a value into text gives a text for the absent value, for every
/// boolean, every number and every string, and none for an array or an
/// object.
pub proof fn lemma_text_of_scalars(v: Value)
    ensures
        v is Absent || v is Boolean || v is Number || v is Str <==> v.text() is Some,
        v is Array || v is Object <==> v.text() is None,
{
}

} // verus!
