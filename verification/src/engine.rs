//! The engine as the library sees it: the calls that it can be asked to make,
//! what can be read from its stack, and a model of what the calls do.

use crate::number::Number;
use vstd::prelude::*;

verus! {

/// The reserved property names under which the host keeps its own data on
/// engine objects. They are not enumerable and no script can spell them.
#[derive(Debug, Clone, Copy, PartialEq, Eq, Structural)]
pub enum Hidden {
    /// The callback of a native function.
    Func,
    /// The constructor callback of a native object.
    Ctor,
    /// The callback of a native method.
    Meth,
    /// The user data of one instance of a native object.
    Udata,
}

impl Hidden {
    /// The bytes of the reserved name: the byte 0xFF, which no text the
    /// engine is handed begins with, and the name.
    pub open spec fn key_bytes(self) -> Seq<u8> {
        match self {
            Hidden::Func => seq![0xFFu8, 0x66, 0x75, 0x6E, 0x63],
            Hidden::Ctor => seq![0xFFu8, 0x63, 0x74, 0x6F, 0x72],
            Hidden::Meth => seq![0xFFu8, 0x6D, 0x65, 0x74, 0x68],
            Hidden::Udata => seq![0xFFu8, 0x75, 0x64, 0x61, 0x74, 0x61],
        }
    }

    /// The bytes of the reserved name.
    pub fn key(self) -> (r: Vec<u8>)
        ensures
            r@ == self.key_bytes(),
    {
        let mut bytes: Vec<u8> = Vec::new();
        bytes.push(0xFF);
        match self {
            Hidden::Func => {
                bytes.push(0x66);
                bytes.push(0x75);
                bytes.push(0x6E);
                bytes.push(0x63);
            },
            Hidden::Ctor => {
                bytes.push(0x63);
                bytes.push(0x74);
                bytes.push(0x6F);
                bytes.push(0x72);
            },
            Hidden::Meth => {
                bytes.push(0x6D);
                bytes.push(0x65);
                bytes.push(0x74);
                bytes.push(0x68);
            },
            Hidden::Udata => {
                bytes.push(0x75);
                bytes.push(0x64);
                bytes.push(0x61);
                bytes.push(0x74);
                bytes.push(0x61);
            },
        }
        assert(bytes@ =~= self.key_bytes());
        bytes
    }

    /// Reserved names that differ have bytes that differ, and all begin
    /// with 0xFF.
    pub proof fn lemma_keys_are_apart(self, other: Hidden)
        ensures
            self.key_bytes()[0] == 0xFF,
            self != other ==> self.key_bytes() != other.key_bytes(),
    {
        if self != other {
            assert(self.key_bytes()[1] != other.key_bytes()[1]);
        }
    }
}

/// The native entry points that the engine calls back into.
#[derive(Debug, Clone, Copy, PartialEq, Eq, Structural)]
pub enum Trampoline {
    /// Entry of a native function, taking any number of arguments.
    Function,
    /// Entry of a native constructor, taking any number of arguments.
    Constructor,
    /// Entry of a native method, taking any number of arguments.
    Method,
    /// Called once with an object that is about to be freed; the reserved
    /// name is the one under which the object holds a handle.
    Finalizer(Hidden),
}

/// How the engine is to compile a script.
#[derive(Debug, Clone, Copy, PartialEq, Eq, Structural)]
pub struct CompileFlags {
    /// Compile as a program whose last expression is its value, not as a
    /// function body.
    pub eval: bool,
    /// Do not keep the source text once it is compiled.
    pub no_source: bool,
    /// Leave no result on the stack.
    pub no_result: bool,
    /// Take no file name from the stack for error messages.
    pub no_filename: bool,
}

/// One call into the engine. Stack indices count from the bottom where they
/// are not negative and from the top where they are: -1 is the top.
#[derive(Debug, PartialEq, Eq)]
pub enum Op {
    /// Make sure that this many values can still be pushed.
    RequireStack(u32),
    PushUndefined,
    PushBoolean(bool),
    PushNumber(Number),
    /// Push a string, given as the engine's bytes.
    PushLString(Vec<u8>),
    /// Push a new empty array.
    PushArray,
    /// Push a new empty object.
    PushObject,
    /// Push a handle of the host's own.
    PushPointer(u64),
    /// Push a new function object that enters the host at the trampoline.
    PushNative(Trampoline),
    /// Push the object that a method or constructor was called on.
    PushThis,
    /// Push the function object that is running.
    PushCallee,
    /// Push what the object in the slot holds under the reserved name,
    /// undefined where it holds nothing.
    GetPropHidden(i32, Hidden),
    /// Pop a value and store it, under the index, on the object in the slot.
    PutPropIndex(i32, u32),
    /// Pop a value and store it, under the key, on the object in the slot.
    PutPropLString(i32, Vec<u8>),
    /// Pop a value and store it, under the reserved name, on the object in the slot.
    PutPropHidden(i32, Hidden),
    /// Pop an object and make it the `prototype` property of the function in the slot.
    PutPrototype(i32),
    /// Pop a function and make it the finalizer of the object in the slot.
    SetFinalizer(i32),
    /// Pop a value and bind it to the global name.
    PutGlobalLString(Vec<u8>),
    /// Push what the global name is bound to, undefined where it is not bound.
    GetGlobalLString(Vec<u8>),
    /// Take the slot out of the stack.
    Remove(i32),
    /// Compile and run a script.
    Eval(Vec<u8>, CompileFlags),
    /// Push a string that describes the state of the stack.
    PushContextDump,
    /// Report an unrecoverable error; the process ends.
    Fatal(String),
    /// Free the heap and everything in it.
    DestroyHeap,
}

/// An [`Op`] with its bytes and text as sequences.
pub enum OpView {
    RequireStack(u32),
    PushUndefined,
    PushBoolean(bool),
    PushNumber(u64),
    PushLString(Seq<u8>),
    PushArray,
    PushObject,
    PushPointer(u64),
    PushNative(Trampoline),
    PushThis,
    PushCallee,
    GetPropHidden(i32, Hidden),
    PutPropIndex(i32, u32),
    PutPropLString(i32, Seq<u8>),
    PutPropHidden(i32, Hidden),
    PutPrototype(i32),
    SetFinalizer(i32),
    PutGlobalLString(Seq<u8>),
    GetGlobalLString(Seq<u8>),
    Remove(i32),
    Eval(Seq<u8>, CompileFlags),
    PushContextDump,
    Fatal(Seq<char>),
    DestroyHeap,
}

impl View for Op {
    type V = OpView;

    open spec fn view(&self) -> OpView {
        match *self {
            Op::RequireStack(n) => OpView::RequireStack(n),
            Op::PushUndefined => OpView::PushUndefined,
            Op::PushBoolean(b) => OpView::PushBoolean(b),
            Op::PushNumber(n) => OpView::PushNumber(n.bits),
            Op::PushLString(bytes) => OpView::PushLString(bytes@),
            Op::PushArray => OpView::PushArray,
            Op::PushObject => OpView::PushObject,
            Op::PushPointer(p) => OpView::PushPointer(p),
            Op::PushNative(t) => OpView::PushNative(t),
            Op::PushThis => OpView::PushThis,
            Op::PushCallee => OpView::PushCallee,
            Op::GetPropHidden(slot, name) => OpView::GetPropHidden(slot, name),
            Op::PutPropIndex(slot, index) => OpView::PutPropIndex(slot, index),
            Op::PutPropLString(slot, key) => OpView::PutPropLString(slot, key@),
            Op::PutPropHidden(slot, name) => OpView::PutPropHidden(slot, name),
            Op::PutPrototype(slot) => OpView::PutPrototype(slot),
            Op::SetFinalizer(slot) => OpView::SetFinalizer(slot),
            Op::PutGlobalLString(name) => OpView::PutGlobalLString(name@),
            Op::GetGlobalLString(name) => OpView::GetGlobalLString(name@),
            Op::Remove(slot) => OpView::Remove(slot),
            Op::Eval(source, flags) => OpView::Eval(source@, flags),
            Op::PushContextDump => OpView::PushContextDump,
            Op::Fatal(message) => OpView::Fatal(message@),
            Op::DestroyHeap => OpView::DestroyHeap,
        }
    }
}

/// The calls of a plan, each by its view.
pub open spec fn ops_view(ops: Seq<Op>) -> Seq<OpView> {
    Seq::new(ops.len(), |i: int| ops[i]@)
}

/// A value as the engine holds it.
pub enum Cell {
    Undefined,
    Null,
    Boolean(bool),
    Number(u64),
    /// A string, by the engine's bytes.
    Text(Seq<u8>),
    /// An array, by its elements.
    Array(Seq<Cell>),
    /// A plain object, by its enumerable properties.
    Object(Map<Seq<u8>, Cell>),
    /// A handle of the host's own.
    Pointer(u64),
    /// A function object that enters the host: where it enters, what it
    /// holds under reserved names, the properties of its `prototype`, and
    /// whether a finalizer is set on it.
    Native {
        entry: Trampoline,
        hidden: Map<Hidden, Cell>,
        prototype: Map<Seq<u8>, Cell>,
        finalizer: bool,
    },
    /// The object that the running call was made on.
    This,
    /// An enumerator of the members of an object, by the members that it has
    /// yet to give, each with its key.
    Enumerator(Seq<(Seq<u8>, Cell)>),
    /// Anything else.
    Other,
}

/// The part of an engine's state that values pass through.
pub struct Engine {
    /// The value stack, bottom first.
    pub stack: Seq<Cell>,
    /// How many values can be pushed before the stack must grow.
    pub reserve: nat,
    /// The properties of the global object.
    pub globals: Map<Seq<u8>, Cell>,
    /// What the object that the running call was made on holds under
    /// reserved names.
    pub this: Map<Hidden, Cell>,
    /// Whether a finalizer is set on that object.
    pub this_finalizer: bool,
    /// The function object that is running.
    pub callee: Cell,
}

/// The position, from the bottom, of the slot that a stack index names, if
/// there is such a slot in a stack of the given depth.
pub open spec fn resolve(index: i32, depth: nat) -> Option<int> {
    if 0 <= index < depth {
        Some(index as int)
    } else if index < 0 && depth + index >= 0 {
        Some(depth + index)
    } else {
        None
    }
}

impl Engine {
    /// The engine after one more value was pushed, if there is room for it.
    pub open spec fn push(self, cell: Cell) -> Option<Engine> {
        if self.reserve >= 1 {
            Some(
                Engine {
                    stack: self.stack.push(cell),
                    reserve: (self.reserve - 1) as nat,
                    ..self
                },
            )
        } else {
            None
        }
    }

    /// The engine after the top value was taken off and the slot at
    /// `position` replaced.
    pub open spec fn store(self, position: int, cell: Cell) -> Engine {
        Engine {
            stack: self.stack.drop_last().update(position, cell),
            reserve: self.reserve + 1,
            ..self
        }
    }

    /// What one call does to the engine, as far as it moves values and
    /// builds objects; `None` where the engine would raise an error, or where
    /// the call does something else (runs a script, ends the process).
    pub open spec fn step(self, op: OpView) -> Option<Engine> {
        let depth = self.stack.len();
        match op {
            OpView::RequireStack(n) => Some(
                Engine {
                    reserve: if self.reserve >= n {
                        self.reserve
                    } else {
                        n as nat
                    },
                    ..self
                },
            ),
            OpView::PushUndefined => self.push(Cell::Undefined),
            OpView::PushBoolean(b) => self.push(Cell::Boolean(b)),
            OpView::PushNumber(bits) => self.push(Cell::Number(bits)),
            OpView::PushLString(bytes) => self.push(Cell::Text(bytes)),
            OpView::PushArray => self.push(Cell::Array(Seq::empty())),
            OpView::PushObject => self.push(Cell::Object(Map::empty())),
            OpView::PushPointer(handle) => self.push(Cell::Pointer(handle)),
            OpView::PushNative(entry) => self.push(
                Cell::Native {
                    entry,
                    hidden: Map::empty(),
                    prototype: Map::empty(),
                    finalizer: false,
                },
            ),
            OpView::PushThis => self.push(Cell::This),
            OpView::PushCallee => self.push(self.callee),
            OpView::GetPropHidden(slot, name) => match resolve(slot, depth) {
                Some(position) => match self.stack[position] {
                    Cell::Native { hidden, .. } => if hidden.dom().contains(name) {
                        self.push(hidden[name])
                    } else {
                        self.push(Cell::Undefined)
                    },
                    Cell::This => if self.this.dom().contains(name) {
                        self.push(self.this[name])
                    } else {
                        self.push(Cell::Undefined)
                    },
                    _ => None,
                },
                None => None,
            },
            OpView::PutPropHidden(slot, name) => match resolve(slot, depth) {
                Some(position) => if position < depth - 1 {
                    match self.stack[position] {
                        Cell::Native { entry, hidden, prototype, finalizer } => Some(
                            self.store(
                                position,
                                Cell::Native {
                                    entry,
                                    hidden: hidden.insert(name, self.stack.last()),
                                    prototype,
                                    finalizer,
                                },
                            ),
                        ),
                        Cell::This => Some(
                            Engine {
                                stack: self.stack.drop_last(),
                                reserve: self.reserve + 1,
                                this: self.this.insert(name, self.stack.last()),
                                ..self
                            },
                        ),
                        _ => None,
                    }
                } else {
                    None
                },
                None => None,
            },
            OpView::PutPrototype(slot) => match resolve(slot, depth) {
                Some(position) => if position < depth - 1 {
                    match (self.stack[position], self.stack.last()) {
                        (
                            Cell::Native { entry, hidden, prototype, finalizer },
                            Cell::Object(properties),
                        ) => Some(
                            self.store(
                                position,
                                Cell::Native { entry, hidden, prototype: properties, finalizer },
                            ),
                        ),
                        _ => None,
                    }
                } else {
                    None
                },
                None => None,
            },
            OpView::SetFinalizer(slot) => match resolve(slot, depth) {
                Some(position) => if position < depth - 1 {
                    match (self.stack[position], self.stack.last()) {
                        (
                            Cell::Native { entry, hidden, prototype, finalizer },
                            Cell::Native { entry: Trampoline::Finalizer(_), .. },
                        ) => Some(
                            self.store(
                                position,
                                Cell::Native { entry, hidden, prototype, finalizer: true },
                            ),
                        ),
                        (Cell::This, Cell::Native { entry: Trampoline::Finalizer(_), .. }) => Some(
                            Engine {
                                stack: self.stack.drop_last(),
                                reserve: self.reserve + 1,
                                this_finalizer: true,
                                ..self
                            },
                        ),
                        _ => None,
                    }
                } else {
                    None
                },
                None => None,
            },
            OpView::PutPropIndex(slot, index) => match resolve(slot, depth) {
                Some(position) => if position < depth - 1 {
                    match self.stack[position] {
                        Cell::Array(items) => if index == items.len() {
                            Some(self.store(position, Cell::Array(items.push(self.stack.last()))))
                        } else if index < items.len() {
                            Some(
                                self.store(
                                    position,
                                    Cell::Array(items.update(index as int, self.stack.last())),
                                ),
                            )
                        } else {
                            None
                        },
                        _ => None,
                    }
                } else {
                    None
                },
                None => None,
            },
            OpView::PutPropLString(slot, key) => match resolve(slot, depth) {
                Some(position) => if position < depth - 1 {
                    match self.stack[position] {
                        Cell::Object(properties) => Some(
                            self.store(
                                position,
                                Cell::Object(properties.insert(key, self.stack.last())),
                            ),
                        ),
                        _ => None,
                    }
                } else {
                    None
                },
                None => None,
            },
            OpView::PutGlobalLString(name) => if depth >= 1 {
                Some(
                    Engine {
                        stack: self.stack.drop_last(),
                        reserve: self.reserve + 1,
                        globals: self.globals.insert(name, self.stack.last()),
                        ..self
                    },
                )
            } else {
                None
            },
            OpView::GetGlobalLString(name) => if self.globals.dom().contains(name) {
                self.push(self.globals[name])
            } else {
                self.push(Cell::Undefined)
            },
            OpView::Remove(slot) => match resolve(slot, depth) {
                Some(position) => Some(
                    Engine {
                        stack: self.stack.remove(position),
                        reserve: self.reserve + 1,
                        ..self
                    },
                ),
                None => None,
            },
            _ => None,
        }
    }

    /// What a sequence of calls does, one after the other.
    pub open spec fn run(self, ops: Seq<OpView>) -> Option<Engine>
        decreases ops.len(),
    {
        if ops.len() == 0 {
            Some(self)
        } else {
            match self.step(ops.first()) {
                Some(next) => next.run(ops.drop_first()),
                None => None,
            }
        }
    }
}

/// Running one call is taking one step.
pub proof fn lemma_run_one(e: Engine, op: OpView)
    ensures
        e.run(seq![op]) == e.step(op),
{
    let ops = seq![op];
    assert(ops.drop_first() =~= Seq::<OpView>::empty());
    match e.step(op) {
        Some(next) => {
            assert(next.run(Seq::<OpView>::empty()) == Some(next));
        },
        None => {},
    }
}

/// Running a call and then a plan is taking a step and running the plan.
pub proof fn lemma_run_first(e: Engine, op: OpView, rest: Seq<OpView>)
    ensures
        e.run(seq![op] + rest) == match e.step(op) {
            Some(next) => next.run(rest),
            None => None,
        },
{
    assert((seq![op] + rest).drop_first() =~= rest);
}

/// Running two calls is taking two steps.
pub proof fn lemma_run_pair(e: Engine, first: OpView, second: OpView)
    ensures
        e.run(seq![first, second]) == match e.step(first) {
            Some(mid) => mid.step(second),
            None => None,
        },
{
    assert(seq![first, second] =~= seq![first] + seq![second]);
    lemma_run_first(e, first, seq![second]);
    match e.step(first) {
        Some(mid) => lemma_run_one(mid, second),
        None => {},
    }
}

/// Running one plan after another is running the two in a row.
pub proof fn lemma_run_concat(e: Engine, first: Seq<OpView>, second: Seq<OpView>)
    ensures
        e.run(first + second) == match e.run(first) {
            Some(mid) => mid.run(second),
            None => None,
        },
    decreases first.len(),
{
    if first.len() == 0 {
        assert(first + second =~= second);
    } else {
        assert((first + second).first() == first.first());
        assert((first + second).drop_first() =~= first.drop_first() + second);
        match e.step(first.first()) {
            Some(next) => lemma_run_concat(next, first.drop_first(), second),
            None => {},
        }
    }
}

/// What was read from one stack slot, with all that it holds.
#[derive(Debug, PartialEq, Eq)]
pub enum Slot {
    /// The index names no slot.
    Missing,
    Undefined,
    Null,
    Boolean(bool),
    Number(Number),
    /// A string, by the engine's bytes.
    Text(Vec<u8>),
    /// A handle of the host's own.
    Pointer(u64),
    /// An array, by what its elements hold, in the order of their indices.
    Array(Vec<Slot>),
    /// An object, by its enumerable properties, in the order in which the
    /// engine enumerates them.
    Object(Vec<(Vec<u8>, Slot)>),
    /// A value of any other type.
    Other,
}

/// Whether each element was read from the cell at the same place.
pub open spec fn shows_items(slots: Seq<Slot>, cells: Seq<Cell>) -> bool
    decreases slots, 0nat,
{
    if slots.len() == 0 {
        cells.len() == 0
    } else {
        &&& cells.len() > 0
        &&& shows_items(slots.drop_last(), cells.drop_last())
        &&& shows(slots.last(), cells.last())
    }
}

/// Whether each property was read from the cell under its key.
pub open spec fn shows_properties(slots: Seq<(Vec<u8>, Slot)>, cells: Map<Seq<u8>, Cell>) -> bool
    decreases slots, 0nat,
{
    if slots.len() == 0 {
        true
    } else {
        &&& cells.dom().contains(slots.last().0@)
        &&& shows_properties(slots.drop_last(), cells)
        &&& shows(slots.last().1, cells[slots.last().0@])
    }
}

/// Whether `slot` is what a reader finds in `cell`: the same value, with the
/// properties of an object each listed once, in any order.
pub open spec fn shows(slot: Slot, cell: Cell) -> bool
    decreases slot, 1nat,
{
    match slot {
        Slot::Missing => false,
        Slot::Undefined => cell is Undefined,
        Slot::Null => cell is Null,
        Slot::Boolean(b) => cell == Cell::Boolean(b),
        Slot::Number(n) => cell == Cell::Number(n.bits),
        Slot::Text(bytes) => cell == Cell::Text(bytes@),
        Slot::Pointer(handle) => cell == Cell::Pointer(handle),
        Slot::Array(slots) => cell matches Cell::Array(cells) && shows_items(slots@, cells),
        Slot::Object(slots) => {
            &&& cell matches Cell::Object(cells)
            &&& shows_properties(slots@, cells)
            &&& forall|i: int, j: int|
                0 <= i < j < slots.len() ==> (#[trigger] slots[i]).0@ != (#[trigger] slots[j]).0@
            &&& forall|key: Seq<u8>|
                cells.dom().contains(key) ==> exists|i: int|
                    0 <= i < slots.len() && (#[trigger] slots[i]).0@ == key
        },
        Slot::Other => cell is Other || cell is Native || cell is This || cell is Enumerator,
    }
}

} // verus!
