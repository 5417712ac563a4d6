use rubtle_lib::debug::{context_dump, debug_stack};
use rubtle_lib::engine::{Hidden, Op, Slot, Trampoline};
use rubtle_lib::reader::{slot_of, Ask, Reader, Seen, Step, Told};
use rubtle_lib::registry::Registry;
use rubtle_lib::bridge::{fatal_handler, Holder, Outcome, Reply};
use rubtle_lib::{CallbackResult, Error, Invocation, Number, Object, ObjectBuilder, Rubtle, Value};

// A stand-in for the engine: a stack of cells and a table of globals, which
// carries out the calls of a plan to the letter and panics where the engine
// would raise an error. It runs no script: where a script is evaluated, the
// test makes the calls or leaves the state that the script stands for.

#[derive(Clone, Debug, PartialEq)]
enum Cell {
    Undefined,
    Null,
    Boolean(bool),
    Number(u64),
    Text(Vec<u8>),
    Array(Vec<Cell>),
    Object(Vec<(Vec<u8>, Cell)>),
    Pointer(u64),
    Native { entry: Trampoline, hidden: Vec<(Hidden, Cell)>, prototype: Vec<(Vec<u8>, Cell)>, finalizer: bool },
    This,
    Enumerator(Vec<(Vec<u8>, Cell)>),
}

fn put<K: PartialEq, V>(entries: &mut Vec<(K, V)>, key: K, value: V) {
    match entries.iter().position(|(k, _)| *k == key) {
        Some(at) => entries[at].1 = value,
        None => entries.push((key, value)),
    }
}

fn find<'a, K: PartialEq, V>(entries: &'a [(K, V)], key: &K) -> Option<&'a V> {
    entries.iter().find(|(k, _)| k == key).map(|(_, v)| v)
}

struct Heap {
    stack: Vec<Cell>,
    reserve: usize,
    globals: Vec<(Vec<u8>, Cell)>,
    this: Vec<(Hidden, Cell)>,
    this_finalizer: bool,
    callee: Cell,
    scripts: Vec<Vec<u8>>,
    fatal: Option<String>,
    destroyed: bool,
}

impl Heap {
    fn new() -> Heap {
        Heap {
            stack: Vec::new(),
            reserve: 0,
            globals: Vec::new(),
            this: Vec::new(),
            this_finalizer: false,
            callee: Cell::Undefined,
            scripts: Vec::new(),
            fatal: None,
            destroyed: false,
        }
    }

    fn resolve(&self, idx: i32) -> Option<usize> {
        let depth = self.stack.len() as i64;
        let at = if idx < 0 { depth + idx as i64 } else { idx as i64 };
        if 0 <= at && at < depth {
            Some(at as usize)
        } else {
            None
        }
    }

    fn push(&mut self, cell: Cell) {
        assert!(self.reserve >= 1, "push without room on the stack");
        self.reserve -= 1;
        self.stack.push(cell);
    }

    fn pop(&mut self) -> Cell {
        self.reserve += 1;
        self.stack.pop().expect("pop from an empty stack")
    }

    fn target(&self, idx: i32) -> usize {
        let at = self.resolve(idx).expect("no such slot");
        assert!(at + 1 < self.stack.len(), "the value itself is no target");
        at
    }

    fn step(&mut self, op: &Op) {
        assert!(!self.destroyed, "call into a heap that was freed");
        assert!(self.fatal.is_none(), "call after a fatal error");
        match op {
            Op::RequireStack(n) => self.reserve = self.reserve.max(*n as usize),
            Op::PushUndefined => self.push(Cell::Undefined),
            Op::PushBoolean(b) => self.push(Cell::Boolean(*b)),
            Op::PushNumber(n) => self.push(Cell::Number(n.to_bits())),
            Op::PushLString(bytes) => self.push(Cell::Text(bytes.clone())),
            Op::PushArray => self.push(Cell::Array(Vec::new())),
            Op::PushObject => self.push(Cell::Object(Vec::new())),
            Op::PushPointer(p) => self.push(Cell::Pointer(*p)),
            Op::PushNative(entry) => {
                self.push(Cell::Native { entry: *entry, hidden: Vec::new(), prototype: Vec::new(), finalizer: false })
            }
            Op::PushThis => self.push(Cell::This),
            Op::PushCallee => self.push(self.callee.clone()),
            Op::GetPropHidden(idx, name) => {
                let at = self.resolve(*idx).expect("no such slot");
                let value = match &self.stack[at] {
                    Cell::Native { hidden, .. } => find(hidden, name).cloned(),
                    Cell::This => find(&self.this, name).cloned(),
                    other => panic!("reserved property read from {:?}", other),
                };
                self.push(value.unwrap_or(Cell::Undefined));
            }
            Op::PutPropIndex(idx, index) => {
                let at = self.target(*idx);
                let value = self.pop();
                match &mut self.stack[at] {
                    Cell::Array(items) => {
                        let index = *index as usize;
                        assert!(index <= items.len(), "array with a hole");
                        if index == items.len() {
                            items.push(value);
                        } else {
                            items[index] = value;
                        }
                    }
                    other => panic!("index stored on {:?}", other),
                }
            }
            Op::PutPropLString(idx, key) => {
                let at = self.target(*idx);
                let value = self.pop();
                match &mut self.stack[at] {
                    Cell::Object(entries) => put(entries, key.clone(), value),
                    other => panic!("property stored on {:?}", other),
                }
            }
            Op::PutPropHidden(idx, name) => {
                let at = self.target(*idx);
                let value = self.pop();
                match &mut self.stack[at] {
                    Cell::Native { hidden, .. } => put(hidden, *name, value),
                    Cell::This => put(&mut self.this, *name, value),
                    other => panic!("reserved property stored on {:?}", other),
                }
            }
            Op::PutPrototype(idx) => {
                let at = self.target(*idx);
                let value = self.pop();
                match (&mut self.stack[at], value) {
                    (Cell::Native { prototype, .. }, Cell::Object(entries)) => *prototype = entries,
                    other => panic!("prototype stored on {:?}", other),
                }
            }
            Op::SetFinalizer(idx) => {
                let at = self.target(*idx);
                let value = self.pop();
                match (&mut self.stack[at], value) {
                    (Cell::Native { finalizer, .. }, Cell::Native { entry: Trampoline::Finalizer(_), .. }) => *finalizer = true,
                    (Cell::This, Cell::Native { entry: Trampoline::Finalizer(_), .. }) => self.this_finalizer = true,
                    other => panic!("finalizer set on {:?}", other),
                }
            }
            Op::PutGlobalLString(name) => {
                let value = self.pop();
                put(&mut self.globals, name.clone(), value);
            }
            Op::GetGlobalLString(name) => {
                let value = find(&self.globals, name).cloned().unwrap_or(Cell::Undefined);
                self.push(value);
            }
            Op::Remove(idx) => {
                let at = self.resolve(*idx).expect("no such slot");
                self.stack.remove(at);
                self.reserve += 1;
            }
            Op::Eval(source, flags) => {
                assert!(flags.eval && flags.no_source && flags.no_result && flags.no_filename);
                self.scripts.push(source.clone());
            }
            Op::PushContextDump => {
                let text = format!("ctx: top={}", self.stack.len());
                self.push(Cell::Text(text.into_bytes()));
            }
            Op::Fatal(message) => self.fatal = Some(message.clone()),
            Op::DestroyHeap => self.destroyed = true,
        }
    }

    fn run(&mut self, ops: &[Op]) {
        for op in ops {
            self.step(op);
        }
    }

    /// The answer to a question of a reader. An object gives its properties
    /// last first.
    fn answer(&mut self, ask: Ask) -> Told {
        match ask {
            Ask::Inspect(idx) => Told::Seen(match self.resolve(idx).map(|at| &self.stack[at]) {
                None => Seen::Missing,
                Some(Cell::Undefined) => Seen::Undefined,
                Some(Cell::Null) => Seen::Null,
                Some(Cell::Boolean(b)) => Seen::Boolean(*b),
                Some(Cell::Number(bits)) => Seen::Number(Number::from_bits(*bits)),
                Some(Cell::Text(bytes)) => Seen::Text(bytes.clone()),
                Some(Cell::Pointer(handle)) => Seen::Pointer(*handle),
                Some(Cell::Array(_)) => Seen::Array,
                Some(Cell::Object(_)) => Seen::Object,
                Some(_) => Seen::Other,
            }),
            Ask::Enumerate(idx, array_only) => {
                let at = self.resolve(idx).expect("no such slot");
                let members = match &self.stack[at] {
                    Cell::Array(items) => {
                        assert!(array_only);
                        items.iter().enumerate().map(|(i, item)| (i.to_string().into_bytes(), item.clone())).collect()
                    }
                    Cell::Object(entries) => {
                        assert!(!array_only);
                        entries.iter().rev().cloned().collect()
                    }
                    other => panic!("members of {:?}", other),
                };
                self.reserve = self.reserve.max(3);
                self.push(Cell::Enumerator(members));
                Told::Done
            }
            Ask::Next => match self.stack.last_mut() {
                Some(Cell::Enumerator(left)) => {
                    if left.is_empty() {
                        Told::End
                    } else {
                        let (key, value) = left.remove(0);
                        self.push(Cell::Text(key.clone()));
                        self.push(value);
                        Told::Entry(key)
                    }
                }
                other => panic!("no enumerator: {:?}", other),
            },
            Ask::Drop(count) => {
                for _ in 0..count {
                    self.pop();
                }
                Told::Done
            }
        }
    }

    /// Reads what a slot holds, by the questions of a reader.
    fn read(&mut self, idx: i32) -> Slot {
        let depth = self.stack.len();
        let (mut reader, mut ask) = Reader::start(idx);
        loop {
            match reader.step(self.answer(ask)) {
                Step::Ask(next) => ask = next,
                Step::Done(slot) => {
                    assert_eq!(self.stack.len(), depth);
                    return slot;
                }
                Step::Broken => panic!("the reading broke"),
            }
        }
    }

    /// The handle that an object holds under a reserved name, as a native
    /// entry point looks for it.
    fn locate(&mut self, rubtle: &Rubtle, holder: Holder, name: Hidden) -> u64 {
        let depth = self.stack.len();
        self.run(&rubtle.locate(holder, name));
        let slot = self.read(-1);
        let located = rubtle.located(holder, &slot);
        self.run(&located.ops);
        assert_eq!(self.stack.len(), depth);
        located.handle
    }

    fn global(&self, name: &str) -> Cell {
        find(&self.globals, &name.as_bytes().to_vec()).cloned().unwrap_or(Cell::Undefined)
    }

    fn define(&mut self, name: &str, cell: Cell) {
        put(&mut self.globals, name.as_bytes().to_vec(), cell);
    }
}

fn number(x: f64) -> Value {
    Value::from(Number::from_bits(x.to_bits()))
}

fn numbers(xs: &[f64]) -> Value {
    Value::Array(xs.iter().map(|x| number(*x)).collect())
}

fn float(value: &Value) -> f64 {
    f64::from_bits(value.as_number().unwrap().to_bits())
}

fn text(s: &str) -> Cell {
    Cell::Text(s.as_bytes().to_vec())
}

fn num(x: f64) -> Cell {
    Cell::Number(x.to_bits())
}

fn object(entries: &[(&str, Cell)]) -> Cell {
    Cell::Object(entries.iter().map(|(k, v)| (k.as_bytes().to_vec(), v.clone())).collect())
}

fn pointer(hidden: &[(Hidden, Cell)], name: Hidden) -> u64 {
    match find(hidden, &name) {
        Some(Cell::Pointer(handle)) => *handle,
        other => panic!("no handle under {:?}: {:?}", name, other),
    }
}

type Callback = Box<dyn Fn(Invocation<i8>) -> CallbackResult<Value>>;
type Ctor<T> = Box<dyn FnMut(&mut Invocation<T>)>;
type Meth<T> = Box<dyn FnMut(&mut Invocation<T>) -> CallbackResult<Value>>;

fn ctor<T, F: 'static + FnMut(&mut Invocation<T>)>(func: F) -> Ctor<T> {
    Box::new(func)
}

fn meth<T, F: 'static + FnMut(&mut Invocation<T>) -> CallbackResult<Value>>(func: F) -> Meth<T> {
    Box::new(func)
}

/// The registries of one native object.
struct Class<T> {
    ctors: Registry<Ctor<T>>,
    methods: Registry<Meth<T>>,
    instances: Registry<Option<T>>,
}

impl<T> Class<T> {
    fn new() -> Class<T> {
        Class { ctors: Registry::new(), methods: Registry::new(), instances: Registry::new() }
    }
}

/// The driver: it has the plans of a handle carried out on the stand-in heap.
struct Host {
    rubtle: Rubtle,
    heap: Heap,
    functions: Registry<Callback>,
}

impl Host {
    fn new() -> Host {
        Host { rubtle: Rubtle::new(), heap: Heap::new(), functions: Registry::new() }
    }

    fn push_value(&mut self, rval: &Value) {
        let ops = self.rubtle.push_value(rval).unwrap();
        self.heap.run(&ops);
    }

    fn pop_value(&mut self) -> Option<Value> {
        self.pop_value_at(-1)
    }

    fn pop_value_at(&mut self, idx: i32) -> Option<Value> {
        let slot = self.heap.read(idx);
        let popped = self.rubtle.pop_value_at(idx, &slot);
        self.heap.run(&popped.ops);
        popped.value
    }

    fn set_global_value(&mut self, name: &str, rval: &Value) {
        let ops = self.rubtle.set_global_value(name, rval);
        self.heap.run(&ops);
        assert_eq!(self.heap.fatal, None);
    }

    fn get_global_value(&mut self, name: &str) -> Option<Value> {
        let ops = self.rubtle.get_global_value(name)?;
        self.heap.run(&ops);
        let slot = self.heap.read(-1);
        let popped = self.rubtle.read_global(&slot);
        self.heap.run(&popped.ops);
        popped.value
    }

    fn eval(&mut self, source: &str) {
        match self.rubtle.eval(source) {
            Ok(ops) => self.heap.run(&ops),
            Err(e) => println!("couldn't eval str {}: {}", source, e.message()),
        }
    }

    fn set_global_function<F>(&mut self, name: &str, func: F)
    where
        F: 'static + Fn(Invocation<i8>) -> CallbackResult<Value>,
    {
        let ops = self.rubtle.set_global_function(name, Box::new(func) as Callback, &mut self.functions);
        self.heap.run(&ops);
        assert_eq!(self.heap.fatal, None);
    }

    fn set_global_object<T>(&mut self, name: &str, object: &mut Object<Ctor<T>, Meth<T>>, class: &mut Class<T>) {
        let ops = self.rubtle.set_global_object(name, object, &mut class.ctors, &mut class.methods);
        self.heap.run(&ops);
        assert_eq!(self.heap.fatal, None);
    }

    /// The stack of a call: the arguments, first at the bottom.
    fn frame(&self, args: &[Value]) -> Heap {
        let mut frame = Heap::new();
        for arg in args {
            frame.run(&self.rubtle.push_value(arg).unwrap());
        }
        frame
    }

    fn leave(&self, frame: &mut Heap, reply: Reply) -> Result<Option<Value>, String> {
        let depth = frame.stack.len();
        frame.run(&reply.ops);
        if let Some(message) = frame.fatal.take() {
            assert_eq!(frame.stack.len(), depth);
            return Err(message);
        }
        match reply.status {
            1 => {
                assert_eq!(frame.stack.len(), depth + 1);
                {
                    let slot = frame.read(-1);
                    Ok(self.rubtle.pop_value(&slot).value)
                }
            }
            0 => {
                assert_eq!(frame.stack.len(), depth);
                Ok(Some(Value::Absent))
            }
            _ => {
                assert_eq!(frame.stack.len(), depth);
                Ok(None)
            }
        }
    }

    /// What the engine does for `name(args)` in a script: the value of the
    /// call, none where the script gets an error instead.
    fn call(&mut self, name: &str, args: &[Value]) -> Option<Value> {
        let function = self.heap.global(name);
        match &function {
            Cell::Native { entry: Trampoline::Function, finalizer, .. } => assert!(*finalizer),
            other => panic!("{} is no native function: {:?}", name, other),
        }
        let mut frame = self.frame(args);
        frame.callee = function;
        let slots: Vec<Slot> = (0..frame.stack.len() as i32).map(|i| frame.read(i)).collect();
        let inner = self.rubtle.reenter();
        let handle = frame.locate(&inner, Holder::Callee, Hidden::Func);
        let invocation = inner.begin_function(&slots);
        assert!(invocation.udata.is_none());
        let callback = self.functions.get(handle).expect("the callback is gone");
        let result = callback(invocation);
        let reply = inner.function_return(Outcome::Returned(result));
        assert!(inner.teardown().is_empty());
        self.leave(&mut frame, reply).unwrap()
    }

    /// What the engine does for `new name(args)`: the handle of the user data
    /// of the new instance.
    fn construct<T: Default>(&mut self, name: &str, class: &mut Class<T>, args: &[Value]) -> u64 {
        let function = self.heap.global(name);
        match &function {
            Cell::Native { entry: Trampoline::Constructor, finalizer, .. } => assert!(*finalizer),
            other => panic!("{} is no native object: {:?}", name, other),
        }
        let mut frame = self.frame(args);
        frame.callee = function;
        let slots: Vec<Slot> = (0..frame.stack.len() as i32).map(|i| frame.read(i)).collect();
        let inner = self.rubtle.reenter();
        let handle = frame.locate(&inner, Holder::Callee, Hidden::Ctor);
        let mut invocation = inner.begin_construct::<T>(true, &slots).ok().unwrap();
        let mut callback = class.ctors.take(handle).expect("the constructor is gone");
        callback(&mut invocation);
        assert!(class.ctors.restore(handle, callback).is_ok());
        let Invocation { udata, .. } = invocation;
        let reply = inner.finish_construct(Outcome::Returned(()), udata, &mut class.instances);
        assert_eq!(self.leave(&mut frame, reply), Ok(Some(Value::Absent)));
        assert!(frame.this_finalizer);
        pointer(&frame.this, Hidden::Udata)
    }

    /// What the engine does for `instance.method(args)`.
    fn call_method<T>(&mut self, name: &str, class: &mut Class<T>, instance: u64, method: &str, args: &[Value]) -> Option<Value> {
        let function = match self.heap.global(name) {
            Cell::Native { prototype, .. } => match find(&prototype, &method.as_bytes().to_vec()) {
                Some(Cell::Native { entry: Trampoline::Method, hidden, prototype, finalizer }) => {
                    assert!(*finalizer);
                    Cell::Native {
                        entry: Trampoline::Method,
                        hidden: hidden.clone(),
                        prototype: prototype.clone(),
                        finalizer: true,
                    }
                }
                other => panic!("{} is no native method: {:?}", method, other),
            },
            other => panic!("{} is no native object: {:?}", name, other),
        };
        let mut frame = self.frame(args);
        frame.callee = function;
        frame.this = vec![(Hidden::Udata, Cell::Pointer(instance))];
        let slots: Vec<Slot> = (0..frame.stack.len() as i32).map(|i| frame.read(i)).collect();
        let inner = self.rubtle.reenter();
        let handle = frame.locate(&inner, Holder::Callee, Hidden::Meth);
        assert_eq!(frame.locate(&inner, Holder::This, Hidden::Udata), instance);
        let mut invocation = inner.begin_method::<T>(&slots, instance, &mut class.instances).ok().unwrap();
        let mut callback = class.methods.take(handle).expect("the method is gone");
        let result = callback(&mut invocation);
        assert!(class.methods.restore(handle, callback).is_ok());
        let Invocation { udata, .. } = invocation;
        let reply = inner.finish_method(Outcome::Returned(result), instance, udata, &mut class.instances);
        self.leave(&mut frame, reply).unwrap()
    }
}

fn js_printer(inv: Invocation<i8>) -> CallbackResult<Value> {
    let args = inv.args.unwrap();

    for val in args.iter() {
        assert!(!val.is_array() && !val.is_object());
        match val.coerce_string() {
            Some(s) => println!("{:?}", s),
            None => println!("Error unwrap value"),
        }
    }

    Ok(Value::from(true))
}

fn js_assert(inv: Invocation<i8>) -> CallbackResult<Value> {
    let args = inv.args.unwrap();
    let assert_val = args.first().unwrap().as_boolean().unwrap();
    let assert_mesg = args.last().unwrap().coerce_string().unwrap();

    assert_eq!(true, assert_val, "{}", assert_mesg);

    Ok(Value::from(true))
}

#[derive(Default)]
struct UserData {
    value: i32,
}

fn check_push_and_pop(rval: Value) {
    let mut rubtle = Host::new();

    rubtle.push_value(&rval);
    assert_eq!(rubtle.heap.stack.len(), 1);
    let rval2 = rubtle.pop_value().unwrap();

    assert_eq!(rval, rval2);
    assert_eq!(rubtle.heap.stack.len(), 0);
}

fn check_set_global(rval: Value) {
    let mut rubtle = Host::new();

    rubtle.set_global_value("rubtle", &rval);
    assert_eq!(rubtle.heap.stack.len(), 0);
    assert_eq!(rubtle.get_global_value("rubtle"), Some(rval));
    assert_eq!(rubtle.heap.stack.len(), 0);
}

/// The global that the script leaves is put in its place.
fn check_get_global(script: &str, left: Cell, rval2: Value) {
    let mut rubtle = Host::new();

    rubtle.eval(script);
    assert_eq!(rubtle.heap.scripts, vec![script.as_bytes().to_vec()]);
    rubtle.heap.define("rubtle", left);

    let rval = rubtle.get_global_value("rubtle").unwrap();

    assert_eq!(rval, rval2);
    assert_eq!(rubtle.heap.stack.len(), 0);
}

fn check_eval(script: &str) {
    let mut rubtle = Host::new();

    rubtle.eval(script);
    assert_eq!(rubtle.heap.scripts, vec![script.as_bytes().to_vec()]);
    assert_eq!(rubtle.heap.stack.len(), 0);
}

fn check_function_as_closure() {
    let mut rubtle = Host::new();

    rubtle.set_global_function("square", |inv| -> CallbackResult<Value> {
        let args = inv.args.unwrap();

        let i = float(args.first().unwrap());

        Ok(number(i * i))
    });
    assert_eq!(rubtle.heap.stack.len(), 0);
}

fn check_global_printer() {
    let mut rubtle = Host::new();

    rubtle.set_global_function("print", js_printer);

    rubtle.eval(
        r#"
        print('Test');
    "#,
    );
    assert_eq!(rubtle.call("print", &[Value::from("Test")]), Some(Value::from(true)));
}

fn counter(with_arguments: bool, method_with_arguments: bool) -> Object<Ctor<UserData>, Meth<UserData>> {
    let mut builder = ObjectBuilder::<Ctor<UserData>, Meth<UserData>>::new();
    if with_arguments {
        builder.with_constructor(ctor(|inv: &mut Invocation<UserData>| {
            let udata = inv.udata.as_mut().unwrap();
            let args = inv.args.as_ref().unwrap();

            match args.first() {
                Some(val) => udata.value = val.as_number().unwrap().to_i32(),
                None => udata.value = 1,
            }
        }));
    } else {
        builder.with_constructor(ctor(|inv: &mut Invocation<UserData>| {
            let udata = inv.udata.as_mut().unwrap();

            udata.value = 1;
        }));
    }
    if method_with_arguments {
        builder.with_method(
            "inc",
            meth(|inv: &mut Invocation<UserData>| -> CallbackResult<Value> {
                let udata = inv.udata.as_mut().unwrap();
                let args = inv.args.as_ref().unwrap();

                match args.first() {
                    Some(val) => udata.value += val.as_number().unwrap().to_i32(),
                    None => udata.value += 1,
                }

                Ok(Value::from(udata.value))
            }),
        );
    } else {
        builder.with_method(
            "inc",
            meth(|inv: &mut Invocation<UserData>| -> CallbackResult<Value> {
                let udata = inv.udata.as_mut().unwrap();

                udata.value += 1;

                Ok(Value::from(udata.value))
            }),
        );
    }
    builder.build()
}

fn check_object_with_ctor() {
    let mut object = ObjectBuilder::<Ctor<UserData>, Meth<UserData>>::new()
        .with_constructor(ctor(|inv: &mut Invocation<UserData>| {
            let udata = inv.udata.as_mut().unwrap();

            udata.value = 1;
        }))
        .build();

    let mut rubtle = Host::new();
    let mut class = Class::new();

    rubtle.set_global_object("Counter", &mut object, &mut class);

    rubtle.set_global_function("assert", js_assert);

    rubtle.eval(
        r#"
        var counter = new Counter();
        assert(typeof counter != 'undefined', "Damn!");
    "#,
    );
    let counter = rubtle.construct("Counter", &mut class, &[]);
    assert_eq!(class.instances.get(counter).unwrap().as_ref().unwrap().value, 1);
    rubtle.call("assert", &[Value::from(true), Value::from("Damn!")]);
}

fn check_object_with_ctor_and_method() {
    let mut object = counter(false, false);

    let mut rubtle = Host::new();
    let mut class = Class::new();

    rubtle.set_global_object("Counter", &mut object, &mut class);

    rubtle.set_global_function("assert", js_assert);

    rubtle.eval(
        r#"
        var counter = new Counter();
        assert(typeof counter != 'undefined', "Damn!");
        counter.inc();
    "#,
    );
    let counter = rubtle.construct("Counter", &mut class, &[]);
    rubtle.call("assert", &[Value::from(true), Value::from("Damn!")]);
    assert_eq!(rubtle.call_method("Counter", &mut class, counter, "inc", &[]), Some(Value::from(2)));
}

fn check_object_with_ctor_and_methods() {
    let mut builder = ObjectBuilder::<Ctor<UserData>, Meth<UserData>>::new();
    builder
        .with_constructor(ctor(|inv: &mut Invocation<UserData>| {
            let udata = inv.udata.as_mut().unwrap();

            udata.value = 1;
        }))
        .with_method(
            "inc",
            meth(|inv: &mut Invocation<UserData>| -> CallbackResult<Value> {
                let udata = inv.udata.as_mut().unwrap();

                udata.value += 1;

                Ok(Value::from(udata.value))
            }),
        )
        .with_method(
            "print",
            meth(|inv: &mut Invocation<UserData>| -> CallbackResult<Value> {
                let udata = inv.udata.as_ref().unwrap();

                println!("Value={}", udata.value);

                Ok(Value::from(udata.value))
            }),
        );
    let mut object = builder.build();

    let mut rubtle = Host::new();
    let mut class = Class::new();

    rubtle.set_global_object("Counter", &mut object, &mut class);

    rubtle.set_global_function("assert", js_assert);

    rubtle.eval(
        r#"
        var counter = new Counter();
        assert(typeof counter != 'undefined', "Damn!");
        counter.inc();
        var value = counter.inc();
        assert(3 == value, "Damn!");
        counter.print();
    "#,
    );
    let counter = rubtle.construct("Counter", &mut class, &[]);
    rubtle.call("assert", &[Value::from(true), Value::from("Damn!")]);
    rubtle.call_method("Counter", &mut class, counter, "inc", &[]);
    let value = rubtle.call_method("Counter", &mut class, counter, "inc", &[]).unwrap();
    rubtle.call("assert", &[Value::from(Value::from(3) == value), Value::from("Damn!")]);
    assert_eq!(rubtle.call_method("Counter", &mut class, counter, "print", &[]), Some(Value::from(3)));
}

fn check_object_with_return_value() {
    let mut object = counter(false, false);

    let mut rubtle = Host::new();
    let mut class = Class::new();

    rubtle.set_global_object("Counter", &mut object, &mut class);

    rubtle.set_global_function("print", js_printer);
    rubtle.set_global_function("assert", js_assert);

    rubtle.eval(
        r#"
        var counter = new Counter();
        assert(typeof counter != 'undefined', "Damn!");
        counter.inc();
        var value = counter.inc();
        print(value);
        assert(3 == value, "Damn!");
    "#,
    );
    let counter = rubtle.construct("Counter", &mut class, &[]);
    rubtle.call("assert", &[Value::from(true), Value::from("Damn!")]);
    rubtle.call_method("Counter", &mut class, counter, "inc", &[]);
    let value = rubtle.call_method("Counter", &mut class, counter, "inc", &[]).unwrap();
    rubtle.call("print", &[value.clone()]);
    rubtle.call("assert", &[Value::from(Value::from(3) == value), Value::from("Damn!")]);
}

fn check_object_with_arguments() {
    let mut object = counter(true, false);

    let mut rubtle = Host::new();
    let mut class = Class::new();

    rubtle.set_global_object("Counter", &mut object, &mut class);

    rubtle.set_global_function("assert", js_assert);

    rubtle.eval(
        r#"
        var counter = new Counter(5);
        assert(typeof counter != 'undefined', "Damn!");
        var value = counter.inc();
        assert(6 == value, "Damn!");
    "#,
    );
    let counter = rubtle.construct("Counter", &mut class, &[Value::from(5)]);
    rubtle.call("assert", &[Value::from(true), Value::from("Damn!")]);
    let value = rubtle.call_method("Counter", &mut class, counter, "inc", &[]).unwrap();
    rubtle.call("assert", &[Value::from(Value::from(6) == value), Value::from("Damn!")]);
}

fn check_object_with_method_arguments() {
    let mut object = counter(true, true);

    let mut rubtle = Host::new();
    let mut class = Class::new();

    rubtle.set_global_object("Counter", &mut object, &mut class);

    rubtle.set_global_function("assert", js_assert);

    rubtle.eval(
        r#"
        var counter = new Counter(2);
        assert(typeof counter != 'undefined', "Damn!");
        var value = counter.inc(8);
        assert(10 == value, "Damn!");
    "#,
    );
    let counter = rubtle.construct("Counter", &mut class, &[Value::from(2)]);
    rubtle.call("assert", &[Value::from(true), Value::from("Damn!")]);
    let value = rubtle.call_method("Counter", &mut class, counter, "inc", &[Value::from(8)]).unwrap();
    rubtle.call("assert", &[Value::from(Value::from(10) == value), Value::from("Damn!")]);
}

#[test]
fn rubtle_push_and_pop_bool_value() {
    check_push_and_pop(Value::from(true));
}

#[test]
fn rubtle_push_and_pop_number_value() {
    check_push_and_pop(Value::from(4));
}

#[test]
fn rubtle_push_and_pop_string_value() {
    check_push_and_pop(Value::from("rubtle"));
}

#[test]
fn rubtle_push_and_pop_none_value() {
    check_push_and_pop(Value::from(()));
}

#[test]
fn rubtle_set_global_bool_value() {
    check_set_global(Value::from(true));
}

#[test]
fn rubtle_set_global_number_value() {
    check_set_global(Value::from(4));
}

#[test]
fn rubtle_set_global_string_value() {
    check_set_global(Value::from("rubtle"));
}

#[test]
fn rubtle_get_global_bool_value() {
    check_get_global(
        r#"
        var rubtle = true;
    "#,
        Cell::Boolean(true),
        Value::from(true),
    );
}

#[test]
fn rubtle_get_global_number_value_i32() {
    check_get_global(
        r#"
        var rubtle = 4;
    "#,
        num(4.0),
        Value::from(4),
    );
}

#[test]
fn rubtle_get_global_number_value_f64() {
    check_get_global(
        r#"
        var rubtle = 4.0;
    "#,
        num(4.0),
        number(4.0),
    );
}

#[test]
fn rubtle_get_global_string_value() {
    check_get_global(
        r#"
        var rubtle = 'test';
    "#,
        text("test"),
        Value::from("test"),
    );
}

#[test]
fn basic_push_and_pop_bool_value() {
    check_push_and_pop(Value::from(true));
}

#[test]
fn basic_push_and_pop_number_value() {
    check_push_and_pop(Value::from(4));
}

#[test]
fn basic_push_and_pop_string_value() {
    check_push_and_pop(Value::from("rubtle"));
}

#[test]
fn basic_push_and_pop_none_value() {
    check_push_and_pop(Value::from(()));
}

#[test]
fn basic_set_global_bool_value() {
    check_set_global(Value::from(true));
}

#[test]
fn basic_set_global_number_value() {
    check_set_global(Value::from(4));
}

#[test]
fn basic_set_global_string_value() {
    check_set_global(Value::from("rubtle"));
}

#[test]
fn basic_get_global_bool_value() {
    check_get_global(
        r#"
        var rubtle = true;
    "#,
        Cell::Boolean(true),
        Value::from(true),
    );
}

#[test]
fn basic_get_global_number_value_i32() {
    check_get_global(
        r#"
        var rubtle = 4;
    "#,
        num(4.0),
        Value::from(4),
    );
}

#[test]
fn basic_get_global_number_value_f64() {
    check_get_global(
        r#"
        var rubtle = 4.0;
    "#,
        num(4.0),
        number(4.0),
    );
}

#[test]
fn basic_get_global_string_value() {
    check_get_global(
        r#"
        var rubtle = 'test';
    "#,
        text("test"),
        Value::from("test"),
    );
}

#[test]
fn rubtle_get_global_array_value_bool() {
    check_get_global(
        r#"
        var rubtle = [true, false];
    "#,
        Cell::Array(vec![Cell::Boolean(true), Cell::Boolean(false)]),
        Value::from(&vec![true, false]),
    );
}

#[test]
fn rubtle_get_global_array_value_i32() {
    check_get_global(
        r#"
        var rubtle = [1, 2];
    "#,
        Cell::Array(vec![num(1.0), num(2.0)]),
        Value::from(&vec![1, 2]),
    );
}

#[test]
fn rubtle_get_global_array_value_f64() {
    check_get_global(
        r#"
        var rubtle = [1.0, 2.0];
    "#,
        Cell::Array(vec![num(1.0), num(2.0)]),
        numbers(&[1.0, 2.0]),
    );
}

#[test]
fn rubtle_get_global_array_value_str() {
    check_get_global(
        r#"
        var rubtle = ["rubtle", "rubtle"];
    "#,
        Cell::Array(vec![text("rubtle"), text("rubtle")]),
        Value::from(&vec!["rubtle", "rubtle"]),
    );
}

#[test]
fn array_get_global_array_value_bool() {
    check_get_global(
        r#"
        var rubtle = [true, false];
    "#,
        Cell::Array(vec![Cell::Boolean(true), Cell::Boolean(false)]),
        Value::from(&vec![true, false]),
    );
}

#[test]
fn array_get_global_array_value_i32() {
    check_get_global(
        r#"
        var rubtle = [1, 2];
    "#,
        Cell::Array(vec![num(1.0), num(2.0)]),
        Value::from(&vec![1, 2]),
    );
}

#[test]
fn array_get_global_array_value_f64() {
    check_get_global(
        r#"
        var rubtle = [1.0, 2.0];
    "#,
        Cell::Array(vec![num(1.0), num(2.0)]),
        numbers(&[1.0, 2.0]),
    );
}

#[test]
fn array_get_global_array_value_str() {
    check_get_global(
        r#"
        var rubtle = ["rubtle", "rubtle"];
    "#,
        Cell::Array(vec![text("rubtle"), text("rubtle")]),
        Value::from(&vec!["rubtle", "rubtle"]),
    );
}

#[test]
fn rubtle_evil_eval_test() {
    check_eval(
        r#"
        var rubtle = 'yeah';
    "#,
    );
}

#[test]
fn eval_evil_eval_test() {
    check_eval(
        r#"
        var rubtle = 'rubtle';
    "#,
    );
}

#[test]
fn string_evil_eval_test() {
    check_eval(
        r#"
        let rublte = 'yeah';
    "#,
    );
}

#[test]
fn rubtle_set_global_function_as_closure() {
    check_function_as_closure();
}

#[test]
fn rubtle_set_and_run_global_printer() {
    check_global_printer();
}

#[test]
fn function_set_global_function_as_closure() {
    check_function_as_closure();
}

#[test]
fn function_set_and_run_global_printer() {
    check_global_printer();
}

#[test]
fn rubtle_set_global_object_with_ctor() {
    check_object_with_ctor();
}

#[test]
fn rubtle_set_global_object_with_ctor_and_method() {
    check_object_with_ctor_and_method();
}

#[test]
fn rubtle_set_global_object_with_ctor_and_methods() {
    check_object_with_ctor_and_methods();
}

#[test]
fn rubtle_set_global_object_with_ctor_and_method_with_return_value() {
    check_object_with_return_value();
}

#[test]
fn rubtle_set_global_object_with_ctor_with_arguments_and_method_with_return_value() {
    check_object_with_arguments();
}

#[test]
fn rubtle_set_global_object_with_ctor_with_arguments_and_method_with_arguments_and_return_value() {
    check_object_with_method_arguments();
}

#[test]
fn object_builder_set_global_object_with_ctor() {
    check_object_with_ctor();
}

#[test]
fn object_builder_set_global_object_with_ctor_and_method() {
    check_object_with_ctor_and_method();
}

#[test]
fn object_builder_set_global_object_with_ctor_and_methods() {
    check_object_with_ctor_and_methods();
}

#[test]
fn object_builder_set_global_object_with_ctor_and_method_with_return_value() {
    check_object_with_return_value();
}

#[test]
fn object_builder_set_global_object_with_ctor_with_arguments_and_method_with_return_value() {
    check_object_with_arguments();
}

#[test]
fn object_builder_set_global_object_with_ctor_with_arguments_and_method_with_arguments_and_return_value() {
    check_object_with_method_arguments();
}

#[test]
fn push_and_pop_array_value_i32() {
    let ary: Vec<i32> = vec![1, 2];
    check_push_and_pop(Value::from(&ary));
}

#[test]
fn push_and_pop_array_value_f64() {
    check_push_and_pop(numbers(&[1.0, 2.0]));
}

#[test]
fn push_and_pop_array_value_bool() {
    let ary: Vec<bool> = vec![true, false];
    check_push_and_pop(Value::from(&ary));
}

#[test]
fn push_and_pop_object_i32() {
    let hash: Vec<(&str, i32)> = vec![("rubtle", 1), ("rubtle", 2)];
    check_push_and_pop(Value::from(&hash));
}

#[test]
fn push_and_pop_object_f64() {
    let hash: Vec<(&str, Number)> =
        vec![("rubtle", Number::from_bits(1.0f64.to_bits())), ("rubtle", Number::from_bits(2.0f64.to_bits()))];
    check_push_and_pop(Value::from(&hash));
}

#[test]
fn push_and_pop_object_bool() {
    let hash: Vec<(&str, bool)> = vec![("rubtle", true), ("rubtle", false)];
    check_push_and_pop(Value::from(&hash));
}

#[test]
fn get_global_object_value_bool() {
    let hash: Vec<(&str, bool)> = vec![("rubtle1", true), ("rubtle2", false)];
    check_get_global(
        r#"
        var rubtle = { "rubtle1": true, "rubtle2": false };
    "#,
        object(&[("rubtle1", Cell::Boolean(true)), ("rubtle2", Cell::Boolean(false))]),
        Value::from(&hash),
    );
}

#[test]
fn get_global_object_value_i32() {
    let hash: Vec<(&str, i32)> = vec![("rubtle1", 1), ("rubtle2", 2)];
    check_get_global(
        r#"
        var rubtle = { "rubtle1": 1, "rubtle2": 2 };
    "#,
        object(&[("rubtle1", num(1.0)), ("rubtle2", num(2.0))]),
        Value::from(&hash),
    );
}

#[test]
fn get_global_object_value_f64() {
    let hash: Vec<(&str, Number)> =
        vec![("rubtle1", Number::from_bits(1.0f64.to_bits())), ("rubtle2", Number::from_bits(2.0f64.to_bits()))];
    check_get_global(
        r#"
        var rubtle = { "rubtle1": 1.0, "rubtle2": 2.0 };
    "#,
        object(&[("rubtle1", num(1.0)), ("rubtle2", num(2.0))]),
        Value::from(&hash),
    );
}

#[test]
fn get_global_object_value_str() {
    let hash = Value::Object(vec![
        (String::from("rubtle1"), Value::from("rubtle")),
        (String::from("rubtle2"), Value::from("rubtle")),
    ]);
    check_get_global(
        r#"
        var rubtle = { "rubtle1": "rubtle", "rubtle2": "rubtle" };
    "#,
        object(&[("rubtle2", text("rubtle")), ("rubtle1", text("rubtle"))]),
        hash,
    );
}

#[test]
fn a_description_of_the_stack_is_shown_with_its_place() {
    let mut rubtle = Host::new();

    rubtle.push_value(&Value::from(1));
    rubtle.heap.run(&context_dump());
    let line = match rubtle.heap.read(-1) {
        Slot::Text(bytes) => debug_stack("src/rubtle.rs", 42, &bytes).unwrap(),
        other => panic!("no text: {:?}", other),
    };
    assert_eq!(line, "\nsrc/rubtle.rs@42: ctx: top=1");
    assert!(rubtle.pop_value().is_some());
    assert_eq!(rubtle.heap.stack.len(), 1);
    assert_eq!(debug_stack("f", 0, &vec![0xFF]), None);
}

#[test]
fn a_fatal_error_is_reported_with_the_message_of_the_engine() {
    assert_eq!(fatal_handler(&b"out of memory".to_vec()), "fatal error from duktape: out of memory");
    assert_eq!(fatal_handler(&vec![0xFF]), "fatal error from duktape: failed to decode message");
}

#[test]
fn only_the_first_handle_frees_the_heap() {
    let mut rubtle = Host::new();
    let inner = rubtle.rubtle.reenter();
    assert_eq!(inner.teardown(), vec![]);
    assert_eq!(inner.reenter().teardown(), vec![]);
    let ops = rubtle.rubtle.teardown();
    assert_eq!(ops, vec![Op::DestroyHeap]);
    rubtle.heap.run(&ops);
    assert!(rubtle.heap.destroyed);
}

#[test]
fn the_plan_of_a_value_is_exact() {
    let rubtle = Rubtle::new();
    assert_eq!(rubtle.push_value(&Value::from(())).unwrap(), vec![Op::RequireStack(1), Op::PushUndefined]);
    assert_eq!(rubtle.push_value(&Value::from(true)).unwrap(), vec![Op::RequireStack(1), Op::PushBoolean(true)]);
    assert_eq!(
        rubtle.push_value(&Value::from(4)).unwrap(),
        vec![Op::RequireStack(1), Op::PushNumber(Number::from_bits(4.0f64.to_bits()))]
    );
    assert_eq!(
        rubtle.push_value(&Value::from("\u{10401}")).unwrap(),
        vec![Op::RequireStack(1), Op::PushLString(vec![0xED, 0xA0, 0x81, 0xED, 0xB0, 0x81])]
    );
    assert_eq!(
        rubtle.push_value(&Value::from(&vec![true, false])).unwrap(),
        vec![
            Op::RequireStack(1),
            Op::PushArray,
            Op::RequireStack(1),
            Op::PushBoolean(true),
            Op::PutPropIndex(-2, 0),
            Op::RequireStack(1),
            Op::PushBoolean(false),
            Op::PutPropIndex(-2, 1),
        ]
    );
    assert_eq!(
        rubtle.push_value(&Value::from(&vec![("k", true)])).unwrap(),
        vec![
            Op::RequireStack(1),
            Op::PushObject,
            Op::RequireStack(1),
            Op::PushBoolean(true),
            Op::PutPropLString(-2, b"k".to_vec()),
        ]
    );
}

#[test]
fn a_name_with_a_zero_character_is_refused() {
    let rubtle = Rubtle::new();
    assert_eq!(
        rubtle.set_global_value("a\0", &Value::from(1)),
        vec![Op::Fatal(String::from("name cannot be encoded"))]
    );
    assert!(rubtle.get_global_value("a\0").is_none());
    assert_eq!(rubtle.eval("var a = '\0';").unwrap_err().details, "script holds a zero byte");
}

#[test]
fn a_string_with_a_zero_character_is_pushed_with_its_length() {
    let rubtle = Rubtle::new();
    assert_eq!(
        rubtle.push_value(&Value::from("a\0b")).unwrap(),
        vec![Op::RequireStack(1), Op::PushLString(vec![0x61, 0x00, 0x62])]
    );
    assert_eq!(
        rubtle.push_value(&Value::Object(vec![(String::from("\0"), Value::from(1))])).unwrap(),
        vec![
            Op::RequireStack(1),
            Op::PushObject,
            Op::RequireStack(1),
            Op::PushNumber(Number::from_i32(1)),
            Op::PutPropLString(-2, vec![0x00]),
        ]
    );
    assert_eq!(
        rubtle.set_global_value("a", &Value::from("\0")),
        vec![
            Op::RequireStack(1),
            Op::PushLString(vec![0x00]),
            Op::RequireStack(1),
            Op::PutGlobalLString(b"a".to_vec()),
        ]
    );
}

#[test]
fn a_string_with_a_zero_character_comes_back() {
    let mut host = Host::new();
    host.push_value(&Value::from("a\0b"));
    assert_eq!(host.heap.stack.len(), 1);
    assert_eq!(host.pop_value(), Some(Value::Str(String::from("a\0b"))));
    assert_eq!(host.heap.stack.len(), 0);

    host.push_value(&Value::from(""));
    assert_eq!(host.pop_value(), Some(Value::Str(String::new())));
    host.push_value(&Value::from("\0"));
    assert_eq!(host.pop_value(), Some(Value::Str(String::from("\0"))));
}

#[test]
fn containers_with_zero_characters_come_back() {
    let mut host = Host::new();
    let items = Value::Array(vec![Value::from(1), Value::from("\0"), Value::from("x\0y")]);
    host.push_value(&items);
    assert_eq!(host.pop_value(), Some(items));

    let entries = Value::Object(vec![
        (String::from("\0"), Value::from(1)),
        (String::from("k"), Value::from("\0")),
        (String::from("a\0b"), Value::from(true)),
    ]);
    host.push_value(&entries);
    let back = host.pop_value().unwrap();
    assert_eq!(back, entries);
    assert_eq!(back.get("\0"), Some(&Value::from(1)));
    assert_eq!(back.get("k"), Some(&Value::from("\0")));
    assert_eq!(back.get("a\0b"), Some(&Value::from(true)));
    assert_eq!(host.heap.stack.len(), 0);
}

#[test]
fn a_global_string_with_a_zero_character_comes_back() {
    let mut host = Host::new();
    host.set_global_value("text", &Value::from("a\0b"));
    assert_eq!(host.get_global_value("text"), Some(Value::Str(String::from("a\0b"))));
    assert_eq!(host.heap.stack.len(), 0);
}

#[test]
fn nested_values_come_back_from_the_stack() {
    let inner = Value::Object(vec![
        (String::from("list"), Value::from(&vec![1, 2, 3])),
        (String::from("name"), Value::from("r\u{fc}btle \u{1F600}")),
        (String::from("none"), Value::from(())),
        (String::from("list"), Value::Array(vec![Value::from(true), Value::Array(vec![]), Value::Object(vec![])])),
    ]);
    check_push_and_pop(Value::Array(vec![inner.clone(), Value::from(false), inner]));
    check_push_and_pop(Value::Array(vec![]));
    check_push_and_pop(Value::Object(vec![]));
    check_push_and_pop(number(f64::NAN));
    check_push_and_pop(number(-0.0));
    check_push_and_pop(Value::from(""));
}

#[test]
fn values_below_the_top_are_popped_where_they_stand() {
    let mut rubtle = Host::new();

    rubtle.push_value(&Value::from(1));
    rubtle.push_value(&Value::from(2));
    rubtle.push_value(&Value::from(3));
    assert_eq!(rubtle.pop_value_at(1), Some(Value::from(2)));
    assert_eq!(rubtle.pop_value_at(-2), Some(Value::from(1)));
    assert_eq!(rubtle.pop_value_at(0), Some(Value::from(3)));
    assert_eq!(rubtle.heap.stack.len(), 0);
    assert_eq!(rubtle.pop_value_at(0), None);
    assert_eq!(rubtle.pop_value(), None);
    assert_eq!(rubtle.heap.stack.len(), 0);
}

#[test]
fn a_slot_without_a_value_leaves_the_stack_all_the_same() {
    let mut rubtle = Host::new();

    rubtle.heap.reserve = 3;
    rubtle.heap.push(Cell::Null);
    rubtle.heap.push(Cell::Pointer(7));
    rubtle.heap.push(Cell::Text(vec![0xFF]));
    assert_eq!(rubtle.pop_value(), None);
    assert_eq!(rubtle.heap.stack.len(), 2);
    assert_eq!(rubtle.pop_value(), None);
    assert_eq!(rubtle.pop_value(), None);
    assert_eq!(rubtle.heap.stack.len(), 0);
}

#[test]
fn members_without_a_value_are_left_out() {
    let mut rubtle = Host::new();

    rubtle.heap.reserve = 2;
    rubtle.heap.push(Cell::Array(vec![num(1.0), Cell::Null, Cell::Pointer(1), text("x"), Cell::Undefined]));
    assert_eq!(
        rubtle.pop_value(),
        Some(Value::Array(vec![Value::from(1), Value::from("x"), Value::Absent]))
    );
    rubtle.heap.push(Cell::Object(vec![
        (b"a".to_vec(), num(1.0)),
        (b"b".to_vec(), Cell::Null),
        (vec![0xFF], num(2.0)),
        (b"c".to_vec(), Cell::Undefined),
    ]));
    assert_eq!(
        rubtle.pop_value(),
        Some(Value::Object(vec![(String::from("c"), Value::Absent), (String::from("a"), Value::from(1))]))
    );
}

#[test]
fn a_global_takes_the_place_of_the_one_before() {
    let mut rubtle = Host::new();

    rubtle.set_global_value("rubtle", &Value::from(1));
    rubtle.set_global_value("other", &Value::from("x"));
    rubtle.set_global_value("rubtle", &Value::from(2));
    assert_eq!(rubtle.get_global_value("rubtle"), Some(Value::from(2)));
    assert_eq!(rubtle.get_global_value("other"), Some(Value::from("x")));
    assert_eq!(rubtle.heap.globals.len(), 2);
}

#[test]
fn a_global_that_is_not_set_reads_as_nothing() {
    let mut rubtle = Host::new();

    assert_eq!(rubtle.get_global_value("rubtle"), None);
    assert_eq!(rubtle.heap.stack.len(), 0);
    rubtle.set_global_value("rubtle", &Value::from(()));
    assert_eq!(rubtle.get_global_value("rubtle"), None);
    assert_eq!(rubtle.heap.stack.len(), 0);
}

#[test]
fn a_native_function_is_called_with_the_arguments_of_the_script() {
    let mut rubtle = Host::new();

    rubtle.set_global_function("square", |inv| -> CallbackResult<Value> {
        let args = inv.args.unwrap();

        let i = float(args.first().unwrap());

        Ok(number(i * i))
    });
    rubtle.eval("var result = square(4);");
    let result = rubtle.call("square", &[Value::from(4)]).unwrap();
    rubtle.set_global_value("result", &result);
    assert_eq!(rubtle.get_global_value("result"), Some(number(16.0)));
}

#[test]
fn arguments_keep_their_order() {
    let mut rubtle = Host::new();

    rubtle.set_global_function("list", |inv| -> CallbackResult<Value> { Ok(Value::Array(inv.args.unwrap())) });
    let args = [Value::from(1), Value::from("two"), Value::from(()), Value::from(&vec![3])];
    assert_eq!(rubtle.call("list", &args), Some(Value::Array(args.to_vec())));
    assert_eq!(rubtle.call("list", &[]), Some(Value::Array(vec![])));
}

#[test]
fn an_argument_without_a_value_is_left_out() {
    let rubtle = Rubtle::new();
    let slots = vec![
        Slot::Boolean(true),
        Slot::Null,
        Slot::Other,
        Slot::Text(vec![0xFF]),
        Slot::Undefined,
        Slot::Missing,
        Slot::Text(b"x".to_vec()),
    ];
    assert_eq!(rubtle.collect_arguments(&slots), vec![Value::from(true), Value::Absent, Value::from("x")]);
}

#[test]
fn an_error_of_a_native_function_is_thrown_in_the_script() {
    let mut rubtle = Host::new();

    rubtle.set_global_function("fail", |_inv| -> CallbackResult<Value> { Err(Error::new("no")) });
    assert_eq!(rubtle.call("fail", &[Value::from(1)]), None);
    let reply = rubtle.rubtle.function_return(Outcome::Returned(Err(Error::new("no"))));
    assert_eq!(reply.ops, vec![]);
    assert_eq!(reply.status, -1);
}

#[test]
fn a_function_registered_again_takes_the_place_of_the_first() {
    let mut rubtle = Host::new();

    rubtle.set_global_function("f", |_inv| -> CallbackResult<Value> { Ok(Value::from(1)) });
    rubtle.set_global_function("f", |_inv| -> CallbackResult<Value> { Ok(Value::from(2)) });
    assert_eq!(rubtle.call("f", &[]), Some(Value::from(2)));
    assert!(rubtle.functions.holds(1) && rubtle.functions.holds(2));
    let reply = rubtle.rubtle.finalize(1, Hidden::Func, &mut rubtle.functions);
    assert_eq!(reply.ops, vec![Op::RequireStack(1), Op::PushUndefined, Op::PutPropHidden(0, Hidden::Func)]);
    assert_eq!(reply.status, 0);
    assert!(!rubtle.functions.holds(1) && rubtle.functions.holds(2));
    assert_eq!(rubtle.call("f", &[]), Some(Value::from(2)));
}

#[test]
fn the_plan_of_a_native_function_is_exact() {
    let rubtle = Rubtle::new();
    let mut callbacks: Registry<u8> = Registry::new();
    assert_eq!(
        rubtle.set_global_function("f", 7, &mut callbacks),
        vec![
            Op::RequireStack(2),
            Op::PushNative(Trampoline::Function),
            Op::PushPointer(1),
            Op::PutPropHidden(-2, Hidden::Func),
            Op::PushNative(Trampoline::Finalizer(Hidden::Func)),
            Op::SetFinalizer(-2),
            Op::PutGlobalLString(b"f".to_vec()),
        ]
    );
    assert_eq!(callbacks.get(1), Some(&7));
    assert_eq!(
        rubtle.set_global_function("f\0", 8, &mut callbacks),
        vec![Op::Fatal(String::from("name cannot be encoded"))]
    );
    assert!(!callbacks.holds(2));
}

#[test]
fn a_panic_in_a_callback_is_one_fatal_error_and_nothing_else() {
    let rubtle = Rubtle::new();

    let reply = rubtle.function_return(Outcome::Panicked);
    assert_eq!(reply.ops, vec![Op::Fatal(String::from("fatal error on func call"))]);
    assert_eq!(reply.status, -1);

    let mut instances: Registry<Option<UserData>> = Registry::new();
    let reply = rubtle.finish_construct(Outcome::Panicked, Some(UserData::default()), &mut instances);
    assert_eq!(reply.ops, vec![Op::Fatal(String::from("Fatal error on func call"))]);
    assert_eq!(instances.room(), u64::MAX);

    let _ = instances.insert(Some(UserData::default()));
    let inv = rubtle.begin_method(&vec![], 1, &mut instances).ok().unwrap();
    let reply = rubtle.finish_method(Outcome::Panicked, 1, inv.udata, &mut instances);
    assert_eq!(reply.ops, vec![Op::Fatal(String::from("Fatal error on func call"))]);

    let mut heap = Heap::new();
    heap.run(&reply.ops);
    assert_eq!(heap.fatal, Some(String::from("Fatal error on func call")));
    assert_eq!(heap.stack.len(), 0);
}

#[test]
fn a_result_with_a_zero_character_is_pushed() {
    let rubtle = Rubtle::new();
    let reply = rubtle.function_return(Outcome::Returned(Ok(Value::from("\0"))));
    assert_eq!(reply.ops, vec![Op::RequireStack(1), Op::PushLString(vec![0x00])]);
    assert_eq!(reply.status, 1);

    let mut instances: Registry<Option<UserData>> = Registry::new();
    let _ = instances.insert(Some(UserData::default()));
    let inv = rubtle.begin_method(&vec![], 1, &mut instances).ok().unwrap();
    let reply = rubtle.finish_method(
        Outcome::Returned(Ok(Value::from("a\0b"))),
        1,
        inv.udata,
        &mut instances,
    );
    assert_eq!(reply.ops, vec![Op::RequireStack(1), Op::PushLString(vec![0x61, 0x00, 0x62])]);
    assert_eq!(reply.status, 1);
}

#[test]
fn a_constructor_called_as_a_function_is_fatal() {
    let rubtle = Rubtle::new();
    match rubtle.begin_construct::<UserData>(false, &vec![]) {
        Err(reply) => {
            assert_eq!(reply.ops, vec![Op::Fatal(String::from("constructor called without new"))]);
            assert_eq!(reply.status, -1);
        }
        Ok(_) => panic!("no fatal error"),
    }
}

#[test]
fn a_method_of_an_unknown_instance_is_fatal() {
    let rubtle = Rubtle::new();
    let mut instances: Registry<Option<UserData>> = Registry::new();
    match rubtle.begin_method(&vec![], 1, &mut instances) {
        Err(reply) => assert_eq!(reply.ops, vec![Op::Fatal(String::from("Null user data pointer"))]),
        Ok(_) => panic!("no fatal error"),
    }
    let reply = rubtle.finish_method(Outcome::Returned(Ok(Value::from(1))), 1, None, &mut instances);
    assert_eq!(reply.ops, vec![Op::Fatal(String::from("Null user data pointer"))]);
}

#[test]
fn an_error_of_a_method_gives_no_result() {
    let rubtle = Rubtle::new();
    let mut instances: Registry<Option<UserData>> = Registry::new();
    let _ = instances.insert(Some(UserData { value: 1 }));
    let inv = rubtle.begin_method(&vec![], 1, &mut instances).ok().unwrap();
    assert_eq!(inv.udata.as_ref().unwrap().value, 1);
    assert!(!instances.holds(1));
    let reply = rubtle.finish_method(Outcome::Returned(Err(Error::new("no"))), 1, Some(UserData { value: 3 }), &mut instances);
    assert_eq!(reply.ops, vec![]);
    assert_eq!(reply.status, 0);
    assert_eq!(instances.get(1).unwrap().as_ref().unwrap().value, 3);
}

#[test]
fn the_state_of_an_instance_lasts_from_call_to_call() {
    let mut object = counter(true, false);
    let mut rubtle = Host::new();
    let mut class = Class::new();

    rubtle.set_global_object("Counter", &mut object, &mut class);
    rubtle.eval("var c = new Counter(5); c.inc(); c.inc();");
    let c = rubtle.construct("Counter", &mut class, &[Value::from(5)]);
    assert_eq!(rubtle.call_method("Counter", &mut class, c, "inc", &[]), Some(Value::from(6)));
    assert_eq!(rubtle.call_method("Counter", &mut class, c, "inc", &[]), Some(Value::from(7)));
}

#[test]
fn a_constructor_without_arguments_takes_its_default() {
    let mut object = counter(true, false);
    let mut rubtle = Host::new();
    let mut class = Class::new();

    rubtle.set_global_object("Counter", &mut object, &mut class);
    let c = rubtle.construct("Counter", &mut class, &[]);
    assert_eq!(rubtle.call_method("Counter", &mut class, c, "inc", &[]), Some(Value::from(2)));
}

#[test]
fn instances_have_user_data_of_their_own() {
    let mut object = counter(true, true);
    let mut rubtle = Host::new();
    let mut class = Class::new();

    rubtle.set_global_object("Counter", &mut object, &mut class);
    let a = rubtle.construct("Counter", &mut class, &[Value::from(10)]);
    let b = rubtle.construct("Counter", &mut class, &[Value::from(20)]);
    assert_ne!(a, b);
    assert_eq!(rubtle.call_method("Counter", &mut class, a, "inc", &[Value::from(5)]), Some(Value::from(15)));
    assert_eq!(rubtle.call_method("Counter", &mut class, a, "inc", &[]), Some(Value::from(16)));
    assert_eq!(rubtle.call_method("Counter", &mut class, b, "inc", &[]), Some(Value::from(21)));
    assert_eq!(rubtle.call_method("Counter", &mut class, a, "inc", &[]), Some(Value::from(17)));
}

#[test]
fn the_plan_of_a_native_object_is_exact() {
    let rubtle = Rubtle::new();
    let mut object = ObjectBuilder::<u8, &str>::new()
        .with_constructor(1)
        .with_method("inc", "first")
        .with_method("get", "second")
        .build();
    let mut ctors: Registry<u8> = Registry::new();
    let mut methods: Registry<&str> = Registry::new();
    let _ = methods.insert("earlier");
    assert_eq!(
        rubtle.set_global_object("Counter", &mut object, &mut ctors, &mut methods),
        vec![
            Op::RequireStack(4),
            Op::PushNative(Trampoline::Constructor),
            Op::PushPointer(1),
            Op::PutPropHidden(-2, Hidden::Ctor),
            Op::PushNative(Trampoline::Finalizer(Hidden::Ctor)),
            Op::SetFinalizer(-2),
            Op::PushObject,
            Op::PushNative(Trampoline::Method),
            Op::PushPointer(2),
            Op::PutPropHidden(-2, Hidden::Meth),
            Op::PushNative(Trampoline::Finalizer(Hidden::Meth)),
            Op::SetFinalizer(-2),
            Op::PutPropLString(-2, b"get".to_vec()),
            Op::PushNative(Trampoline::Method),
            Op::PushPointer(3),
            Op::PutPropHidden(-2, Hidden::Meth),
            Op::PushNative(Trampoline::Finalizer(Hidden::Meth)),
            Op::SetFinalizer(-2),
            Op::PutPropLString(-2, b"inc".to_vec()),
            Op::PutPrototype(-2),
            Op::PutGlobalLString(b"Counter".to_vec()),
        ]
    );
    assert_eq!(ctors.get(1), Some(&1));
    assert_eq!(methods.get(2), Some(&"second"));
    assert_eq!(methods.get(3), Some(&"first"));
    assert_eq!(object.len(), 0);
    assert_eq!(object.take_constructor(), None);
}

#[test]
fn a_native_object_without_a_constructor_is_fatal() {
    let rubtle = Rubtle::new();
    let mut object = ObjectBuilder::<u8, &str>::new().with_method("inc", "first").build();
    let mut ctors: Registry<u8> = Registry::new();
    let mut methods: Registry<&str> = Registry::new();
    assert_eq!(
        rubtle.set_global_object("Counter", &mut object, &mut ctors, &mut methods),
        vec![Op::Fatal(String::from("No constructor"))]
    );
    assert!(object.has_method("inc"));
    assert!(!methods.holds(1));
}

#[test]
fn a_native_object_with_a_name_that_cannot_be_handed_over_is_left_alone() {
    let rubtle = Rubtle::new();
    let mut ctors: Registry<u8> = Registry::new();
    let mut methods: Registry<&str> = Registry::new();

    let mut object = ObjectBuilder::<u8, &str>::new().with_constructor(1).with_method("inc", "first").build();
    assert_eq!(
        rubtle.set_global_object("Coun\0ter", &mut object, &mut ctors, &mut methods),
        vec![Op::Fatal(String::from("name cannot be encoded"))]
    );
    assert!(object.has_method("inc"));
    assert_eq!(object.take_constructor(), Some(1));

    let mut object = ObjectBuilder::<u8, &str>::new()
        .with_constructor(1)
        .with_method("inc", "first")
        .with_method("g\0t", "second")
        .build();
    assert_eq!(
        rubtle.set_global_object("Counter", &mut object, &mut ctors, &mut methods),
        vec![Op::Fatal(String::from("name cannot be encoded"))]
    );
    assert_eq!(object.len(), 2);
    assert_eq!(object.take_constructor(), Some(1));
    assert!(!ctors.holds(1) && !methods.holds(1));
}

#[test]
fn the_user_data_of_a_new_instance_is_attached_to_it() {
    let rubtle = Rubtle::new();
    let mut instances: Registry<Option<u8>> = Registry::new();
    let reply = rubtle.finish_construct(Outcome::Returned(()), Some(9), &mut instances);
    assert_eq!(
        reply.ops,
        vec![
            Op::RequireStack(2),
            Op::PushThis,
            Op::PushPointer(1),
            Op::PutPropHidden(-2, Hidden::Udata),
            Op::PushNative(Trampoline::Finalizer(Hidden::Udata)),
            Op::SetFinalizer(-2),
            Op::Remove(-1),
        ]
    );
    assert_eq!(reply.status, 0);
    assert_eq!(instances.get(1), Some(&Some(9)));
}

#[test]
fn reserved_names_begin_with_a_byte_that_no_text_holds() {
    assert_eq!(Hidden::Func.key(), b"\xFFfunc".to_vec());
    assert_eq!(Hidden::Ctor.key(), b"\xFFctor".to_vec());
    assert_eq!(Hidden::Meth.key(), b"\xFFmeth".to_vec());
    assert_eq!(Hidden::Udata.key(), b"\xFFudata".to_vec());
}

#[test]
fn what_the_engine_frees_leaves_the_registries() {
    let mut object = counter(false, false);
    let mut rubtle = Host::new();
    let mut class = Class::new();

    rubtle.set_global_object("Counter", &mut object, &mut class);
    let a = rubtle.construct("Counter", &mut class, &[]);
    let b = rubtle.construct("Counter", &mut class, &[]);

    let reply = rubtle.rubtle.finalize(a, Hidden::Udata, &mut class.instances);
    assert_eq!(reply.ops, vec![Op::RequireStack(1), Op::PushUndefined, Op::PutPropHidden(0, Hidden::Udata)]);
    assert!(!class.instances.holds(a));
    assert!(class.instances.holds(b));
    assert_eq!(rubtle.call_method("Counter", &mut class, b, "inc", &[]), Some(Value::from(2)));

    let _ = rubtle.rubtle.finalize(1, Hidden::Meth, &mut class.methods);
    let _ = rubtle.rubtle.finalize(1, Hidden::Ctor, &mut class.ctors);
    assert!(!class.methods.holds(1) && !class.ctors.holds(1));
}

#[test]
fn a_reader_reads_members_and_all() {
    let mut heap = Heap::new();
    heap.reserve = 1;
    let cell = Cell::Array(vec![
        num(1.0),
        Cell::Object(vec![
            (b"a".to_vec(), Cell::Array(vec![])),
            (b"b".to_vec(), text("x")),
            (b"c".to_vec(), Cell::Object(vec![(b"d".to_vec(), Cell::Null)])),
        ]),
        Cell::Pointer(3),
        Cell::Undefined,
    ]);
    heap.push(cell.clone());
    assert_eq!(
        heap.read(0),
        Slot::Array(vec![
            Slot::Number(Number::from_bits(1.0f64.to_bits())),
            Slot::Object(vec![
                (b"c".to_vec(), Slot::Object(vec![(b"d".to_vec(), Slot::Null)])),
                (b"b".to_vec(), Slot::Text(b"x".to_vec())),
                (b"a".to_vec(), Slot::Array(vec![])),
            ]),
            Slot::Pointer(3),
            Slot::Undefined,
        ])
    );
    assert_eq!(heap.stack, vec![cell]);
    assert_eq!(heap.read(-1), heap.read(0));
    assert_eq!(heap.read(1), Slot::Missing);
    assert_eq!(heap.read(-2), Slot::Missing);
}

#[test]
fn a_reader_asks_its_questions_in_turn() {
    let (mut reader, ask) = Reader::start(-1);
    assert_eq!(ask, Ask::Inspect(-1));
    assert_eq!(reader.step(Told::Seen(Seen::Object)), Step::Ask(Ask::Enumerate(-1, false)));
    assert_eq!(reader.step(Told::Done), Step::Ask(Ask::Next));
    assert_eq!(reader.step(Told::Entry(b"k".to_vec())), Step::Ask(Ask::Inspect(-1)));
    assert_eq!(reader.step(Told::Seen(Seen::Array)), Step::Ask(Ask::Enumerate(-1, true)));
    assert_eq!(reader.step(Told::Done), Step::Ask(Ask::Next));
    assert_eq!(reader.step(Told::Entry(b"0".to_vec())), Step::Ask(Ask::Inspect(-1)));
    assert_eq!(reader.step(Told::Seen(Seen::Boolean(true))), Step::Ask(Ask::Drop(2)));
    assert_eq!(reader.step(Told::Done), Step::Ask(Ask::Next));
    assert_eq!(reader.step(Told::End), Step::Ask(Ask::Drop(1)));
    assert_eq!(reader.step(Told::Done), Step::Ask(Ask::Drop(2)));
    assert_eq!(reader.step(Told::Done), Step::Ask(Ask::Next));
    assert_eq!(reader.step(Told::End), Step::Ask(Ask::Drop(1)));
    assert_eq!(
        reader.step(Told::Done),
        Step::Done(Slot::Object(vec![(b"k".to_vec(), Slot::Array(vec![Slot::Boolean(true)]))]))
    );
    assert_eq!(reader.step(Told::Done), Step::Broken);
}

#[test]
fn a_reader_breaks_on_an_answer_to_another_question() {
    let (mut reader, _) = Reader::start(0);
    assert_eq!(reader.step(Told::End), Step::Broken);
    let (mut reader, _) = Reader::start(0);
    assert_eq!(reader.step(Told::Seen(Seen::Array)), Step::Ask(Ask::Enumerate(0, true)));
    assert_eq!(reader.step(Told::Seen(Seen::Null)), Step::Broken);
    assert_eq!(reader.step(Told::Done), Step::Broken);
    let (mut reader, _) = Reader::start(3);
    assert_eq!(reader.step(Told::Seen(Seen::Missing)), Step::Done(Slot::Missing));
}

#[test]
fn a_handle_is_found_where_it_was_stored() {
    let rubtle = Rubtle::new();
    let mut heap = Heap::new();
    heap.callee = Cell::Native {
        entry: Trampoline::Function,
        hidden: vec![(Hidden::Func, Cell::Pointer(7))],
        prototype: Vec::new(),
        finalizer: true,
    };
    heap.this = vec![(Hidden::Udata, Cell::Pointer(9))];
    assert_eq!(heap.locate(&rubtle, Holder::Callee, Hidden::Func), 7);
    assert_eq!(heap.locate(&rubtle, Holder::Callee, Hidden::Meth), 0);
    assert_eq!(heap.locate(&rubtle, Holder::This, Hidden::Udata), 9);
    heap.reserve = 1;
    heap.push(heap.callee.clone());
    assert_eq!(heap.locate(&rubtle, Holder::Freed, Hidden::Func), 7);
    assert_eq!(
        rubtle.locate(Holder::Callee, Hidden::Func),
        vec![Op::RequireStack(2), Op::PushCallee, Op::GetPropHidden(-1, Hidden::Func)]
    );
    assert_eq!(rubtle.locate(Holder::Freed, Hidden::Ctor), vec![Op::RequireStack(1), Op::GetPropHidden(0, Hidden::Ctor)]);
    assert_eq!(rubtle.located(Holder::This, &Slot::Pointer(4)).ops, vec![Op::Remove(-1), Op::Remove(-1)]);
    assert_eq!(rubtle.located(Holder::Freed, &Slot::Undefined).handle, 0);
}

#[test]
fn push_and_pop_str() {
    let mut rubtle = Host::new();

    rubtle.push_value(&Value::from("String Test"));
    let cstring = rubtle.pop_value_at(0).unwrap().into_string();

    println!("{}", cstring);
    assert_eq!(cstring, "String Test");
}

#[test]
fn what_is_seen_of_a_plain_slot_is_the_slot() {
    assert_eq!(slot_of(Seen::Missing), Slot::Missing);
    assert_eq!(slot_of(Seen::Undefined), Slot::Undefined);
    assert_eq!(slot_of(Seen::Null), Slot::Null);
    assert_eq!(slot_of(Seen::Boolean(true)), Slot::Boolean(true));
    assert_eq!(slot_of(Seen::Number(Number::from_i32(4))), Slot::Number(Number::from_i32(4)));
    assert_eq!(slot_of(Seen::Text(vec![0x61, 0x00])), Slot::Text(vec![0x61, 0x00]));
    assert_eq!(slot_of(Seen::Pointer(9)), Slot::Pointer(9));
    assert_eq!(slot_of(Seen::Other), Slot::Other);
}

#[test]
fn a_function_is_entered_with_its_arguments_and_no_user_data() {
    let rubtle = Rubtle::new();
    let slots = vec![
        Slot::Number(Number::from_i32(5)),
        Slot::Text(vec![0x61, 0x00, 0x62]),
        Slot::Undefined,
        Slot::Array(vec![Slot::Boolean(true)]),
    ];
    let invocation = rubtle.begin_function(&slots);
    assert!(invocation.udata.is_none());
    assert_eq!(
        invocation.args,
        Some(vec![
            Value::from(5),
            Value::Str(String::from("a\0b")),
            Value::Absent,
            Value::Array(vec![Value::from(true)]),
        ])
    );

    let invocation = rubtle.begin_function(&vec![]);
    assert_eq!(invocation.args, Some(vec![]));
    assert!(invocation.udata.is_none());
}
