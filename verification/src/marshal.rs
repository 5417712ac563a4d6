//! Values to engine calls and back: the plan that pushes a value, and the
//! value that a slot holds.

use crate::engine::{
    lemma_run_concat, lemma_run_pair, ops_view, shows, shows_items, shows_properties, Cell, Engine,
    Op, OpView, Slot,
};
use crate::error::Error;
use crate::transcode::{
    cesu8_decoding, cesu8_encoding, from_engine_bytes, to_value_bytes, transcodes_back,
};
use crate::value::{
    entries_view, items_view, last_index_of, lemma_entries_view, Value, ValueView,
};
use vstd::prelude::*;

verus! {

/// The index of the slot just below the top: where the array or object
/// stands while one of its members is on top.
pub const CONTAINER: i32 = -2;

/// Whether every value of a sequence can be pushed.
pub open spec fn pushable_items(items: Seq<Value>) -> bool
    decreases items, 0nat,
{
    if items.len() == 0 {
        true
    } else {
        pushable_items(items.drop_last()) && pushable(items.last())
    }
}

/// Whether the value of every entry can be pushed.
pub open spec fn pushable_entries(entries: Seq<(String, Value)>) -> bool
    decreases entries, 0nat,
{
    if entries.len() == 0 {
        true
    } else {
        pushable_entries(entries.drop_last()) && pushable(entries.last().1)
    }
}

/// Whether a value can be pushed: the indices of each of its arrays fit the
/// engine's 32-bit array index. Every primitive can be pushed, every string
/// among them, whatever characters it holds (`lemma_primitives_can_be_pushed`).
pub open spec fn pushable(v: Value) -> bool
    decreases v, 1nat,
{
    match v {
        Value::Array(items) => items.len() <= u32::MAX && pushable_items(items@),
        Value::Object(entries) => pushable_entries(entries@),
        _ => true,
    }
}

/// Whether every string of a sequence of values comes back from its encoding.
pub open spec fn transcodable_items(items: Seq<Value>) -> bool
    decreases items, 0nat,
{
    if items.len() == 0 {
        true
    } else {
        transcodable_items(items.drop_last()) && transcodable(items.last())
    }
}

/// Whether every key and every string of a sequence of entries comes back
/// from its encoding.
pub open spec fn transcodable_entries(entries: Seq<(String, Value)>) -> bool
    decreases entries, 0nat,
{
    if entries.len() == 0 {
        true
    } else {
        &&& transcodable_entries(entries.drop_last())
        &&& transcodes_back(entries.last().0@)
        &&& transcodable(entries.last().1)
    }
}

/// Whether every string and key of a value comes back from its encoding, as
/// the transcoder promises of each text that it has encoded.
pub open spec fn transcodable(v: Value) -> bool
    decreases v, 1nat,
{
    match v {
        Value::Str(s) => transcodes_back(s@),
        Value::Array(items) => transcodable_items(items@),
        Value::Object(entries) => transcodable_entries(entries@),
        _ => true,
    }
}

/// The calls that fill an array on top of the stack with the values.
pub open spec fn plan_items(items: Seq<Value>) -> Seq<OpView>
    decreases items, 0nat,
{
    if items.len() == 0 {
        Seq::empty()
    } else {
        plan_items(items.drop_last()) + plan(items.last()) + seq![
            OpView::PutPropIndex(CONTAINER, (items.len() - 1) as u32),
        ]
    }
}

/// The calls that fill an object on top of the stack with the entries.
pub open spec fn plan_entries(entries: Seq<(String, Value)>) -> Seq<OpView>
    decreases entries, 0nat,
{
    if entries.len() == 0 {
        Seq::empty()
    } else {
        plan_entries(entries.drop_last()) + plan(entries.last().1) + seq![
            OpView::PutPropLString(CONTAINER, cesu8_encoding(entries.last().0@)),
        ]
    }
}

/// The calls that push a value: room for one slot is asked for before each
/// push; an array or object is pushed empty and then filled, member by
/// member, each pushed in its turn and stored from the top.
pub open spec fn plan(v: Value) -> Seq<OpView>
    decreases v, 1nat,
{
    match v {
        Value::Absent => seq![OpView::RequireStack(1), OpView::PushUndefined],
        Value::Boolean(b) => seq![OpView::RequireStack(1), OpView::PushBoolean(b)],
        Value::Number(n) => seq![OpView::RequireStack(1), OpView::PushNumber(n.bits)],
        Value::Str(s) => seq![OpView::RequireStack(1), OpView::PushLString(cesu8_encoding(s@))],
        Value::Array(items) => seq![OpView::RequireStack(1), OpView::PushArray] + plan_items(
            items@,
        ),
        Value::Object(entries) => seq![OpView::RequireStack(1), OpView::PushObject]
            + plan_entries(entries@),
    }
}

/// The cells that stand for a sequence of values, one for one.
pub open spec fn cells_of_items(items: Seq<Value>) -> Seq<Cell>
    decreases items, 0nat,
{
    if items.len() == 0 {
        Seq::empty()
    } else {
        cells_of_items(items.drop_last()).push(cell_of(items.last()))
    }
}

/// The properties that stand for a sequence of entries: each key by its
/// encoding, a later entry replacing an earlier one with the same key.
pub open spec fn cells_of_entries(entries: Seq<(String, Value)>) -> Map<Seq<u8>, Cell>
    decreases entries, 0nat,
{
    if entries.len() == 0 {
        Map::empty()
    } else {
        cells_of_entries(entries.drop_last()).insert(
            cesu8_encoding(entries.last().0@),
            cell_of(entries.last().1),
        )
    }
}

/// What the engine holds for a value.
pub open spec fn cell_of(v: Value) -> Cell
    decreases v, 1nat,
{
    match v {
        Value::Absent => Cell::Undefined,
        Value::Boolean(b) => Cell::Boolean(b),
        Value::Number(n) => Cell::Number(n.bits),
        Value::Str(s) => Cell::Text(cesu8_encoding(s@)),
        Value::Array(items) => Cell::Array(cells_of_items(items@)),
        Value::Object(entries) => Cell::Object(cells_of_entries(entries@)),
    }
}

/// Appends one call to a plan.
fn emit(ops: &mut Vec<Op>, op: Op)
    ensures
        ops_view(final(ops)@) == ops_view(old(ops)@).push(op@),
{
    ops.push(op);
    assert(ops_view(ops@) =~= ops_view(old(ops)@).push(op@));
}

/// Appends to `ops` the calls that fill an array with the values.
fn push_items_into(items: &Vec<Value>, ops: &mut Vec<Op>) -> (r: Result<(), Error>)
    requires
        items.len() <= u32::MAX,
    ensures
        r is Ok <==> pushable_items(items@),
        r is Ok ==> transcodable_items(items@),
        r is Ok ==> ops_view(final(ops)@) == ops_view(old(ops)@) + plan_items(items@),
    decreases items, 0nat,
{
    let mut i: usize = 0;
    while i < items.len()
        invariant
            i <= items.len() <= u32::MAX,
            pushable_items(items@.subrange(0, i as int)),
            transcodable_items(items@.subrange(0, i as int)),
            ops_view(ops@) == ops_view(old(ops)@) + plan_items(items@.subrange(0, i as int)),
        decreases items.len() - i,
    {
        proof {
            assert(decreases_to!(items => items[i as int]));
            let prefix = items@.subrange(0, i + 1);
            assert(prefix.drop_last() =~= items@.subrange(0, i as int));
            assert(prefix.last() == items@[i as int]);
            if !pushable(items@[i as int]) {
                lemma_pushable_items_prefix(items@, i + 1);
            }
        }
        let ghost before = ops_view(ops@);
        match push_into(&items[i], ops) {
            Ok(()) => {},
            Err(e) => {
                return Err(e);
            },
        }
        let ghost between = ops_view(ops@);
        emit(ops, Op::PutPropIndex(CONTAINER, i as u32));
        proof {
            let prefix = items@.subrange(0, i + 1);
            assert(ops_view(ops@) =~= ops_view(old(ops)@) + plan_items(prefix));
        }
        i = i + 1;
    }
    proof {
        assert(items@.subrange(0, items.len() as int) =~= items@);
    }
    Ok(())
}

/// Appends to `ops` the calls that fill an object with the entries.
fn push_entries_into(entries: &Vec<(String, Value)>, ops: &mut Vec<Op>) -> (r: Result<(), Error>)
    ensures
        r is Ok <==> pushable_entries(entries@),
        r is Ok ==> transcodable_entries(entries@),
        r is Ok ==> ops_view(final(ops)@) == ops_view(old(ops)@) + plan_entries(entries@),
    decreases entries, 0nat,
{
    let mut i: usize = 0;
    while i < entries.len()
        invariant
            i <= entries.len(),
            pushable_entries(entries@.subrange(0, i as int)),
            transcodable_entries(entries@.subrange(0, i as int)),
            ops_view(ops@) == ops_view(old(ops)@) + plan_entries(entries@.subrange(0, i as int)),
        decreases entries.len() - i,
    {
        proof {
            assert(decreases_to!(entries => entries[i as int]));
            assert(decreases_to!(entries[i as int] => entries[i as int].1));
            let prefix = entries@.subrange(0, i + 1);
            assert(prefix.drop_last() =~= entries@.subrange(0, i as int));
            assert(prefix.last() == entries@[i as int]);
            if !pushable(entries@[i as int].1) {
                lemma_pushable_entries_prefix(entries@, i + 1);
            }
        }
        let key = to_value_bytes(entries[i].0.as_str());
        match push_into(&entries[i].1, ops) {
            Ok(()) => {},
            Err(e) => {
                return Err(e);
            },
        }
        emit(ops, Op::PutPropLString(CONTAINER, key));
        proof {
            let prefix = entries@.subrange(0, i + 1);
            assert(ops_view(ops@) =~= ops_view(old(ops)@) + plan_entries(prefix));
        }
        i = i + 1;
    }
    proof {
        assert(entries@.subrange(0, entries.len() as int) =~= entries@);
    }
    Ok(())
}

/// Appends to `ops` the calls that push a value.
pub fn push_into(rval: &Value, ops: &mut Vec<Op>) -> (r: Result<(), Error>)
    ensures
        r is Ok <==> pushable(*rval),
        r is Ok ==> transcodable(*rval),
        r is Ok ==> ops_view(final(ops)@) == ops_view(old(ops)@) + plan(*rval),
    decreases rval, 1nat,
{
    let ghost start = ops_view(ops@);
    match rval {
        Value::Absent => {
            emit(ops, Op::RequireStack(1));
            emit(ops, Op::PushUndefined);
            assert(ops_view(ops@) =~= start + plan(*rval));
            Ok(())
        },
        Value::Boolean(b) => {
            emit(ops, Op::RequireStack(1));
            emit(ops, Op::PushBoolean(*b));
            assert(ops_view(ops@) =~= start + plan(*rval));
            Ok(())
        },
        Value::Number(n) => {
            emit(ops, Op::RequireStack(1));
            emit(ops, Op::PushNumber(*n));
            assert(ops_view(ops@) =~= start + plan(*rval));
            Ok(())
        },
        Value::Str(s) => {
            let bytes = to_value_bytes(s.as_str());
            emit(ops, Op::RequireStack(1));
            emit(ops, Op::PushLString(bytes));
            assert(ops_view(ops@) =~= start + plan(*rval));
            Ok(())
        },
        Value::Array(items) => {
            if items.len() > u32::MAX as usize {
                return Err(Error::new("array holds too many elements"));
            }
            emit(ops, Op::RequireStack(1));
            emit(ops, Op::PushArray);
            let ghost head = ops_view(ops@);
            match push_items_into(items, ops) {
                Ok(()) => {
                    assert(ops_view(ops@) =~= start + plan(*rval));
                    Ok(())
                },
                Err(e) => Err(e),
            }
        },
        Value::Object(entries) => {
            emit(ops, Op::RequireStack(1));
            emit(ops, Op::PushObject);
            match push_entries_into(entries, ops) {
                Ok(()) => {
                    assert(ops_view(ops@) =~= start + plan(*rval));
                    Ok(())
                },
                Err(e) => Err(e),
            }
        },
    }
}

/// A sequence of values can be pushed only if each of its beginnings can.
pub proof fn lemma_pushable_items_prefix(items: Seq<Value>, n: int)
    requires
        0 <= n <= items.len(),
    ensures
        pushable_items(items) ==> pushable_items(items.subrange(0, n)),
    decreases items.len(),
{
    if n == items.len() {
        assert(items.subrange(0, n) =~= items);
    } else {
        lemma_pushable_items_prefix(items.drop_last(), n);
        assert(items.drop_last().subrange(0, n) =~= items.subrange(0, n));
    }
}

/// A sequence of entries can be pushed only if each of its beginnings can.
pub proof fn lemma_pushable_entries_prefix(entries: Seq<(String, Value)>, n: int)
    requires
        0 <= n <= entries.len(),
    ensures
        pushable_entries(entries) ==> pushable_entries(entries.subrange(0, n)),
    decreases entries.len(),
{
    if n == entries.len() {
        assert(entries.subrange(0, n) =~= entries);
    } else {
        lemma_pushable_entries_prefix(entries.drop_last(), n);
        assert(entries.drop_last().subrange(0, n) =~= entries.subrange(0, n));
    }
}

/// `cells_of_items` keeps the length.
pub proof fn lemma_cells_of_items_len(items: Seq<Value>)
    ensures
        cells_of_items(items).len() == items.len(),
    decreases items.len(),
{
    if items.len() > 0 {
        lemma_cells_of_items_len(items.drop_last());
    }
}

/// Whether `after` is `before` with one more value on its stack.
pub open spec fn has_pushed(before: Engine, after: Option<Engine>, cell: Cell) -> bool {
    &&& after matches Some(e)
    &&& e.stack == before.stack.push(cell)
    &&& e.globals == before.globals
    &&& e.this == before.this
}

/// With an empty array pushed on top of the stack, the calls of `plan_items`
/// leave it holding the values.
proof fn lemma_plan_items_fill(items: Seq<Value>, below: Seq<Cell>, e: Engine)
    requires
        pushable_items(items),
        items.len() <= u32::MAX,
        e.stack == below.push(Cell::Array(Seq::empty())),
    ensures
        e.run(plan_items(items)) matches Some(after) && after.stack == below.push(
            Cell::Array(cells_of_items(items)),
        ) && after.globals == e.globals && after.this == e.this,
    decreases items, 0nat,
{
    if items.len() > 0 {
        let front = items.drop_last();
        let last = items.last();
        lemma_plan_items_fill(front, below, e);
        let mid = e.run(plan_items(front))->0;
        lemma_plan_pushes(last, mid);
        let pushed = mid.run(plan(last))->0;
        lemma_cells_of_items_len(front);
        let store = seq![OpView::PutPropIndex(CONTAINER, (items.len() - 1) as u32)];
        assert(store.drop_first() =~= Seq::<OpView>::empty());
        let filled = pushed.step(store.first())->0;
        assert(pushed.run(store) == filled.run(store.drop_first()));
        assert(filled.stack =~= below.push(Cell::Array(cells_of_items(items))));
        lemma_run_concat(e, plan_items(front), plan(last));
        lemma_run_concat(e, plan_items(front) + plan(last), store);
    }
}

/// With an empty object pushed on top of the stack, the calls of
/// `plan_entries` leave it holding the entries.
proof fn lemma_plan_entries_fill(entries: Seq<(String, Value)>, below: Seq<Cell>, e: Engine)
    requires
        pushable_entries(entries),
        e.stack == below.push(Cell::Object(Map::empty())),
    ensures
        e.run(plan_entries(entries)) matches Some(after) && after.stack == below.push(
            Cell::Object(cells_of_entries(entries)),
        ) && after.globals == e.globals && after.this == e.this,
    decreases entries, 0nat,
{
    if entries.len() > 0 {
        let front = entries.drop_last();
        let last = entries.last();
        lemma_plan_entries_fill(front, below, e);
        let mid = e.run(plan_entries(front))->0;
        lemma_plan_pushes(last.1, mid);
        let pushed = mid.run(plan(last.1))->0;
        let store = seq![OpView::PutPropLString(CONTAINER, cesu8_encoding(last.0@))];
        assert(store.drop_first() =~= Seq::<OpView>::empty());
        let filled = pushed.step(store.first())->0;
        assert(pushed.run(store) == filled.run(store.drop_first()));
        assert(filled.stack =~= below.push(Cell::Object(cells_of_entries(entries))));
        lemma_run_concat(e, plan_entries(front), plan(last.1));
        lemma_run_concat(e, plan_entries(front) + plan(last.1), store);
    }
}

/// The plan of a value does what it is for: whatever state the engine is in,
/// the calls succeed, leave what stands for the value on top of the stack and
/// change nothing else of the stack or the globals.
pub proof fn lemma_plan_pushes(v: Value, e: Engine)
    requires
        pushable(v),
    ensures
        has_pushed(e, e.run(plan(v)), cell_of(v)),
    decreases v, 1nat,
{
    match v {
        Value::Absent => {
            lemma_run_pair(e, OpView::RequireStack(1), OpView::PushUndefined);
        },
        Value::Boolean(b) => {
            lemma_run_pair(e, OpView::RequireStack(1), OpView::PushBoolean(b));
        },
        Value::Number(n) => {
            lemma_run_pair(e, OpView::RequireStack(1), OpView::PushNumber(n.bits));
        },
        Value::Str(s) => {
            lemma_run_pair(
                e,
                OpView::RequireStack(1),
                OpView::PushLString(cesu8_encoding(s@)),
            );
        },
        Value::Array(items) => {
            let head = seq![OpView::RequireStack(1), OpView::PushArray];
            lemma_run_pair(e, OpView::RequireStack(1), OpView::PushArray);
            let mid = e.run(head)->0;
            lemma_plan_items_fill(items@, e.stack, mid);
            lemma_run_concat(e, head, plan_items(items@));
        },
        Value::Object(entries) => {
            let head = seq![OpView::RequireStack(1), OpView::PushObject];
            lemma_run_pair(e, OpView::RequireStack(1), OpView::PushObject);
            let mid = e.run(head)->0;
            lemma_plan_entries_fill(entries@, e.stack, mid);
            lemma_run_concat(e, head, plan_entries(entries@));
        },
    }
}

/// The elements read from a sequence of slots: those that hold a value, in
/// their order.
pub open spec fn decoded_items(slots: Seq<Slot>) -> Seq<ValueView>
    decreases slots, 0nat,
{
    if slots.len() == 0 {
        Seq::empty()
    } else {
        match decoded(slots.last()) {
            Some(item) => decoded_items(slots.drop_last()).push(item),
            None => decoded_items(slots.drop_last()),
        }
    }
}

/// The map read from the properties of an object: those whose key is text
/// and whose slot holds a value; a later one replaces an earlier one with the
/// same key.
pub open spec fn decoded_entries(slots: Seq<(Vec<u8>, Slot)>) -> Map<Seq<char>, ValueView>
    decreases slots, 0nat,
{
    if slots.len() == 0 {
        Map::empty()
    } else {
        match (cesu8_decoding(slots.last().0@), decoded(slots.last().1)) {
            (Some(key), Some(item)) => decoded_entries(slots.drop_last()).insert(key, item),
            _ => decoded_entries(slots.drop_last()),
        }
    }
}

/// The value that a slot holds, if it holds one: undefined is the absent
/// value, a string is its text if its bytes are well formed, an array or an
/// object holds those of its members that hold a value. Anything else (null,
/// a function, a pointer, no slot at all) holds none.
pub open spec fn decoded(slot: Slot) -> Option<ValueView>
    decreases slot, 1nat,
{
    match slot {
        Slot::Undefined => Some(ValueView::Absent),
        Slot::Boolean(b) => Some(ValueView::Boolean(b)),
        Slot::Number(n) => Some(ValueView::Number(n.bits)),
        Slot::Text(bytes) => match cesu8_decoding(bytes@) {
            Some(text) => Some(ValueView::Str(text)),
            None => None,
        },
        Slot::Array(slots) => Some(ValueView::Array(decoded_items(slots@))),
        Slot::Object(slots) => Some(ValueView::Object(decoded_entries(slots@))),
        _ => None,
    }
}

/// Where every slot holds a value, the values read are those of the slots,
/// in their order.
pub proof fn lemma_decoded_items_in_order(slots: Seq<Slot>)
    requires
        forall|i: int| 0 <= i < slots.len() ==> decoded(#[trigger] slots[i]) is Some,
    ensures
        decoded_items(slots).len() == slots.len(),
        forall|i: int|
            0 <= i < slots.len() ==> #[trigger] decoded_items(slots)[i] == decoded(slots[i])->0,
    decreases slots.len(),
{
    if slots.len() > 0 {
        let front = slots.drop_last();
        assert forall|i: int| 0 <= i < front.len() implies decoded(#[trigger] front[i]) is Some by {
            assert(front[i] == slots[i]);
        }
        lemma_decoded_items_in_order(front);
        assert(slots.last() == slots[slots.len() - 1]);
        assert forall|i: int| 0 <= i < slots.len() implies #[trigger] decoded_items(slots)[i]
            == decoded(slots[i])->0 by {
            if i < slots.len() - 1 {
                assert(front[i] == slots[i]);
            }
        }
    }
}

/// The values held by the elements of an array.
pub fn decode_items(slots: &Vec<Slot>) -> (r: Vec<Value>)
    ensures
        items_view(r@) == decoded_items(slots@),
    decreases slots, 0nat,
{
    let mut items: Vec<Value> = Vec::new();
    let mut i: usize = 0;
    while i < slots.len()
        invariant
            i <= slots.len(),
            items_view(items@) == decoded_items(slots@.subrange(0, i as int)),
        decreases slots.len() - i,
    {
        proof {
            assert(decreases_to!(slots => slots[i as int]));
            let prefix = slots@.subrange(0, i + 1);
            assert(prefix.drop_last() =~= slots@.subrange(0, i as int));
            assert(prefix.last() == slots@[i as int]);
        }
        match decode(&slots[i]) {
            Some(item) => {
                let ghost before = items@;
                items.push(item);
                proof {
                    assert(items@.drop_last() =~= before);
                }
            },
            None => {},
        }
        i = i + 1;
    }
    proof {
        assert(slots@.subrange(0, slots.len() as int) =~= slots@);
    }
    items
}

/// The entries held by the properties of an object.
pub fn decode_entries(slots: &Vec<(Vec<u8>, Slot)>) -> (r: Vec<(String, Value)>)
    ensures
        entries_view(r@) == decoded_entries(slots@),
    decreases slots, 0nat,
{
    let mut entries: Vec<(String, Value)> = Vec::new();
    let mut i: usize = 0;
    while i < slots.len()
        invariant
            i <= slots.len(),
            entries_view(entries@) == decoded_entries(slots@.subrange(0, i as int)),
        decreases slots.len() - i,
    {
        proof {
            assert(decreases_to!(slots => slots[i as int]));
            assert(decreases_to!(slots[i as int] => slots[i as int].1));
            let prefix = slots@.subrange(0, i + 1);
            assert(prefix.drop_last() =~= slots@.subrange(0, i as int));
            assert(prefix.last() == slots@[i as int]);
        }
        match from_engine_bytes(&slots[i].0) {
            Ok(key) => match decode(&slots[i].1) {
                Some(item) => {
                    let ghost before = entries@;
                    entries.push((key, item));
                    proof {
                        assert(entries@.drop_last() =~= before);
                    }
                },
                None => {},
            },
            Err(_) => {},
        }
        i = i + 1;
    }
    proof {
        assert(slots@.subrange(0, slots.len() as int) =~= slots@);
    }
    entries
}

/// The value that a slot holds, if it holds one.
pub fn decode(slot: &Slot) -> (r: Option<Value>)
    ensures
        r is Some <==> decoded(*slot) is Some,
        r matches Some(v) ==> decoded(*slot) == Some(v@),
    decreases slot, 1nat,
{
    match slot {
        Slot::Undefined => Some(Value::Absent),
        Slot::Boolean(b) => Some(Value::Boolean(*b)),
        Slot::Number(n) => Some(Value::Number(*n)),
        Slot::Text(bytes) => match from_engine_bytes(bytes) {
            Ok(text) => Some(Value::Str(text)),
            Err(_) => None,
        },
        Slot::Array(slots) => Some(Value::Array(decode_items(slots))),
        Slot::Object(slots) => Some(Value::Object(decode_entries(slots))),
        _ => None,
    }
}

/// Every entry of a transcodable sequence has a key that comes back from its
/// encoding and a transcodable value.
proof fn lemma_transcodable_entry(entries: Seq<(String, Value)>, i: int)
    requires
        transcodable_entries(entries),
        0 <= i < entries.len(),
    ensures
        transcodes_back(entries[i].0@),
        transcodable(entries[i].1),
    decreases entries.len(),
{
    if i < entries.len() - 1 {
        lemma_transcodable_entry(entries.drop_last(), i);
    }
}

/// The properties that stand for entries are found under the encodings of
/// their keys, and each holds the cell of the last entry with its key.
proof fn lemma_cells_of_entries(entries: Seq<(String, Value)>, name: Seq<u8>)
    requires
        transcodable_entries(entries),
    ensures
        cells_of_entries(entries).dom().contains(name) <==> exists|i: int|
            0 <= i < entries.len() && cesu8_encoding((#[trigger] entries[i]).0@) == name,
        cells_of_entries(entries).dom().contains(name) ==> {
            &&& cesu8_decoding(name) matches Some(key)
            &&& cesu8_encoding(key) == name
            &&& 0 <= last_index_of(entries, key) < entries.len()
            &&& cells_of_entries(entries)[name] == cell_of(
                entries[last_index_of(entries, key)].1,
            )
        },
    decreases entries.len(),
{
    if entries.len() > 0 {
        let front = entries.drop_last();
        let last = entries.last();
        lemma_cells_of_entries(front, name);
        lemma_transcodable_entry(entries, entries.len() - 1);
        if cells_of_entries(front).dom().contains(name) {
            let i = choose|i: int|
                0 <= i < front.len() && cesu8_encoding((#[trigger] front[i]).0@) == name;
            assert(entries[i] == front[i]);
            lemma_transcodable_entry(entries, i);
        }
        if cells_of_entries(entries).dom().contains(name) {
            if cesu8_encoding(last.0@) == name {
                assert(cesu8_encoding(entries[entries.len() - 1].0@) == name);
            } else {
                let i = choose|i: int|
                    0 <= i < front.len() && cesu8_encoding((#[trigger] front[i]).0@) == name;
                assert(entries[i] == front[i]);
            }
        }
        if exists|i: int|
            0 <= i < entries.len() && cesu8_encoding((#[trigger] entries[i]).0@) == name {
            let i = choose|i: int|
                0 <= i < entries.len() && cesu8_encoding((#[trigger] entries[i]).0@) == name;
            if i < entries.len() - 1 {
                assert(front[i] == entries[i]);
            }
        }
    }
}

/// Each property that was read is a property of the object, read from the
/// cell under its key.
proof fn lemma_shows_property(slots: Seq<(Vec<u8>, Slot)>, cells: Map<Seq<u8>, Cell>, j: int)
    requires
        shows_properties(slots, cells),
        0 <= j < slots.len(),
    ensures
        cells.dom().contains(slots[j].0@),
        shows(slots[j].1, cells[slots[j].0@]),
    decreases slots.len(),
{
    if j < slots.len() - 1 {
        lemma_shows_property(slots.drop_last(), cells, j);
    }
}

/// Where every property read holds the value that a map has under the
/// property's key, the map read from them lies within that map and holds each
/// of those keys.
proof fn lemma_decoded_entries_agree(slots: Seq<(Vec<u8>, Slot)>, target: Map<Seq<char>, ValueView>)
    requires
        forall|j: int|
            0 <= j < slots.len() ==> {
                &&& cesu8_decoding((#[trigger] slots[j]).0@) matches Some(key)
                &&& target.dom().contains(key)
                &&& decoded(slots[j].1) == Some(target[key])
            },
    ensures
        forall|key: Seq<char>| #[trigger]
            decoded_entries(slots).dom().contains(key) ==> target.dom().contains(key)
                && decoded_entries(slots)[key] == target[key],
        forall|j: int|
            0 <= j < slots.len() ==> decoded_entries(slots).dom().contains(
                cesu8_decoding((#[trigger] slots[j]).0@)->0,
            ),
    decreases slots.len(),
{
    if slots.len() > 0 {
        let front = slots.drop_last();
        assert forall|j: int| 0 <= j < front.len() implies {
            &&& cesu8_decoding((#[trigger] front[j]).0@) matches Some(key)
            &&& target.dom().contains(key)
            &&& decoded(front[j].1) == Some(target[key])
        } by {
            assert(front[j] == slots[j]);
        }
        lemma_decoded_entries_agree(front, target);
        assert(slots.last() == slots[slots.len() - 1]);
        assert forall|j: int| 0 <= j < slots.len() implies decoded_entries(slots).dom().contains(
            cesu8_decoding((#[trigger] slots[j]).0@)->0,
        ) by {
            if j < slots.len() - 1 {
                assert(front[j] == slots[j]);
            }
        }
    }
}

/// Reading back the members of an array that stands for values gives the
/// values.
proof fn lemma_items_round_trip(items: Seq<Value>, slots: Seq<Slot>)
    requires
        transcodable_items(items),
        shows_items(slots, cells_of_items(items)),
    ensures
        decoded_items(slots) == items_view(items),
    decreases items, 0nat,
{
    lemma_cells_of_items_len(items);
    if slots.len() > 0 {
        let cells = cells_of_items(items);
        assert(cells.drop_last() =~= cells_of_items(items.drop_last()));
        lemma_items_round_trip(items.drop_last(), slots.drop_last());
        lemma_round_trip(items.last(), slots.last());
    }
}

/// Reading back the properties of an object that stands for entries gives the
/// map of the entries, in whatever order the properties were read.
proof fn lemma_entries_round_trip(entries: Seq<(String, Value)>, slots: Seq<(Vec<u8>, Slot)>)
    requires
        transcodable_entries(entries),
        shows_properties(slots, cells_of_entries(entries)),
        forall|key: Seq<u8>|
            cells_of_entries(entries).dom().contains(key) ==> exists|i: int|
                0 <= i < slots.len() && (#[trigger] slots[i]).0@ == key,
    ensures
        decoded_entries(slots) == entries_view(entries),
    decreases entries, 0nat,
{
    let cells = cells_of_entries(entries);
    let target = entries_view(entries);
    assert forall|j: int| 0 <= j < slots.len() implies {
        &&& cesu8_decoding((#[trigger] slots[j]).0@) matches Some(key)
        &&& target.dom().contains(key)
        &&& decoded(slots[j].1) == Some(target[key])
    } by {
        let name = slots[j].0@;
        lemma_shows_property(slots, cells, j);
        lemma_cells_of_entries(entries, name);
        let key = cesu8_decoding(name)->0;
        let at = last_index_of(entries, key);
        lemma_entries_view(entries, key);
        lemma_transcodable_entry(entries, at);
        assert(decreases_to!(entries => entries[at]));
        assert(decreases_to!(entries[at] => entries[at].1));
        lemma_round_trip(entries[at].1, slots[j].1);
    }
    lemma_decoded_entries_agree(slots, target);
    let read = decoded_entries(slots);
    assert forall|key: Seq<char>| #[trigger] target.dom().contains(key) implies read.dom().contains(
        key,
    ) by {
        lemma_entries_view(entries, key);
        let at = last_index_of(entries, key);
        lemma_transcodable_entry(entries, at);
        let name = cesu8_encoding(key);
        assert(cesu8_encoding(entries[at].0@) == name);
        lemma_cells_of_entries(entries, name);
        let j = choose|j: int| 0 <= j < slots.len() && (#[trigger] slots[j]).0@ == name;
        assert(cesu8_decoding(slots[j].0@)->0 == key);
    }
    assert(read.dom() =~= target.dom());
    assert(read =~= target);
}

/// What was pushed is what is popped: a slot read from the cell that stands
/// for a value holds that value, whatever the order in which the properties
/// of its objects were read. It holds of every value whose strings come back
/// from their encoding, which `push_into` reports of each value it accepts.
pub proof fn lemma_round_trip(v: Value, slot: Slot)
    requires
        transcodable(v),
        shows(slot, cell_of(v)),
    ensures
        decoded(slot) == Some(v@),
    decreases v, 1nat,
{
    match v {
        Value::Array(items) => {
            lemma_items_round_trip(items@, slot->Array_0@);
        },
        Value::Object(entries) => {
            lemma_entries_round_trip(entries@, slot->Object_0@);
        },
        _ => {},
    }
}

} // verus!
