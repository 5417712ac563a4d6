//! Values from host types, and host types from values.

use crate::number::Number;
use crate::value::{
    counting_entries, counts, entries_view, items_view, last_index_of, lemma_entries_view,
    lemma_items_view, Value, ValueView,
};
use vstd::prelude::*;
use vstd::std_specs::convert::FromSpecImpl;
use vstd::string::StringExecFns;

verus! {

impl From<()> for Value {
    fn from(src: ()) -> (r: Value)
        ensures
            r == Value::Absent,
    {
        Value::Absent
    }
}

impl FromSpecImpl<()> for Value {
    open spec fn obeys_from_spec() -> bool {
        true
    }

    open spec fn from_spec(src: ()) -> Value {
        Value::Absent
    }
}

impl From<bool> for Value {
    fn from(src: bool) -> (r: Value)
        ensures
            r == Value::Boolean(src),
    {
        Value::Boolean(src)
    }
}

impl FromSpecImpl<bool> for Value {
    open spec fn obeys_from_spec() -> bool {
        true
    }

    open spec fn from_spec(src: bool) -> Value {
        Value::Boolean(src)
    }
}

impl From<Number> for Value {
    fn from(src: Number) -> (r: Value)
        ensures
            r == Value::Number(src),
    {
        Value::Number(src)
    }
}

impl FromSpecImpl<Number> for Value {
    open spec fn obeys_from_spec() -> bool {
        true
    }

    open spec fn from_spec(src: Number) -> Value {
        Value::Number(src)
    }
}

/// An integer goes through a double; an `i32` does so without loss.
impl From<i32> for Value {
    fn from(src: i32) -> (r: Value)
        ensures
            r is Number,
            r->Number_0.is_integer(),
            r->Number_0.truncated() == src,
            src == 0 ==> r->Number_0.bits == 0,
    {
        Value::Number(Number::from_i32(src))
    }
}

impl FromSpecImpl<i32> for Value {
    open spec fn obeys_from_spec() -> bool {
        false
    }

    open spec fn from_spec(src: i32) -> Value {
        Value::Absent
    }
}

impl From<String> for Value {
    fn from(src: String) -> (r: Value)
        ensures
            r == Value::Str(src),
    {
        Value::Str(src)
    }
}

impl FromSpecImpl<String> for Value {
    open spec fn obeys_from_spec() -> bool {
        true
    }

    open spec fn from_spec(src: String) -> Value {
        Value::Str(src)
    }
}

impl From<&str> for Value {
    fn from(src: &str) -> (r: Value)
        ensures
            r@ == ValueView::Str(src@),
    {
        Value::Str(String::from_str(src))
    }
}

impl FromSpecImpl<&str> for Value {
    open spec fn obeys_from_spec() -> bool {
        false
    }

    open spec fn from_spec(src: &str) -> Value {
        Value::Absent
    }
}

impl Value {
    /// The unit that the absent value stands for.
    pub fn into_unit(self) -> (r: ())
        requires
            self is Absent,
    {
    }

    pub fn into_bool(self) -> (r: bool)
        requires
            self is Boolean,
        ensures
            self == Value::Boolean(r),
    {
        match self {
            Value::Boolean(b) => b,
            _ => false,
        }
    }

    pub fn into_number(self) -> (r: Number)
        requires
            self is Number,
        ensures
            self == Value::Number(r),
    {
        match self {
            Value::Number(n) => n,
            _ => Number { bits: 0 },
        }
    }

    /// The number as an `i32`, as a cast of a double gives it: rounded toward
    /// zero, and held to the range of `i32`.
    pub fn into_i32(self) -> (r: i32)
        requires
            self is Number,
        ensures
            r == self->Number_0.saturated_i32(),
    {
        match self {
            Value::Number(n) => n.to_i32(),
            _ => 0,
        }
    }

    pub fn into_string(self) -> (r: String)
        requires
            self is Str,
        ensures
            self == Value::Str(r),
    {
        match self {
            Value::Str(s) => s,
            _ => String::new(),
        }
    }
}

/// The elements that a sequence of booleans stands for.
pub open spec fn bool_items(src: Seq<bool>) -> Seq<ValueView> {
    Seq::new(src.len(), |i: int| ValueView::Boolean(src[i]))
}

impl From<&Vec<bool>> for Value {
    fn from(src: &Vec<bool>) -> (r: Value)
        ensures
            r@ == ValueView::Array(bool_items(src@)),
    {
        let mut items: Vec<Value> = Vec::new();
        let mut i: usize = 0;
        while i < src.len()
            invariant
                i <= src.len(),
                items.len() == i,
                forall|j: int| 0 <= j < i ==> (#[trigger] items@[j])@ == bool_items(src@)[j],
            decreases src.len() - i,
        {
            items.push(Value::Boolean(src[i]));
            i = i + 1;
        }
        proof {
            lemma_items_view(items@);
            assert(items_view(items@) =~= bool_items(src@));
        }
        Value::Array(items)
    }
}

impl FromSpecImpl<&Vec<bool>> for Value {
    open spec fn obeys_from_spec() -> bool {
        false
    }

    open spec fn from_spec(src: &Vec<bool>) -> Value {
        Value::Absent
    }
}

/// The elements that a sequence of numbers stands for.
pub open spec fn number_items(src: Seq<Number>) -> Seq<ValueView> {
    Seq::new(src.len(), |i: int| ValueView::Number(src[i].bits))
}

impl From<&Vec<Number>> for Value {
    fn from(src: &Vec<Number>) -> (r: Value)
        ensures
            r@ == ValueView::Array(number_items(src@)),
    {
        let mut items: Vec<Value> = Vec::new();
        let mut i: usize = 0;
        while i < src.len()
            invariant
                i <= src.len(),
                items.len() == i,
                forall|j: int| 0 <= j < i ==> (#[trigger] items@[j])@ == number_items(src@)[j],
            decreases src.len() - i,
        {
            items.push(Value::Number(src[i]));
            i = i + 1;
        }
        proof {
            lemma_items_view(items@);
            assert(items_view(items@) =~= number_items(src@));
        }
        Value::Array(items)
    }
}

impl FromSpecImpl<&Vec<Number>> for Value {
    open spec fn obeys_from_spec() -> bool {
        false
    }

    open spec fn from_spec(src: &Vec<Number>) -> Value {
        Value::Absent
    }
}

/// The elements that a sequence of strings stands for.
pub open spec fn text_items(src: Seq<&str>) -> Seq<ValueView> {
    Seq::new(src.len(), |i: int| ValueView::Str(src[i]@))
}

impl From<&Vec<&str>> for Value {
    fn from(src: &Vec<&str>) -> (r: Value)
        ensures
            r@ == ValueView::Array(text_items(src@)),
    {
        let mut items: Vec<Value> = Vec::new();
        let mut i: usize = 0;
        while i < src.len()
            invariant
                i <= src.len(),
                items.len() == i,
                forall|j: int| 0 <= j < i ==> (#[trigger] items@[j])@ == text_items(src@)[j],
            decreases src.len() - i,
        {
            items.push(Value::Str(String::from_str(src[i])));
            i = i + 1;
        }
        proof {
            lemma_items_view(items@);
            assert(items_view(items@) =~= text_items(src@));
        }
        Value::Array(items)
    }
}

impl FromSpecImpl<&Vec<&str>> for Value {
    open spec fn obeys_from_spec() -> bool {
        false
    }

    open spec fn from_spec(src: &Vec<&str>) -> Value {
        Value::Absent
    }
}

/// Each integer goes through a double, without loss.
impl From<&Vec<i32>> for Value {
    fn from(src: &Vec<i32>) -> (r: Value)
        ensures
            r is Array,
            r->Array_0.len() == src.len(),
            forall|i: int|
                0 <= i < src.len() ==> {
                    &&& (#[trigger] r->Array_0[i]) is Number
                    &&& r->Array_0[i]->Number_0.is_integer()
                    &&& r->Array_0[i]->Number_0.truncated() == src[i]
                    &&& src[i] == 0 ==> r->Array_0[i]->Number_0.bits == 0
                },
    {
        let mut items: Vec<Value> = Vec::new();
        let mut i: usize = 0;
        while i < src.len()
            invariant
                i <= src.len(),
                items.len() == i,
                forall|j: int|
                    0 <= j < i ==> {
                        &&& (#[trigger] items@[j]) is Number
                        &&& items@[j]->Number_0.is_integer()
                        &&& items@[j]->Number_0.truncated() == src[j]
                        &&& src[j] == 0 ==> items@[j]->Number_0.bits == 0
                    },
            decreases src.len() - i,
        {
            items.push(Value::Number(Number::from_i32(src[i])));
            i = i + 1;
        }
        Value::Array(items)
    }
}

impl FromSpecImpl<&Vec<i32>> for Value {
    open spec fn obeys_from_spec() -> bool {
        false
    }

    open spec fn from_spec(src: &Vec<i32>) -> Value {
        Value::Absent
    }
}

impl Value {
    /// The elements of an array of booleans.
    pub fn into_bools(self) -> (r: Vec<bool>)
        requires
            self is Array,
            forall|i: int| 0 <= i < self->Array_0.len() ==> (#[trigger] self->Array_0[i]) is Boolean,
        ensures
            r.len() == self->Array_0.len(),
            forall|i: int| 0 <= i < r.len() ==> self->Array_0[i] == Value::Boolean(#[trigger] r[i]),
    {
        let mut out: Vec<bool> = Vec::new();
        if let Value::Array(items) = &self {
            let mut i: usize = 0;
            while i < items.len()
                invariant
                    i <= items.len(),
                    out.len() == i,
                    forall|j: int| 0 <= j < items.len() ==> (#[trigger] items[j]) is Boolean,
                    forall|j: int| 0 <= j < i ==> items[j] == Value::Boolean(#[trigger] out[j]),
                decreases items.len() - i,
            {
                if let Value::Boolean(b) = &items[i] {
                    out.push(*b);
                }
                i = i + 1;
            }
        }
        out
    }

    /// The elements of an array of numbers.
    pub fn into_numbers(self) -> (r: Vec<Number>)
        requires
            self is Array,
            forall|i: int| 0 <= i < self->Array_0.len() ==> (#[trigger] self->Array_0[i]) is Number,
        ensures
            r.len() == self->Array_0.len(),
            forall|i: int| 0 <= i < r.len() ==> self->Array_0[i] == Value::Number(#[trigger] r[i]),
    {
        let mut out: Vec<Number> = Vec::new();
        if let Value::Array(items) = &self {
            let mut i: usize = 0;
            while i < items.len()
                invariant
                    i <= items.len(),
                    out.len() == i,
                    forall|j: int| 0 <= j < items.len() ==> (#[trigger] items[j]) is Number,
                    forall|j: int| 0 <= j < i ==> items[j] == Value::Number(#[trigger] out[j]),
                decreases items.len() - i,
            {
                if let Value::Number(n) = &items[i] {
                    out.push(*n);
                }
                i = i + 1;
            }
        }
        out
    }

    /// The elements of an array of numbers, each as an `i32` (see
    /// [`Value::into_i32`]).
    pub fn into_i32s(self) -> (r: Vec<i32>)
        requires
            self is Array,
            forall|i: int| 0 <= i < self->Array_0.len() ==> (#[trigger] self->Array_0[i]) is Number,
        ensures
            r.len() == self->Array_0.len(),
            forall|i: int|
                0 <= i < r.len() ==> (#[trigger] r[i]) == self->Array_0[i]->Number_0.saturated_i32(),
    {
        let mut out: Vec<i32> = Vec::new();
        if let Value::Array(items) = &self {
            let mut i: usize = 0;
            while i < items.len()
                invariant
                    i <= items.len(),
                    out.len() == i,
                    forall|j: int| 0 <= j < items.len() ==> (#[trigger] items[j]) is Number,
                    forall|j: int|
                        0 <= j < i ==> (#[trigger] out[j]) == items[j]->Number_0.saturated_i32(),
                decreases items.len() - i,
            {
                if let Value::Number(n) = &items[i] {
                    out.push(n.to_i32());
                }
                i = i + 1;
            }
        }
        out
    }

    /// The elements of an array of strings.
    pub fn into_strings(self) -> (r: Vec<String>)
        requires
            self is Array,
            forall|i: int| 0 <= i < self->Array_0.len() ==> (#[trigger] self->Array_0[i]) is Str,
        ensures
            r.len() == self->Array_0.len(),
            forall|i: int| 0 <= i < r.len() ==> self->Array_0[i] == Value::Str(#[trigger] r[i]),
    {
        let mut out: Vec<String> = Vec::new();
        if let Value::Array(items) = &self {
            let mut i: usize = 0;
            while i < items.len()
                invariant
                    i <= items.len(),
                    out.len() == i,
                    forall|j: int| 0 <= j < items.len() ==> (#[trigger] items[j]) is Str,
                    forall|j: int| 0 <= j < i ==> items[j] == Value::Str(#[trigger] out[j]),
                decreases items.len() - i,
            {
                if let Value::Str(s) = &items[i] {
                    out.push(s.clone());
                }
                i = i + 1;
            }
        }
        out
    }
}

/// The map that a sequence of named booleans stands for: a later entry
/// replaces an earlier one with the same name.
pub open spec fn bool_entries(src: Seq<(&str, bool)>) -> Map<Seq<char>, ValueView>
    decreases src.len(),
{
    if src.len() == 0 {
        Map::empty()
    } else {
        bool_entries(src.drop_last()).insert(src.last().0@, ValueView::Boolean(src.last().1))
    }
}

impl From<&Vec<(&str, bool)>> for Value {
    fn from(src: &Vec<(&str, bool)>) -> (r: Value)
        ensures
            r@ == ValueView::Object(bool_entries(src@)),
    {
        let mut entries: Vec<(String, Value)> = Vec::new();
        let mut i: usize = 0;
        while i < src.len()
            invariant
                i <= src.len(),
                entries_view(entries@) == bool_entries(src@.subrange(0, i as int)),
            decreases src.len() - i,
        {
            let ghost before = entries@;
            entries.push((String::from_str(src[i].0), Value::Boolean(src[i].1)));
            proof {
                assert(entries@.drop_last() =~= before);
                let prefix = src@.subrange(0, i + 1);
                assert(prefix.drop_last() =~= src@.subrange(0, i as int));
                assert(prefix.last() == src@[i as int]);
                assert(entries@.last().0@ == src@[i as int].0@);
                assert(entries_view(entries@) == entries_view(before).insert(
                    entries@.last().0@,
                    entries@.last().1@,
                ));
            }
            i = i + 1;
        }
        proof {
            assert(src@.subrange(0, src.len() as int) =~= src@);
        }
        Value::Object(entries)
    }
}

impl FromSpecImpl<&Vec<(&str, bool)>> for Value {
    open spec fn obeys_from_spec() -> bool {
        false
    }

    open spec fn from_spec(src: &Vec<(&str, bool)>) -> Value {
        Value::Absent
    }
}

/// The map that a sequence of named numbers stands for: a later entry
/// replaces an earlier one with the same name.
pub open spec fn number_entries(src: Seq<(&str, Number)>) -> Map<Seq<char>, ValueView>
    decreases src.len(),
{
    if src.len() == 0 {
        Map::empty()
    } else {
        number_entries(src.drop_last()).insert(src.last().0@, ValueView::Number(src.last().1.bits))
    }
}

impl From<&Vec<(&str, Number)>> for Value {
    fn from(src: &Vec<(&str, Number)>) -> (r: Value)
        ensures
            r@ == ValueView::Object(number_entries(src@)),
    {
        let mut entries: Vec<(String, Value)> = Vec::new();
        let mut i: usize = 0;
        while i < src.len()
            invariant
                i <= src.len(),
                entries_view(entries@) == number_entries(src@.subrange(0, i as int)),
            decreases src.len() - i,
        {
            let ghost before = entries@;
            entries.push((String::from_str(src[i].0), Value::Number(src[i].1)));
            proof {
                assert(entries@.drop_last() =~= before);
                let prefix = src@.subrange(0, i + 1);
                assert(prefix.drop_last() =~= src@.subrange(0, i as int));
                assert(prefix.last() == src@[i as int]);
                assert(entries@.last().0@ == src@[i as int].0@);
                assert(entries_view(entries@) == entries_view(before).insert(
                    entries@.last().0@,
                    entries@.last().1@,
                ));
            }
            i = i + 1;
        }
        proof {
            assert(src@.subrange(0, src.len() as int) =~= src@);
        }
        Value::Object(entries)
    }
}

impl FromSpecImpl<&Vec<(&str, Number)>> for Value {
    open spec fn obeys_from_spec() -> bool {
        false
    }

    open spec fn from_spec(src: &Vec<(&str, Number)>) -> Value {
        Value::Absent
    }
}

/// Each integer goes through a double, without loss.
impl From<&Vec<(&str, i32)>> for Value {
    fn from(src: &Vec<(&str, i32)>) -> (r: Value)
        ensures
            r is Object,
            r->Object_0.len() == src.len(),
            forall|i: int|
                0 <= i < src.len() ==> {
                    &&& (#[trigger] r->Object_0[i]).0@ == src[i].0@
                    &&& r->Object_0[i].1 is Number
                    &&& r->Object_0[i].1->Number_0.is_integer()
                    &&& r->Object_0[i].1->Number_0.truncated() == src[i].1
                    &&& src[i].1 == 0 ==> r->Object_0[i].1->Number_0.bits == 0
                },
    {
        let mut entries: Vec<(String, Value)> = Vec::new();
        let mut i: usize = 0;
        while i < src.len()
            invariant
                i <= src.len(),
                entries.len() == i,
                forall|j: int|
                    0 <= j < i ==> {
                        &&& (#[trigger] entries@[j]).0@ == src[j].0@
                        &&& entries@[j].1 is Number
                        &&& entries@[j].1->Number_0.is_integer()
                        &&& entries@[j].1->Number_0.truncated() == src[j].1
                        &&& src[j].1 == 0 ==> entries@[j].1->Number_0.bits == 0
                    },
            decreases src.len() - i,
        {
            entries.push((String::from_str(src[i].0), Value::Number(Number::from_i32(src[i].1))));
            i = i + 1;
        }
        Value::Object(entries)
    }
}

impl FromSpecImpl<&Vec<(&str, i32)>> for Value {
    open spec fn obeys_from_spec() -> bool {
        false
    }

    open spec fn from_spec(src: &Vec<(&str, i32)>) -> Value {
        Value::Absent
    }
}

impl Value {
    /// The entries of an object of booleans: one for each key, with the value
    /// that the key has.
    pub fn into_bool_entries(self) -> (r: Vec<(String, bool)>)
        requires
            self is Object,
            forall|key: Seq<char>|
                self@->Object_0.dom().contains(key) ==> (#[trigger] self@->Object_0[key]) is Boolean,
        ensures
            forall|a: int|
                0 <= a < r.len() ==> self@->Object_0.dom().contains((#[trigger] r[a]).0@) && self@->Object_0[r[a].0@] == ValueView::Boolean(r[a].1),
            forall|a: int, b: int|
                0 <= a < b < r.len() ==> (#[trigger] r[a]).0@ != (#[trigger] r[b]).0@,
            forall|key: Seq<char>|
                self@->Object_0.dom().contains(key) ==> exists|a: int|
                    0 <= a < r.len() && (#[trigger] r[a]).0@ == key,
    {
        let mut out: Vec<(String, bool)> = Vec::new();
        if let Value::Object(entries) = &self {
            let positions = counting_entries(entries);
            let ghost map = entries_view(entries@);
            let mut a: usize = 0;
            while a < positions.len()
                invariant
                    a <= positions.len(),
                    out.len() == a,
                    map == entries_view(entries@),
                    forall|key: Seq<char>| map.dom().contains(key) ==> (#[trigger] map[key]) is Boolean,
                    forall|c: int|
                        0 <= c < positions.len() ==> counts(entries@, #[trigger] positions[c] as int),
                    forall|c: int|
                        0 <= c < a ==> (#[trigger] out[c]).0@ == entries[positions[c] as int].0@
                            && entries[positions[c] as int].1 == Value::Boolean(out[c].1),
                decreases positions.len() - a,
            {
                let at = positions[a];
                proof {
                    assert(counts(entries@, positions[a as int] as int));
                    lemma_entries_view(entries@, entries[at as int].0@);
                    assert(map[entries[at as int].0@] is Boolean);
                }
                if let Value::Boolean(x) = &entries[at].1 {
                    out.push((entries[at].0.clone(), *x));
                }
                a = a + 1;
            }
            proof {
                assert forall|c: int| 0 <= c < out.len() implies map.dom().contains(
                    (#[trigger] out[c]).0@,
                ) && map[out[c].0@] == ValueView::Boolean(out[c].1) by {
                    assert(counts(entries@, positions[c] as int));
                    lemma_entries_view(entries@, entries[positions[c] as int].0@);
                }
                assert forall|c: int, d: int| 0 <= c < d < out.len() implies (#[trigger] out[c]).0@
                    != (#[trigger] out[d]).0@ by {
                    assert(counts(entries@, positions[c] as int));
                    assert(counts(entries@, positions[d] as int));
                }
                assert forall|key: Seq<char>| map.dom().contains(key) implies exists|c: int|
                    0 <= c < out.len() && (#[trigger] out[c]).0@ == key by {
                    lemma_entries_view(entries@, key);
                    let last = last_index_of(entries@, key);
                    assert(counts(entries@, last));
                    let c = choose|c: int| 0 <= c < positions.len() && #[trigger] positions[c] == last;
                    assert(out[c].0@ == key);
                }
            }
        }
        out
    }

    /// The entries of an object of numbers: one for each key, with the value
    /// that the key has.
    pub fn into_number_entries(self) -> (r: Vec<(String, Number)>)
        requires
            self is Object,
            forall|key: Seq<char>|
                self@->Object_0.dom().contains(key) ==> (#[trigger] self@->Object_0[key]) is Number,
        ensures
            forall|a: int|
                0 <= a < r.len() ==> self@->Object_0.dom().contains((#[trigger] r[a]).0@) && self@->Object_0[r[a].0@] == ValueView::Number(r[a].1.bits),
            forall|a: int, b: int|
                0 <= a < b < r.len() ==> (#[trigger] r[a]).0@ != (#[trigger] r[b]).0@,
            forall|key: Seq<char>|
                self@->Object_0.dom().contains(key) ==> exists|a: int|
                    0 <= a < r.len() && (#[trigger] r[a]).0@ == key,
    {
        let mut out: Vec<(String, Number)> = Vec::new();
        if let Value::Object(entries) = &self {
            let positions = counting_entries(entries);
            let ghost map = entries_view(entries@);
            let mut a: usize = 0;
            while a < positions.len()
                invariant
                    a <= positions.len(),
                    out.len() == a,
                    map == entries_view(entries@),
                    forall|key: Seq<char>| map.dom().contains(key) ==> (#[trigger] map[key]) is Number,
                    forall|c: int|
                        0 <= c < positions.len() ==> counts(entries@, #[trigger] positions[c] as int),
                    forall|c: int|
                        0 <= c < a ==> (#[trigger] out[c]).0@ == entries[positions[c] as int].0@
                            && entries[positions[c] as int].1 == Value::Number(out[c].1),
                decreases positions.len() - a,
            {
                let at = positions[a];
                proof {
                    assert(counts(entries@, positions[a as int] as int));
                    lemma_entries_view(entries@, entries[at as int].0@);
                    assert(map[entries[at as int].0@] is Number);
                }
                if let Value::Number(x) = &entries[at].1 {
                    out.push((entries[at].0.clone(), *x));
                }
                a = a + 1;
            }
            proof {
                assert forall|c: int| 0 <= c < out.len() implies map.dom().contains(
                    (#[trigger] out[c]).0@,
                ) && map[out[c].0@] == ValueView::Number(out[c].1.bits) by {
                    assert(counts(entries@, positions[c] as int));
                    lemma_entries_view(entries@, entries[positions[c] as int].0@);
                }
                assert forall|c: int, d: int| 0 <= c < d < out.len() implies (#[trigger] out[c]).0@
                    != (#[trigger] out[d]).0@ by {
                    assert(counts(entries@, positions[c] as int));
                    assert(counts(entries@, positions[d] as int));
                }
                assert forall|key: Seq<char>| map.dom().contains(key) implies exists|c: int|
                    0 <= c < out.len() && (#[trigger] out[c]).0@ == key by {
                    lemma_entries_view(entries@, key);
                    let last = last_index_of(entries@, key);
                    assert(counts(entries@, last));
                    let c = choose|c: int| 0 <= c < positions.len() && #[trigger] positions[c] == last;
                    assert(out[c].0@ == key);
                }
            }
        }
        out
    }

    /// The entries of an object of numbers, each as an `i32` (see [`Value::into_i32`]): one for each key, with the value
    /// that the key has.
    pub fn into_i32_entries(self) -> (r: Vec<(String, i32)>)
        requires
            self is Object,
            forall|key: Seq<char>|
                self@->Object_0.dom().contains(key) ==> (#[trigger] self@->Object_0[key]) is Number,
        ensures
            forall|a: int|
                0 <= a < r.len() ==> self@->Object_0.dom().contains((#[trigger] r[a]).0@) && (self@->Object_0[r[a].0@] matches ValueView::Number(bits) && r[a].1 == (Number {
                    bits,
                }).saturated_i32()),
            forall|a: int, b: int|
                0 <= a < b < r.len() ==> (#[trigger] r[a]).0@ != (#[trigger] r[b]).0@,
            forall|key: Seq<char>|
                self@->Object_0.dom().contains(key) ==> exists|a: int|
                    0 <= a < r.len() && (#[trigger] r[a]).0@ == key,
    {
        let mut out: Vec<(String, i32)> = Vec::new();
        if let Value::Object(entries) = &self {
            let positions = counting_entries(entries);
            let ghost map = entries_view(entries@);
            let mut a: usize = 0;
            while a < positions.len()
                invariant
                    a <= positions.len(),
                    out.len() == a,
                    map == entries_view(entries@),
                    forall|key: Seq<char>| map.dom().contains(key) ==> (#[trigger] map[key]) is Number,
                    forall|c: int|
                        0 <= c < positions.len() ==> counts(entries@, #[trigger] positions[c] as int),
                    forall|c: int|
                        0 <= c < a ==> (#[trigger] out[c]).0@ == entries[positions[c] as int].0@
                            && entries[positions[c] as int].1 is Number && out[c].1 == entries[positions[c] as int].1->Number_0.saturated_i32(),
                decreases positions.len() - a,
            {
                let at = positions[a];
                proof {
                    assert(counts(entries@, positions[a as int] as int));
                    lemma_entries_view(entries@, entries[at as int].0@);
                    assert(map[entries[at as int].0@] is Number);
                }
                if let Value::Number(x) = &entries[at].1 {
                    out.push((entries[at].0.clone(), x.to_i32()));
                }
                a = a + 1;
            }
            proof {
                assert forall|c: int| 0 <= c < out.len() implies map.dom().contains(
                    (#[trigger] out[c]).0@,
                ) && (map[out[c].0@] matches ValueView::Number(bits) && out[c].1 == (Number {
                    bits,
                }).saturated_i32()) by {
                    assert(counts(entries@, positions[c] as int));
                    lemma_entries_view(entries@, entries[positions[c] as int].0@);
                }
                assert forall|c: int, d: int| 0 <= c < d < out.len() implies (#[trigger] out[c]).0@
                    != (#[trigger] out[d]).0@ by {
                    assert(counts(entries@, positions[c] as int));
                    assert(counts(entries@, positions[d] as int));
                }
                assert forall|key: Seq<char>| map.dom().contains(key) implies exists|c: int|
                    0 <= c < out.len() && (#[trigger] out[c]).0@ == key by {
                    lemma_entries_view(entries@, key);
                    let last = last_index_of(entries@, key);
                    assert(counts(entries@, last));
                    let c = choose|c: int| 0 <= c < positions.len() && #[trigger] positions[c] == last;
                    assert(out[c].0@ == key);
                }
            }
        }
        out
    }

    /// The value under a key of an object: that of the last entry with the
    /// key.
    pub fn get(&self, key: &str) -> (r: Option<&Value>)
        ensures
            match *self {
                Value::Object(entries) => {
                    &&& r is Some <==> entries_view(entries@).dom().contains(key@)
                    &&& r matches Some(v) ==> v@ == entries_view(entries@)[key@]
                },
                _ => r is None,
            },
    {
        match self {
            Value::Object(entries) => {
                let name = String::from_str(key);
                crate::value::lookup(entries, &name)
            },
            _ => None,
        }
    }
}

} // verus!
