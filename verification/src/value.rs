//! The values that cross between host and script.

use crate::number::Number;
use vstd::prelude::*;
use vstd::std_specs::cmp::PartialEqSpecImpl;
use vstd::string::StringExecFns;

verus! {

/// A value that crosses between host and script.
///
/// An `Object` holds its entries in the order in which they were added. Only
/// the last entry with a given key counts, so the entries stand for a map
/// from keys to values: see [`ValueView`].
#[derive(Debug)]
pub enum Value {
    /// No value: what a script calls undefined.
    Absent,
    Boolean(bool),
    Number(Number),
    Str(String),
    Array(Vec<Value>),
    Object(Vec<(String, Value)>),
}

/// What a [`Value`] stands for: numbers by their bit pattern, text by its
/// characters, an array by the sequence of its elements and an object by the
/// map from its keys to their values.
pub enum ValueView {
    Absent,
    Boolean(bool),
    Number(u64),
    Str(Seq<char>),
    Array(Seq<ValueView>),
    Object(Map<Seq<char>, ValueView>),
}

/// The elements that a sequence of values stands for, one for one.
pub open spec fn items_view(items: Seq<Value>) -> Seq<ValueView>
    decreases items, 0nat,
{
    if items.len() == 0 {
        Seq::empty()
    } else {
        items_view(items.drop_last()).push(value_view(items.last()))
    }
}

/// The map that a sequence of entries stands for: a later entry replaces an
/// earlier one with the same key.
pub open spec fn entries_view(entries: Seq<(String, Value)>) -> Map<Seq<char>, ValueView>
    decreases entries, 0nat,
{
    if entries.len() == 0 {
        Map::empty()
    } else {
        entries_view(entries.drop_last()).insert(entries.last().0@, value_view(entries.last().1))
    }
}

pub open spec fn value_view(v: Value) -> ValueView
    decreases v, 1nat,
{
    match v {
        Value::Absent => ValueView::Absent,
        Value::Boolean(b) => ValueView::Boolean(b),
        Value::Number(n) => ValueView::Number(n.bits),
        Value::Str(s) => ValueView::Str(s@),
        Value::Array(items) => ValueView::Array(items_view(items@)),
        Value::Object(entries) => ValueView::Object(entries_view(entries@)),
    }
}

impl View for Value {
    type V = ValueView;

    open spec fn view(&self) -> ValueView {
        value_view(*self)
    }
}

/// The index of the last entry with the given key, or -1 where no entry has it.
pub open spec fn last_index_of(entries: Seq<(String, Value)>, key: Seq<char>) -> int
    decreases entries.len(),
{
    if entries.len() == 0 {
        -1
    } else if entries.last().0@ == key {
        entries.len() - 1
    } else {
        last_index_of(entries.drop_last(), key)
    }
}

/// `items_view` keeps the length and maps each element to its view.
pub proof fn lemma_items_view(items: Seq<Value>)
    ensures
        items_view(items).len() == items.len(),
        forall|i: int| 0 <= i < items.len() ==> #[trigger] items_view(items)[i] == items[i]@,
    decreases items.len(),
{
    if items.len() > 0 {
        lemma_items_view(items.drop_last());
    }
}

/// A key is in `entries_view` exactly when some entry has it, and its value is
/// that of the last such entry.
pub proof fn lemma_entries_view(entries: Seq<(String, Value)>, key: Seq<char>)
    ensures
        -1 <= last_index_of(entries, key) < entries.len(),
        entries_view(entries).dom().contains(key) <==> last_index_of(entries, key) >= 0,
        last_index_of(entries, key) >= 0 ==> {
            &&& entries[last_index_of(entries, key)].0@ == key
            &&& entries_view(entries)[key] == entries[last_index_of(entries, key)].1@
        },
        forall|j: int|
            last_index_of(entries, key) < j < entries.len() ==> (#[trigger] entries[j]).0@ != key,
    decreases entries.len(),
{
    if entries.len() > 0 {
        let front = entries.drop_last();
        lemma_entries_view(front, key);
        assert forall|j: int| last_index_of(entries, key) < j < entries.len() implies (
        #[trigger] entries[j]).0@ != key by {
            if j < entries.len() - 1 {
                assert(front[j] == entries[j]);
            }
        }
    }
}

/// The last entry with a key is found by its index: no later entry has the key.
pub proof fn lemma_last_index_is(entries: Seq<(String, Value)>, key: Seq<char>, i: int)
    requires
        0 <= i < entries.len(),
        entries[i].0@ == key,
        forall|j: int| i < j < entries.len() ==> (#[trigger] entries[j]).0@ != key,
    ensures
        last_index_of(entries, key) == i,
    decreases entries.len(),
{
    if i < entries.len() - 1 {
        lemma_last_index_is(entries.drop_last(), key, i);
    }
}

/// No entry has the key.
pub proof fn lemma_last_index_none(entries: Seq<(String, Value)>, key: Seq<char>)
    requires
        forall|j: int| 0 <= j < entries.len() ==> (#[trigger] entries[j]).0@ != key,
    ensures
        last_index_of(entries, key) == -1,
    decreases entries.len(),
{
    if entries.len() > 0 {
        lemma_last_index_none(entries.drop_last(), key);
    }
}

/// The value under `key`: that of the last entry with the key.
pub fn lookup<'a>(entries: &'a Vec<(String, Value)>, key: &String) -> (r: Option<&'a Value>)
    ensures
        r is Some <==> entries_view(entries@).dom().contains(key@),
        r is Some <==> last_index_of(entries@, key@) >= 0,
        r matches Some(v) ==> *v == entries@[last_index_of(entries@, key@)].1 && v@
            == entries_view(entries@)[key@],
{
    let mut i: usize = entries.len();
    while i > 0
        invariant
            i <= entries.len(),
            forall|j: int| i <= j < entries.len() ==> (#[trigger] entries@[j]).0@ != key@,
        decreases i,
    {
        i = i - 1;
        if entries[i].0 == *key {
            proof {
                lemma_last_index_is(entries@, key@, i as int);
                lemma_entries_view(entries@, key@);
            }
            return Some(&entries[i].1);
        }
    }
    proof {
        lemma_last_index_none(entries@, key@);
        lemma_entries_view(entries@, key@);
    }
    None
}

/// Whether the entry at a position counts: no later entry has its key.
pub open spec fn counts(entries: Seq<(String, Value)>, i: int) -> bool {
    0 <= i < entries.len() && last_index_of(entries, entries[i].0@) == i
}

/// The positions of the entries that count, in their order: for each key
/// that of the last entry with the key.
pub fn counting_entries(entries: &Vec<(String, Value)>) -> (r: Vec<usize>)
    ensures
        forall|a: int| 0 <= a < r.len() ==> counts(entries@, #[trigger] r[a] as int),
        forall|a: int, b: int| 0 <= a < b < r.len() ==> r[a] < r[b],
        forall|i: int| counts(entries@, i) ==> exists|a: int| 0 <= a < r.len() && #[trigger] r[a] == i,
{
    let mut positions: Vec<usize> = Vec::new();
    let mut i: usize = 0;
    while i < entries.len()
        invariant
            i <= entries.len(),
            forall|a: int|
                0 <= a < positions.len() ==> counts(entries@, #[trigger] positions[a] as int)
                    && positions[a] < i,
            forall|a: int, b: int| 0 <= a < b < positions.len() ==> positions[a] < positions[b],
            forall|k: int|
                0 <= k < i && counts(entries@, k) ==> exists|a: int|
                    0 <= a < positions.len() && #[trigger] positions[a] == k,
        decreases entries.len() - i,
    {
        let mut later = false;
        let mut j: usize = i + 1;
        while j < entries.len()
            invariant
                i < j <= entries.len(),
                later <==> exists|k: int| i < k < j && (#[trigger] entries@[k]).0@ == entries@[i as int].0@,
            decreases entries.len() - j,
        {
            if entries[j].0 == entries[i].0 {
                later = true;
            }
            j = j + 1;
        }
        proof {
            let key = entries@[i as int].0@;
            lemma_entries_view(entries@, key);
            if !later {
                lemma_last_index_is(entries@, key, i as int);
            } else {
                let k = choose|k: int| i < k < entries.len() && (#[trigger] entries@[k]).0@ == key;
                assert(last_index_of(entries@, key) >= k);
            }
        }
        if !later {
            let ghost before = positions@;
            positions.push(i);
            proof {
                assert forall|k: int| 0 <= k < i + 1 && counts(entries@, k) implies exists|a: int|
                    0 <= a < positions.len() && #[trigger] positions[a] == k by {
                    if k < i {
                        let a = choose|a: int| 0 <= a < before.len() && #[trigger] before[a] == k;
                        assert(positions[a] == k);
                    } else {
                        assert(positions[positions.len() - 1] == k);
                    }
                }
            }
        }
        i = i + 1;
    }
    positions
}

/// The key of an entry is a key of the map that the entries stand for.
pub proof fn lemma_entry_key_is_present(entries: Seq<(String, Value)>, i: int)
    requires
        0 <= i < entries.len(),
    ensures
        entries_view(entries).dom().contains(entries[i].0@),
{
    lemma_entries_view(entries, entries[i].0@);
}

/// Whether two sequences of values stand for the same elements.
pub fn same_items(a: &Vec<Value>, b: &Vec<Value>) -> (r: bool)
    ensures
        r == (items_view(a@) == items_view(b@)),
    decreases a, 0nat,
{
    proof {
        lemma_items_view(a@);
        lemma_items_view(b@);
    }
    if a.len() != b.len() {
        return false;
    }
    let mut i: usize = 0;
    while i < a.len()
        invariant
            i <= a.len() == b.len(),
            forall|j: int| 0 <= j < i ==> (#[trigger] a@[j])@ == b@[j]@,
            forall|j: int| 0 <= j < a.len() ==> #[trigger] items_view(a@)[j] == a@[j]@,
            forall|j: int| 0 <= j < b.len() ==> #[trigger] items_view(b@)[j] == b@[j]@,
            items_view(a@).len() == a.len(),
            items_view(b@).len() == b.len(),
        decreases a.len() - i,
    {
        proof {
            assert(decreases_to!(a => a[i as int]));
        }
        if !a[i].same(&b[i]) {
            assert(items_view(a@)[i as int] != items_view(b@)[i as int]);
            return false;
        }
        i = i + 1;
    }
    assert(items_view(a@) =~= items_view(b@));
    true
}

/// Whether two sequences of entries stand for the same map.
pub fn same_entries(a: &Vec<(String, Value)>, b: &Vec<(String, Value)>) -> (r: bool)
    ensures
        r == (entries_view(a@) == entries_view(b@)),
    decreases a, 0nat,
{
    let mut i: usize = 0;
    while i < a.len()
        invariant
            i <= a.len(),
            forall|j: int|
                0 <= j < i ==> {
                    &&& entries_view(a@).dom().contains((#[trigger] a@[j]).0@)
                    &&& entries_view(b@).dom().contains(a@[j].0@)
                    &&& entries_view(a@)[a@[j].0@] == entries_view(b@)[a@[j].0@]
                },
        decreases a.len() - i,
    {
        let key = &a[i].0;
        proof {
            lemma_entry_key_is_present(a@, i as int);
            lemma_entries_view(a@, key@);
        }
        match lookup(b, key) {
            None => {
                return false;
            },
            Some(theirs) => match lookup(a, key) {
                None => {
                    return false;
                },
                Some(ours) => {
                    proof {
                        let at = last_index_of(a@, key@);
                        assert(decreases_to!(a => a[at]));
                        assert(decreases_to!(a[at] => a[at].1));
                    }
                    if !ours.same(theirs) {
                        return false;
                    }
                },
            },
        }
        i = i + 1;
    }
    let mut j: usize = 0;
    while j < b.len()
        invariant
            j <= b.len(),
            forall|k: int|
                0 <= k < j ==> entries_view(a@).dom().contains((#[trigger] b@[k]).0@),
        decreases b.len() - j,
    {
        proof {
            lemma_entry_key_is_present(b@, j as int);
        }
        if lookup(a, &b[j].0).is_none() {
            return false;
        }
        j = j + 1;
    }
    proof {
        let ours = entries_view(a@);
        let theirs = entries_view(b@);
        assert forall|key: Seq<char>| #[trigger] ours.dom().contains(key) implies (
        theirs.dom().contains(key) && ours[key] == theirs[key]) by {
            lemma_entries_view(a@, key);
            assert(a@[last_index_of(a@, key)].0@ == key);
        }
        assert forall|key: Seq<char>| #[trigger] theirs.dom().contains(key) implies (
        ours.dom().contains(key)) by {
            lemma_entries_view(b@, key);
            assert(b@[last_index_of(b@, key)].0@ == key);
        }
        assert(ours.dom() =~= theirs.dom());
        assert(ours =~= theirs);
    }
    true
}

impl Value {
    /// Whether two values stand for the same thing: `self@ == other@`. The
    /// order of an object's entries does not count.
    pub fn same(&self, other: &Value) -> (r: bool)
        ensures
            r == (self@ == other@),
        decreases self, 1nat,
    {
        match self {
            Value::Absent => match other {
                Value::Absent => true,
                _ => false,
            },
            Value::Boolean(a) => match other {
                Value::Boolean(b) => *a == *b,
                _ => false,
            },
            Value::Number(a) => match other {
                Value::Number(b) => a.bits == b.bits,
                _ => false,
            },
            Value::Str(a) => match other {
                Value::Str(b) => *a == *b,
                _ => false,
            },
            Value::Array(a) => match other {
                Value::Array(b) => same_items(a, b),
                _ => false,
            },
            Value::Object(a) => match other {
                Value::Object(b) => same_entries(a, b),
                _ => false,
            },
        }
    }
}

impl Value {
    /// The text that the value is turned into where text is asked for:
    /// `None` for the absent value, `true` or `false`, the decimal text of a
    /// number (see [`Number::text`]), a string as it is. An array or an object
    /// has none.
    pub open spec fn text(self) -> Option<Seq<char>> {
        match self {
            Value::Absent => Some("None"@),
            Value::Boolean(b) => if b {
                Some("true"@)
            } else {
                Some("false"@)
            },
            Value::Number(n) => Some(n.text()),
            Value::Str(s) => Some(s@),
            Value::Array(_) => None,
            Value::Object(_) => None,
        }
    }

    pub fn is_none(&self) -> (r: bool)
        ensures
            r == (*self is Absent),
    {
        match self {
            Value::Absent => true,
            _ => false,
        }
    }

    pub fn is_boolean(&self) -> (r: bool)
        ensures
            r == (*self is Boolean),
    {
        match self {
            Value::Boolean(_) => true,
            _ => false,
        }
    }

    pub fn is_number(&self) -> (r: bool)
        ensures
            r == (*self is Number),
    {
        match self {
            Value::Number(_) => true,
            _ => false,
        }
    }

    pub fn is_string(&self) -> (r: bool)
        ensures
            r == (*self is Str),
    {
        match self {
            Value::Str(_) => true,
            _ => false,
        }
    }

    pub fn is_array(&self) -> (r: bool)
        ensures
            r == (*self is Array),
    {
        match self {
            Value::Array(_) => true,
            _ => false,
        }
    }

    pub fn is_object(&self) -> (r: bool)
        ensures
            r == (*self is Object),
    {
        match self {
            Value::Object(_) => true,
            _ => false,
        }
    }

    pub fn as_none(&self) -> (r: Option<()>)
        ensures
            r is Some <==> *self is Absent,
    {
        match self {
            Value::Absent => Some(()),
            _ => None,
        }
    }

    pub fn as_boolean(&self) -> (r: Option<bool>)
        ensures
            r is Some <==> *self is Boolean,
            r matches Some(b) ==> *self == Value::Boolean(b),
    {
        match self {
            Value::Boolean(b) => Some(*b),
            _ => None,
        }
    }

    pub fn as_number(&self) -> (r: Option<Number>)
        ensures
            r is Some <==> *self is Number,
            r matches Some(n) ==> *self == Value::Number(n),
    {
        match self {
            Value::Number(n) => Some(*n),
            _ => None,
        }
    }

    pub fn as_string(&self) -> (r: Option<&String>)
        ensures
            r is Some <==> *self is Str,
            r matches Some(s) ==> *self == Value::Str(*s),
    {
        match self {
            Value::Str(s) => Some(s),
            _ => None,
        }
    }

    /// The value as text: that of [`Value::text`]. An array or an object has
    /// no text, and is not to be asked for one.
    pub fn coerce_string(&self) -> (r: Option<String>)
        requires
            !(self is Array),
            !(self is Object),
        ensures
            r matches Some(t) && Some(t@) == self.text(),
    {
        match self {
            Value::Absent => Some(String::from_str("None")),
            Value::Boolean(b) => if *b {
                Some(String::from_str("true"))
            } else {
                Some(String::from_str("false"))
            },
            Value::Number(n) => Some(n.to_text()),
            Value::Str(s) => Some(s.clone()),
            Value::Array(_) => None,
            Value::Object(_) => None,
        }
    }

    /// A copy of the value, entry for entry.
    pub fn duplicate(&self) -> (r: Value)
        ensures
            r@ == self@,
        decreases self, 1nat,
    {
        match self {
            Value::Absent => Value::Absent,
            Value::Boolean(b) => Value::Boolean(*b),
            Value::Number(n) => Value::Number(*n),
            Value::Str(s) => Value::Str(s.clone()),
            Value::Array(items) => Value::Array(duplicate_items(items)),
            Value::Object(entries) => Value::Object(duplicate_entries(entries)),
        }
    }
}

/// A copy of a sequence of values.
pub fn duplicate_items(items: &Vec<Value>) -> (r: Vec<Value>)
    ensures
        items_view(r@) == items_view(items@),
    decreases items, 0nat,
{
    let mut copy: Vec<Value> = Vec::new();
    let mut i: usize = 0;
    while i < items.len()
        invariant
            i <= items.len(),
            items_view(copy@) == items_view(items@.subrange(0, i as int)),
        decreases items.len() - i,
    {
        proof {
            assert(decreases_to!(items => items[i as int]));
        }
        let item = items[i].duplicate();
        let ghost before = copy@;
        copy.push(item);
        proof {
            assert(copy@.drop_last() =~= before);
            let prefix = items@.subrange(0, i + 1);
            assert(prefix.drop_last() =~= items@.subrange(0, i as int));
        }
        i = i + 1;
    }
    proof {
        assert(items@.subrange(0, items.len() as int) =~= items@);
    }
    copy
}

/// A copy of a sequence of entries.
pub fn duplicate_entries(entries: &Vec<(String, Value)>) -> (r: Vec<(String, Value)>)
    ensures
        entries_view(r@) == entries_view(entries@),
    decreases entries, 0nat,
{
    let mut copy: Vec<(String, Value)> = Vec::new();
    let mut i: usize = 0;
    while i < entries.len()
        invariant
            i <= entries.len(),
            entries_view(copy@) == entries_view(entries@.subrange(0, i as int)),
        decreases entries.len() - i,
    {
        proof {
            assert(decreases_to!(entries => entries[i as int]));
            assert(decreases_to!(entries[i as int] => entries[i as int].1));
        }
        let entry = (entries[i].0.clone(), entries[i].1.duplicate());
        let ghost before = copy@;
        copy.push(entry);
        proof {
            assert(copy@.drop_last() =~= before);
            let prefix = entries@.subrange(0, i + 1);
            assert(prefix.drop_last() =~= entries@.subrange(0, i as int));
        }
        i = i + 1;
    }
    proof {
        assert(entries@.subrange(0, entries.len() as int) =~= entries@);
    }
    copy
}

impl Clone for Value {
    fn clone(&self) -> (r: Value)
        ensures
            r@ == self@,
    {
        self.duplicate()
    }
}

impl PartialEq for Value {
    fn eq(&self, other: &Value) -> (r: bool) {
        self.same(other)
    }
}

impl PartialEqSpecImpl for Value {
    open spec fn obeys_eq_spec() -> bool {
        true
    }

    open spec fn eq_spec(&self, other: &Value) -> bool {
        self@ == other@
    }
}

} // verus!
