//! Reading a slot of the stack, members and all, by questions to the engine.

use crate::engine::{resolve, shows, shows_items, shows_properties, Cell, Engine, Slot};
use crate::number::Number;
use vstd::prelude::*;

verus! {

/// What one slot shows of itself, without its members.
#[derive(Debug, PartialEq, Eq)]
pub enum Seen {
    /// The index names no slot.
    Missing,
    Undefined,
    Null,
    Boolean(bool),
    Number(Number),
    /// A string, by the engine's bytes.
    Text(Vec<u8>),
    /// A handle of the host's own.
    Pointer(u64),
    /// An array; its elements are yet to be read.
    Array,
    /// An object that is no array; its properties are yet to be read.
    Object,
    /// A value of any other type.
    Other,
}

/// A question of the reader to the engine.
#[derive(Debug, Clone, Copy, PartialEq, Eq, Structural)]
pub enum Ask {
    /// What does the slot hold? The answer is `Told::Seen`.
    Inspect(i32),
    /// Push an enumerator of the members of the object in the slot: of its
    /// elements alone if the flag is set, else of its enumerable properties.
    /// Room on the stack is to be made for the enumerator and one member.
    /// The answer is `Told::Done`.
    Enumerate(i32, bool),
    /// Have the enumerator on top of the stack push the key and the value of
    /// its next member. The answer is `Told::Entry` with the key, or
    /// `Told::End`, with nothing pushed, where no member is left.
    Next,
    /// Pop this many values. The answer is `Told::Done`.
    Drop(u32),
}

/// An answer of the engine.
#[derive(Debug, PartialEq, Eq)]
pub enum Told {
    Seen(Seen),
    Entry(Vec<u8>),
    End,
    Done,
}

/// How the reading goes on.
#[derive(Debug, PartialEq, Eq)]
pub enum Step {
    /// The next question.
    Ask(Ask),
    /// The reading is complete: this is what the slot holds.
    Done(Slot),
    /// The answer was none to the question that was asked.
    Broken,
}

/// An array or object that is being read.
pub struct Frame {
    /// Whether it is an array.
    pub is_array: bool,
    /// The elements read so far, if it is an array.
    pub items: Vec<Slot>,
    /// The properties read so far, if it is no array.
    pub entries: Vec<(Vec<u8>, Slot)>,
    /// The key of the member that is being read.
    pub key: Vec<u8>,
}

/// What the reader waits for.
pub enum Phase {
    /// The answer to `Inspect`.
    Inspect,
    /// The answer to `Enumerate`.
    Enumerate,
    /// The answer to `Next`.
    Next,
    /// The answer to the `Drop` of a member that was read.
    DropMember,
    /// The answer to the `Drop` of the enumerator of an array or object that
    /// was read, which is held here.
    DropEnumerator(Slot),
    /// Nothing: the reading is over.
    Finished,
}

/// Reads what a slot holds, members and all, by questions to the engine. The
/// stack is the same after the reading as before.
pub struct Reader {
    /// The index of the slot to read.
    pub idx: i32,
    /// The arrays and objects that are being read, the outermost first.
    pub frames: Vec<Frame>,
    pub phase: Phase,
}

/// Whether a slot is what was seen of a slot without members.
pub open spec fn slot_for(seen: Seen, slot: Slot) -> bool {
    match seen {
        Seen::Missing => slot is Missing,
        Seen::Undefined => slot is Undefined,
        Seen::Null => slot is Null,
        Seen::Boolean(b) => slot == Slot::Boolean(b),
        Seen::Number(n) => slot == Slot::Number(n),
        Seen::Text(bytes) => slot == Slot::Text(bytes),
        Seen::Pointer(handle) => slot == Slot::Pointer(handle),
        Seen::Other => slot is Other,
        _ => false,
    }
}

/// The slot that was seen, of a slot without members.
pub fn slot_of(seen: Seen) -> (r: Slot)
    requires
        !(seen is Array),
        !(seen is Object),
    ensures
        slot_for(seen, r),
{
    match seen {
        Seen::Missing => Slot::Missing,
        Seen::Undefined => Slot::Undefined,
        Seen::Null => Slot::Null,
        Seen::Boolean(b) => Slot::Boolean(b),
        Seen::Number(n) => Slot::Number(n),
        Seen::Text(bytes) => Slot::Text(bytes),
        Seen::Pointer(handle) => Slot::Pointer(handle),
        _ => Slot::Other,
    }
}

/// Whether a slot is the array or object that was read into a frame.
pub open spec fn closes(frame: Frame, slot: Slot) -> bool {
    if frame.is_array {
        slot == Slot::Array(frame.items)
    } else {
        slot == Slot::Object(frame.entries)
    }
}

/// Whether `after` is `before` with one more member, under the key that was
/// being read.
pub open spec fn attached(before: Frame, member: Slot, after: Frame) -> bool {
    &&& after.is_array == before.is_array
    &&& after.key@ == before.key@
    &&& if before.is_array {
        after.items@ == before.items@.push(member) && after.entries@ == before.entries@
    } else {
        &&& after.items@ == before.items@
        &&& after.entries@.len() == before.entries@.len() + 1
        &&& after.entries@.drop_last() == before.entries@
        &&& after.entries@.last().0@ == before.key@
        &&& after.entries@.last().1 == member
    }
}

/// What a reader does with a value that is read in full: the outermost one
/// is the result of the reading; any other is one more member of the array
/// or object around it, and is dropped from the stack with its key.
pub open spec fn completes(before: Reader, value: Slot, after: Reader, step: Step) -> bool {
    if before.frames.len() == 0 {
        &&& step == Step::Done(value)
        &&& after.phase is Finished
        &&& after.frames@ == before.frames@
    } else {
        &&& step == Step::Ask(Ask::Drop(2))
        &&& after.phase is DropMember
        &&& after.frames@.len() == before.frames@.len()
        &&& after.frames@.drop_last() == before.frames@.drop_last()
        &&& attached(before.frames@.last(), value, after.frames@.last())
    }
}

/// What a reader does with an answer: the state it goes to and how the
/// reading goes on.
pub open spec fn steps(before: Reader, told: Told, after: Reader, step: Step) -> bool {
    &&& after.idx == before.idx
    &&& match (before.phase, told) {
        (Phase::Inspect, Told::Seen(Seen::Array)) => opens(before, true, after, step),
        (Phase::Inspect, Told::Seen(Seen::Object)) => opens(before, false, after, step),
        (Phase::Inspect, Told::Seen(seen)) => exists|value: Slot|
            slot_for(seen, value) && #[trigger] completes(before, value, after, step),
        (Phase::Enumerate, Told::Done) => {
            &&& step == Step::Ask(Ask::Next)
            &&& after.phase is Next
            &&& after.frames@ == before.frames@
        },
        (Phase::Next, Told::Entry(key)) => if before.frames.len() == 0 {
            step is Broken && after.phase is Finished
        } else {
            &&& step == Step::Ask(Ask::Inspect(-1i32))
            &&& after.phase is Inspect
            &&& after.frames@.len() == before.frames@.len()
            &&& after.frames@.drop_last() == before.frames@.drop_last()
            &&& after.frames@.last().is_array == before.frames@.last().is_array
            &&& after.frames@.last().items == before.frames@.last().items
            &&& after.frames@.last().entries == before.frames@.last().entries
            &&& after.frames@.last().key == key
        },
        (Phase::Next, Told::End) => if before.frames.len() == 0 {
            step is Broken && after.phase is Finished
        } else {
            &&& step == Step::Ask(Ask::Drop(1))
            &&& after.frames@ == before.frames@.drop_last()
            &&& after.phase matches Phase::DropEnumerator(value) && closes(
                before.frames@.last(),
                value,
            )
        },
        (Phase::DropMember, Told::Done) => {
            &&& step == Step::Ask(Ask::Next)
            &&& after.phase is Next
            &&& after.frames@ == before.frames@
        },
        (Phase::DropEnumerator(value), Told::Done) => completes(before, value, after, step),
        _ => step is Broken && after.phase is Finished,
    }
}

/// What a reader does when it sees an array or object: it goes on to read
/// the members, and asks for their enumerator.
pub open spec fn opens(before: Reader, is_array: bool, after: Reader, step: Step) -> bool {
    &&& step == Step::Ask(
        Ask::Enumerate(
            if before.frames.len() == 0 {
                before.idx
            } else {
                -1i32
            },
            is_array,
        ),
    )
    &&& after.phase is Enumerate
    &&& after.frames@.len() == before.frames@.len() + 1
    &&& after.frames@.drop_last() == before.frames@
    &&& after.frames@.last().is_array == is_array
    &&& after.frames@.last().items@.len() == 0
    &&& after.frames@.last().entries@.len() == 0
}

impl Reader {
    /// The question that the reader waits for the answer to.
    pub open spec fn pending(self) -> Option<Ask> {
        match self.phase {
            Phase::Inspect => Some(
                Ask::Inspect(
                    if self.frames.len() == 0 {
                        self.idx
                    } else {
                        -1i32
                    },
                ),
            ),
            Phase::Enumerate => Some(
                Ask::Enumerate(
                    if self.frames.len() <= 1 {
                        self.idx
                    } else {
                        -1i32
                    },
                    self.frames.len() > 0 && self.frames@.last().is_array,
                ),
            ),
            Phase::Next => Some(Ask::Next),
            Phase::DropMember => Some(Ask::Drop(2)),
            Phase::DropEnumerator(_) => Some(Ask::Drop(1)),
            Phase::Finished => None,
        }
    }

    /// A reader of the slot at an index, and its first question.
    pub fn start(idx: i32) -> (r: (Reader, Ask))
        ensures
            r.0.idx == idx,
            r.0.frames.len() == 0,
            r.0.phase is Inspect,
            r.1 == Ask::Inspect(idx),
    {
        (Reader { idx, frames: Vec::new(), phase: Phase::Inspect }, Ask::Inspect(idx))
    }

    /// Takes in a value that was read in full.
    fn complete(&mut self, value: Slot) -> (r: Step)
        requires
            old(self).phase is Finished,
        ensures
            final(self).idx == old(self).idx,
            forall|before: Reader|
                before.frames == old(self).frames && before.idx == old(self).idx
                    ==> #[trigger] completes(before, value, *final(self), r),
    {
        match self.frames.pop() {
            None => Step::Done(value),
            Some(frame) => {
                let ghost top = frame;
                let Frame { is_array, mut items, mut entries, key } = frame;
                let mut kept: Vec<u8> = Vec::new();
                if is_array {
                    items.push(value);
                    kept = key;
                } else {
                    let mut i: usize = 0;
                    while i < key.len()
                        invariant
                            i <= key.len(),
                            kept@ == key@.subrange(0, i as int),
                        decreases key.len() - i,
                    {
                        kept.push(key[i]);
                        proof {
                            assert(kept@ =~= key@.subrange(0, i + 1));
                        }
                        i = i + 1;
                    }
                    proof {
                        assert(key@.subrange(0, key.len() as int) =~= key@);
                    }
                    entries.push((key, value));
                }
                let after = Frame { is_array, items, entries, key: kept };
                proof {
                    assert(after.entries@.drop_last() =~= top.entries@ || is_array);
                    assert(attached(top, value, after));
                }
                self.frames.push(after);
                self.phase = Phase::DropMember;
                proof {
                    assert(self.frames@.drop_last() =~= old(self).frames@.drop_last());
                }
                Step::Ask(Ask::Drop(2))
            },
        }
    }

    /// Takes the answer to the question that was asked last, and says how the
    /// reading goes on.
    pub fn step(&mut self, told: Told) -> (r: Step)
        ensures
            steps(*old(self), told, *final(self), r),
    {
        let mut phase = Phase::Finished;
        core::mem::swap(&mut self.phase, &mut phase);
        match phase {
            Phase::Inspect => match told {
                Told::Seen(seen) => match seen {
                    Seen::Array => {
                        let r = self.open(true);
                        proof {
                            assert(opens(*old(self), true, *self, r));
                        }
                        r
                    },
                    Seen::Object => {
                        let r = self.open(false);
                        proof {
                            assert(opens(*old(self), false, *self, r));
                        }
                        r
                    },
                    plain => {
                        let slot = slot_of(plain);
                        let ghost value = slot;
                        let r = self.complete(slot);
                        proof {
                            assert(slot_for(seen, value));
                            assert(completes(*old(self), value, *self, r));
                        }
                        r
                    },
                },
                _ => Step::Broken,
            },
            Phase::Enumerate => match told {
                Told::Done => {
                    self.phase = Phase::Next;
                    Step::Ask(Ask::Next)
                },
                _ => Step::Broken,
            },
            Phase::Next => match told {
                Told::Entry(key) => match self.frames.pop() {
                    None => Step::Broken,
                    Some(frame) => {
                        let Frame { is_array, items, entries, key: _ } = frame;
                        self.frames.push(Frame { is_array, items, entries, key });
                        self.phase = Phase::Inspect;
                        proof {
                            assert(self.frames@.drop_last() =~= old(self).frames@.drop_last());
                        }
                        Step::Ask(Ask::Inspect(-1))
                    },
                },
                Told::End => match self.frames.pop() {
                    None => Step::Broken,
                    Some(frame) => {
                        let Frame { is_array, items, entries, key: _ } = frame;
                        let value = if is_array {
                            Slot::Array(items)
                        } else {
                            Slot::Object(entries)
                        };
                        self.phase = Phase::DropEnumerator(value);
                        Step::Ask(Ask::Drop(1))
                    },
                },
                _ => Step::Broken,
            },
            Phase::DropMember => match told {
                Told::Done => {
                    self.phase = Phase::Next;
                    Step::Ask(Ask::Next)
                },
                _ => Step::Broken,
            },
            Phase::DropEnumerator(value) => match told {
                Told::Done => {
                    let r = self.complete(value);
                    proof {
                        assert(completes(*old(self), value, *self, r));
                    }
                    r
                },
                _ => Step::Broken,
            },
            Phase::Finished => Step::Broken,
        }
    }

    /// Goes on to read the members of an array or object.
    fn open(&mut self, is_array: bool) -> (r: Step)
        requires
            old(self).phase is Finished,
        ensures
            final(self).idx == old(self).idx,
            forall|before: Reader|
                before.frames == old(self).frames && before.idx == old(self).idx
                    ==> #[trigger] opens(before, is_array, *final(self), r),
    {
        let idx = if self.frames.len() == 0 {
            self.idx
        } else {
            -1
        };
        self.frames.push(
            Frame { is_array, items: Vec::new(), entries: Vec::new(), key: Vec::new() },
        );
        self.phase = Phase::Enumerate;
        proof {
            assert(self.frames@.drop_last() =~= old(self).frames@);
        }
        Step::Ask(Ask::Enumerate(idx, is_array))
    }
}


/// Whether `seen` is what the engine shows of a cell without its members.
pub open spec fn glimpse(seen: Seen, cell: Cell) -> bool {
    match cell {
        Cell::Undefined => seen is Undefined,
        Cell::Null => seen is Null,
        Cell::Boolean(b) => seen == Seen::Boolean(b),
        Cell::Number(bits) => seen matches Seen::Number(n) && n.bits == bits,
        Cell::Text(bytes) => seen matches Seen::Text(v) && v@ == bytes,
        Cell::Pointer(handle) => seen == Seen::Pointer(handle),
        Cell::Array(_) => seen is Array,
        Cell::Object(_) => seen is Object,
        _ => seen is Other,
    }
}

/// Whether a sequence of members, each with its key, enumerates an array or
/// object: the elements of an array in their order, the properties of an
/// object each once, in any order.
pub open spec fn lists(members: Seq<(Seq<u8>, Cell)>, cell: Cell) -> bool {
    match cell {
        Cell::Array(items) => {
            &&& members.len() == items.len()
            &&& forall|i: int| 0 <= i < members.len() ==> (#[trigger] members[i]).1 == items[i]
        },
        Cell::Object(properties) => {
            &&& forall|i: int, j: int|
                0 <= i < j < members.len() ==> (#[trigger] members[i]).0 != (#[trigger] members[j]).0
            &&& forall|i: int|
                0 <= i < members.len() ==> properties.dom().contains((#[trigger] members[i]).0)
                    && properties[members[i].0] == members[i].1
            &&& forall|key: Seq<u8>|
                properties.dom().contains(key) ==> exists|i: int|
                    0 <= i < members.len() && (#[trigger] members[i]).0 == key
        },
        _ => false,
    }
}

/// Whether the engine may give an answer to a question, and be in the state
/// `after` then. The order in which an object gives its properties is the
/// engine's to choose.
pub open spec fn may_answer(before: Engine, ask: Ask, told: Told, after: Engine) -> bool {
    let depth = before.stack.len();
    &&& after.globals == before.globals
    &&& after.this == before.this
    &&& after.this_finalizer == before.this_finalizer
    &&& match ask {
        Ask::Inspect(idx) => {
            &&& after.stack == before.stack
            &&& told matches Told::Seen(seen)
            &&& match resolve(idx, depth) {
                Some(position) => glimpse(seen, before.stack[position]),
                None => seen is Missing,
            }
        },
        Ask::Enumerate(idx, array_only) => {
            &&& told is Done
            &&& resolve(idx, depth) matches Some(position)
            &&& array_only == (before.stack[position] is Array)
            &&& after.stack.len() == depth + 1
            &&& after.stack.drop_last() == before.stack
            &&& after.stack.last() matches Cell::Enumerator(members)
            &&& lists(members, before.stack[position])
        },
        Ask::Next => {
            &&& depth > 0
            &&& before.stack.last() matches Cell::Enumerator(left)
            &&& if left.len() > 0 {
                &&& told matches Told::Entry(key)
                &&& key@ == left[0].0
                &&& after.stack == before.stack.drop_last().push(
                    Cell::Enumerator(left.drop_first()),
                ).push(Cell::Text(left[0].0)).push(left[0].1)
            } else {
                told is End && after.stack == before.stack
            }
        },
        Ask::Drop(count) => {
            &&& told is Done
            &&& count <= depth
            &&& after.stack == before.stack.subrange(0, depth - count)
        },
    }
}

/// How many members of the array or object of a frame are read.
pub open spec fn read_so_far(frame: Frame) -> int {
    if frame.is_array {
        frame.items@.len() as int
    } else {
        frame.entries@.len() as int
    }
}

/// Whether the members that a frame holds are those that the enumerator gave
/// first.
pub open spec fn members_agree(frame: Frame, members: Seq<(Seq<u8>, Cell)>) -> bool {
    &&& read_so_far(frame) <= members.len()
    &&& frame.is_array ==> forall|k: int|
        0 <= k < frame.items@.len() ==> shows(#[trigger] frame.items@[k], members[k].1)
    &&& !frame.is_array ==> forall|k: int|
        0 <= k < frame.entries@.len() ==> (#[trigger] frame.entries@[k]).0@ == members[k].0
            && shows(frame.entries@[k].1, members[k].1)
}

/// The cell that a frame reads: the one that the reading is of, or the
/// member of the frame below that is being read.
pub open spec fn container(
    frames: Seq<Frame>,
    levels: Seq<Seq<(Seq<u8>, Cell)>>,
    root: Cell,
    j: int,
) -> Cell {
    if j <= 0 {
        root
    } else {
        levels[j - 1][read_so_far(frames[j - 1])].1
    }
}

/// Whether a frame and what its enumerator enumerates fit the cell that the
/// frame reads.
pub open spec fn level_fits(
    frames: Seq<Frame>,
    levels: Seq<Seq<(Seq<u8>, Cell)>>,
    root: Cell,
    j: int,
) -> bool {
    &&& lists(levels[j], container(frames, levels, root, j))
    &&& frames[j].is_array == (container(frames, levels, root, j) is Array)
    &&& members_agree(frames[j], levels[j])
}

/// Whether a member of a frame is being read: its key and value are on the
/// stack, and the frame holds its key.
pub open spec fn member_open(frames: Seq<Frame>, levels: Seq<Seq<(Seq<u8>, Cell)>>, j: int) -> bool {
    &&& read_so_far(frames[j]) < levels[j].len()
    &&& frames[j].key@ == levels[j][read_so_far(frames[j])].0
}

/// What the first `n` frames have on the stack while a member of each is
/// being read: its enumerator, and the key and the value of the member.
pub open spec fn below(frames: Seq<Frame>, levels: Seq<Seq<(Seq<u8>, Cell)>>, n: int) -> Seq<Cell>
    decreases n,
{
    if n <= 0 {
        Seq::empty()
    } else {
        let d = read_so_far(frames[n - 1]);
        below(frames, levels, n - 1).push(Cell::Enumerator(levels[n - 1].skip(d + 1))).push(
            Cell::Text(levels[n - 1][d].0),
        ).push(levels[n - 1][d].1)
    }
}

/// The cell that the reading is of, where the index names a slot.
pub open spec fn root_of(base: Seq<Cell>, idx: i32) -> Cell {
    match resolve(idx, base.len()) {
        Some(position) => base[position],
        None => Cell::Other,
    }
}

/// Whether a reader and an engine are in step: the reader waits for an
/// answer, the stack holds, above what it held when the reading began, what
/// the frames of the reader account for, and the members that the frames
/// hold show what the enumerators gave. `levels` are the members that each
/// enumerator enumerates.
pub open spec fn in_step(
    reader: Reader,
    levels: Seq<Seq<(Seq<u8>, Cell)>>,
    e: Engine,
    base: Seq<Cell>,
    idx: i32,
) -> bool {
    let frames = reader.frames@;
    let n = frames.len() as int;
    let root = root_of(base, idx);
    &&& reader.idx == idx
    &&& n > 0 ==> resolve(idx, base.len()) is Some
    &&& match reader.phase {
        Phase::Inspect => {
            &&& levels.len() == n
            &&& forall|j: int| 0 <= j < n ==> #[trigger] level_fits(frames, levels, root, j)
            &&& forall|j: int| 0 <= j < n ==> #[trigger] member_open(frames, levels, j)
            &&& e.stack == base + below(frames, levels, n)
        },
        Phase::Enumerate => {
            &&& n >= 1
            &&& levels.len() == n - 1
            &&& forall|j: int| 0 <= j < n - 1 ==> #[trigger] level_fits(frames, levels, root, j)
            &&& forall|j: int| 0 <= j < n - 1 ==> #[trigger] member_open(frames, levels, j)
            &&& e.stack == base + below(frames, levels, n - 1)
            &&& frames[n - 1].is_array == (container(frames, levels, root, n - 1) is Array)
            &&& container(frames, levels, root, n - 1) is Array || container(
                frames,
                levels,
                root,
                n - 1,
            ) is Object
            &&& read_so_far(frames[n - 1]) == 0
            &&& frames[n - 1].items@.len() == 0
            &&& frames[n - 1].entries@.len() == 0
        },
        Phase::Next => {
            &&& n >= 1
            &&& levels.len() == n
            &&& forall|j: int| 0 <= j < n ==> #[trigger] level_fits(frames, levels, root, j)
            &&& forall|j: int| 0 <= j < n - 1 ==> #[trigger] member_open(frames, levels, j)
            &&& e.stack == (base + below(frames, levels, n - 1)).push(
                Cell::Enumerator(levels[n - 1].skip(read_so_far(frames[n - 1]))),
            )
        },
        Phase::DropMember => {
            &&& n >= 1
            &&& levels.len() == n
            &&& forall|j: int| 0 <= j < n ==> #[trigger] level_fits(frames, levels, root, j)
            &&& forall|j: int| 0 <= j < n - 1 ==> #[trigger] member_open(frames, levels, j)
            &&& read_so_far(frames[n - 1]) >= 1
            &&& e.stack == (base + below(frames, levels, n - 1)).push(
                Cell::Enumerator(levels[n - 1].skip(read_so_far(frames[n - 1]))),
            ).push(Cell::Text(levels[n - 1][read_so_far(frames[n - 1]) - 1].0)).push(
                levels[n - 1][read_so_far(frames[n - 1]) - 1].1,
            )
        },
        Phase::DropEnumerator(value) => {
            &&& resolve(idx, base.len()) is Some
            &&& levels.len() == n
            &&& forall|j: int| 0 <= j < n ==> #[trigger] level_fits(frames, levels, root, j)
            &&& forall|j: int| 0 <= j < n ==> #[trigger] member_open(frames, levels, j)
            &&& e.stack == (base + below(frames, levels, n)).push(Cell::Enumerator(Seq::empty()))
            &&& shows(value, container(frames, levels, root, n))
        },
        Phase::Finished => false,
    }
}

/// A reader is in step with the engine that it starts on.
pub proof fn lemma_reading_starts(reader: Reader, e: Engine, idx: i32)
    requires
        reader.idx == idx,
        reader.frames.len() == 0,
        reader.phase is Inspect,
    ensures
        in_step(reader, Seq::empty(), e, e.stack, idx),
        reader.pending() == Some(Ask::Inspect(idx)),
{
    assert(e.stack + below(reader.frames@, Seq::empty(), 0) =~= e.stack);
}


/// Slots that show cells one for one show them as elements.
proof fn lemma_shows_items_pointwise(slots: Seq<Slot>, cells: Seq<Cell>)
    requires
        slots.len() == cells.len(),
        forall|k: int| 0 <= k < slots.len() ==> shows(#[trigger] slots[k], cells[k]),
    ensures
        shows_items(slots, cells),
    decreases slots.len(),
{
    if slots.len() > 0 {
        let front = slots.drop_last();
        assert forall|k: int| 0 <= k < front.len() implies shows(
            #[trigger] front[k],
            cells.drop_last()[k],
        ) by {
            assert(front[k] == slots[k]);
        }
        lemma_shows_items_pointwise(front, cells.drop_last());
        assert(slots.last() == slots[slots.len() - 1]);
    }
}

/// Slots that each show the cell under their key show them as properties.
proof fn lemma_shows_properties_pointwise(slots: Seq<(Vec<u8>, Slot)>, cells: Map<Seq<u8>, Cell>)
    requires
        forall|k: int|
            0 <= k < slots.len() ==> cells.dom().contains((#[trigger] slots[k]).0@) && shows(
                slots[k].1,
                cells[slots[k].0@],
            ),
    ensures
        shows_properties(slots, cells),
    decreases slots.len(),
{
    if slots.len() > 0 {
        let front = slots.drop_last();
        assert forall|k: int| 0 <= k < front.len() implies cells.dom().contains(
            (#[trigger] front[k]).0@,
        ) && shows(front[k].1, cells[front[k].0@]) by {
            assert(front[k] == slots[k]);
        }
        lemma_shows_properties_pointwise(front, cells);
        assert(slots.last() == slots[slots.len() - 1]);
    }
}

/// A frame that has read all the members that its enumerator gave closes to
/// a slot that shows the array or object.
proof fn lemma_frame_closes(frame: Frame, members: Seq<(Seq<u8>, Cell)>, cell: Cell, value: Slot)
    requires
        members_agree(frame, members),
        read_so_far(frame) == members.len(),
        lists(members, cell),
        frame.is_array == (cell is Array),
        closes(frame, value),
    ensures
        shows(value, cell),
{
    match cell {
        Cell::Array(items) => {
            assert forall|k: int| 0 <= k < frame.items@.len() implies shows(
                #[trigger] frame.items@[k],
                items[k],
            ) by {
                assert(members[k].1 == items[k]);
            }
            lemma_shows_items_pointwise(frame.items@, items);
        },
        Cell::Object(properties) => {
            let slots = frame.entries@;
            assert forall|k: int| 0 <= k < slots.len() implies properties.dom().contains(
                (#[trigger] slots[k]).0@,
            ) && shows(slots[k].1, properties[slots[k].0@]) by {
                assert(properties[members[k].0] == members[k].1);
            }
            lemma_shows_properties_pointwise(slots, properties);
            assert forall|i: int, j: int| 0 <= i < j < slots.len() implies (#[trigger] slots[i]).0@
                != (#[trigger] slots[j]).0@ by {
                assert(members[i].0 != members[j].0);
            }
            assert forall|key: Seq<u8>| properties.dom().contains(key) implies exists|i: int|
                0 <= i < slots.len() && (#[trigger] slots[i]).0@ == key by {
                let i = choose|i: int| 0 <= i < members.len() && (#[trigger] members[i]).0 == key;
                assert(slots[i].0@ == key);
            }
        },
        _ => {},
    }
}

/// Whether two frames hold the same members.
pub open spec fn same_members(a: Frame, b: Frame) -> bool {
    a.is_array == b.is_array && a.items@ == b.items@ && a.entries@ == b.entries@
}

/// What frames have on the stack depends on their members alone.
proof fn lemma_below_same(
    f1: Seq<Frame>,
    l1: Seq<Seq<(Seq<u8>, Cell)>>,
    f2: Seq<Frame>,
    l2: Seq<Seq<(Seq<u8>, Cell)>>,
    n: int,
)
    requires
        forall|j: int| 0 <= j < n ==> same_members(#[trigger] f1[j], f2[j]),
        forall|j: int| 0 <= j < n ==> #[trigger] l1[j] == l2[j],
    ensures
        below(f1, l1, n) == below(f2, l2, n),
    decreases n,
{
    if n > 0 {
        lemma_below_same(f1, l1, f2, l2, n - 1);
        assert(same_members(f1[n - 1], f2[n - 1]));
        assert(l1[n - 1] == l2[n - 1]);
    }
}

/// Whether a frame fits its cell depends on the members of the frame and of
/// the one below alone.
proof fn lemma_level_same(
    f1: Seq<Frame>,
    l1: Seq<Seq<(Seq<u8>, Cell)>>,
    f2: Seq<Frame>,
    l2: Seq<Seq<(Seq<u8>, Cell)>>,
    root: Cell,
    j: int,
)
    requires
        j >= 0,
        same_members(f1[j], f2[j]),
        l1[j] == l2[j],
        j > 0 ==> same_members(f1[j - 1], f2[j - 1]) && l1[j - 1] == l2[j - 1],
    ensures
        container(f1, l1, root, j) == container(f2, l2, root, j),
        level_fits(f1, l1, root, j) == level_fits(f2, l2, root, j),
        f1[j].key@ == f2[j].key@ ==> member_open(f1, l1, j) == member_open(f2, l2, j),
{
}


/// A member that is read in full goes into the frame around it.
proof fn lemma_member_done(
    reader: Reader,
    levels: Seq<Seq<(Seq<u8>, Cell)>>,
    e2: Engine,
    base: Seq<Cell>,
    idx: i32,
    value: Slot,
    after: Reader,
    step: Step,
)
    requires
        reader.frames@.len() > 0,
        levels.len() == reader.frames@.len(),
        resolve(idx, base.len()) is Some,
        forall|j: int|
            0 <= j < reader.frames@.len() ==> #[trigger] level_fits(
                reader.frames@,
                levels,
                root_of(base, idx),
                j,
            ),
        forall|j: int|
            0 <= j < reader.frames@.len() ==> #[trigger] member_open(reader.frames@, levels, j),
        e2.stack == base + below(reader.frames@, levels, reader.frames@.len() as int),
        shows(
            value,
            container(reader.frames@, levels, root_of(base, idx), reader.frames@.len() as int),
        ),
        completes(reader, value, after, step),
        after.idx == idx,
    ensures
        step == Step::Ask(Ask::Drop(2)),
        after.pending() == Some(Ask::Drop(2)),
        in_step(after, levels, e2, base, idx),
{
    let frames = reader.frames@;
    let n = frames.len() as int;
    let root = root_of(base, idx);
    let next = after.frames@;
    let top = frames[n - 1];
    let grown = next[n - 1];
    let members = levels[n - 1];
    let d = read_so_far(top);
    assert(frames.last() == top);
    assert(next.last() == grown);
    assert(level_fits(frames, levels, root, n - 1));
    assert(member_open(frames, levels, n - 1));
    assert forall|j: int| 0 <= j < n - 1 implies same_members(#[trigger] frames[j], next[j])
        && frames[j].key@ == next[j].key@ by {
        assert(frames.drop_last()[j] == frames[j]);
        assert(next.drop_last()[j] == next[j]);
    }
    assert forall|j: int| 0 <= j < n implies #[trigger] level_fits(next, levels, root, j) by {
        assert(level_fits(frames, levels, root, j));
        assert(member_open(frames, levels, j));
        if j < n - 1 {
            if j > 0 {
                assert(same_members(frames[j - 1], next[j - 1]));
            }
            lemma_level_same(frames, levels, next, levels, root, j);
        } else {
            if j > 0 {
                assert(same_members(frames[j - 1], next[j - 1]));
            }
            assert(container(next, levels, root, j) == container(frames, levels, root, j));
            if top.is_array {
                assert forall|k: int| 0 <= k < grown.items@.len() implies shows(
                    #[trigger] grown.items@[k],
                    members[k].1,
                ) by {
                    if k < d {
                        assert(grown.items@[k] == top.items@[k]);
                    }
                }
            } else {
                assert forall|k: int| 0 <= k < grown.entries@.len() implies (
                #[trigger] grown.entries@[k]).0@ == members[k].0 && shows(
                    grown.entries@[k].1,
                    members[k].1,
                ) by {
                    if k < d {
                        assert(grown.entries@.drop_last()[k] == grown.entries@[k]);
                        assert(grown.entries@[k] == top.entries@[k]);
                    } else {
                        assert(grown.entries@[k] == grown.entries@.last());
                    }
                }
            }
        }
    }
    assert forall|j: int| 0 <= j < n - 1 implies #[trigger] member_open(next, levels, j) by {
        assert(member_open(frames, levels, j));
        assert(same_members(frames[j], next[j]));
    }
    lemma_below_same(frames, levels, next, levels, n - 1);
    assert(e2.stack =~= (base + below(next, levels, n - 1)).push(
        Cell::Enumerator(members.skip(read_so_far(grown))),
    ).push(Cell::Text(members[read_so_far(grown) - 1].0)).push(
        members[read_so_far(grown) - 1].1,
    ));
}

/// Whether a reading has gone on as it should: the reader asks on and is in
/// step with the engine, or it is done, and then the slot that it gives shows
/// what the stack holds at the index, and the stack is as it was when the
/// reading began.
pub open spec fn goes_on(
    step: Step,
    after: Reader,
    next: Seq<Seq<(Seq<u8>, Cell)>>,
    e2: Engine,
    base: Seq<Cell>,
    idx: i32,
) -> bool {
    match step {
        Step::Ask(ask) => after.pending() == Some(ask) && in_step(after, next, e2, base, idx),
        Step::Done(slot) => e2.stack == base && match resolve(idx, base.len()) {
            Some(position) => shows(slot, base[position]),
            None => slot is Missing,
        },
        Step::Broken => false,
    }
}

/// A reading that is in step with the engine stays so: whatever the engine
/// may answer to the question that the reader asked, the reader does not
/// break; it asks on, in step again, or it is done, and then the slot that it
/// gives shows what the stack holds at the index, members and all, and the
/// stack is as it was when the reading began.
pub proof fn lemma_reading_goes_on(
    reader: Reader,
    levels: Seq<Seq<(Seq<u8>, Cell)>>,
    e: Engine,
    base: Seq<Cell>,
    idx: i32,
    told: Told,
    e2: Engine,
    after: Reader,
    step: Step,
) -> (next: Seq<Seq<(Seq<u8>, Cell)>>)
    requires
        in_step(reader, levels, e, base, idx),
        reader.pending() matches Some(ask) && may_answer(e, ask, told, e2),
        steps(reader, told, after, step),
    ensures
        e2.globals == e.globals,
        e2.this == e.this,
        goes_on(step, after, next, e2, base, idx),
{
    let frames = reader.frames@;
    let n = frames.len() as int;
    let root = root_of(base, idx);
    match reader.phase {
        Phase::Inspect => {
            let seen = told->Seen_0;
            let cur = container(frames, levels, root, n);
            if n > 0 {
                assert(level_fits(frames, levels, root, n - 1));
                assert(member_open(frames, levels, n - 1));
                assert(e.stack.last() == cur);
                assert(glimpse(seen, cur));
            } else {
                assert(e.stack =~= base);
                assert(below(frames, levels, 0) =~= Seq::<Cell>::empty());
                if resolve(idx, base.len()) is Some {
                    assert(glimpse(seen, cur));
                }
            }
            if seen is Array || seen is Object {
                let is_array = seen is Array;
                assert(opens(reader, is_array, after, step));
                assert(resolve(idx, base.len()) is Some);
                assert(glimpse(seen, cur));
                let grown = after.frames@;
                assert forall|j: int| 0 <= j < n implies same_members(#[trigger] frames[j], grown[j])
                    && frames[j].key@ == grown[j].key@ by {
                    assert(grown.drop_last()[j] == grown[j]);
                }
                assert forall|j: int| 0 <= j < n implies #[trigger] level_fits(
                    grown,
                    levels,
                    root,
                    j,
                ) by {
                    assert(level_fits(frames, levels, root, j));
                    if j > 0 {
                        assert(same_members(frames[j - 1], grown[j - 1]));
                    }
                    lemma_level_same(frames, levels, grown, levels, root, j);
                }
                assert forall|j: int| 0 <= j < n implies #[trigger] member_open(grown, levels, j) by {
                    assert(member_open(frames, levels, j));
                    assert(same_members(frames[j], grown[j]));
                }
                lemma_below_same(frames, levels, grown, levels, n);
                if n > 0 {
                    assert(same_members(frames[n - 1], grown[n - 1]));
                }
                assert(container(grown, levels, root, n) == cur);
                assert(grown.last() == grown[n]);
                levels
            } else {
                let value = choose|value: Slot|
                    slot_for(seen, value) && #[trigger] completes(reader, value, after, step);
                if n > 0 {
                    assert(shows(value, cur));
                    lemma_member_done(reader, levels, e2, base, idx, value, after, step);
                } else {
                    assert(step == Step::Done(value));
                    assert(e2.stack == base);
                    match resolve(idx, base.len()) {
                        Some(position) => {
                            assert(glimpse(seen, base[position]));
                            assert(shows(value, base[position]));
                        },
                        None => {
                            assert(seen is Missing);
                            assert(value is Missing);
                        },
                    }
                }
                levels
            }
        },
        Phase::Enumerate => {
            let members = e2.stack.last()->Enumerator_0;
            let next = levels.push(members);
            assert(after.frames@ == frames);
            assert(e.stack == base + below(frames, levels, n - 1));
            if n > 1 {
                assert(level_fits(frames, levels, root, n - 2));
                assert(member_open(frames, levels, n - 2));
                assert(e.stack.last() == container(frames, levels, root, n - 1));
            } else {
                assert(e.stack =~= base);
            }
            assert(lists(members, container(frames, levels, root, n - 1)));
            assert forall|j: int| 0 <= j < n implies #[trigger] level_fits(frames, next, root, j) by {
                if j < n - 1 {
                    assert(level_fits(frames, levels, root, j));
                    lemma_level_same(frames, levels, frames, next, root, j);
                } else {
                    assert(container(frames, next, root, j) == container(frames, levels, root, j));
                }
            }
            assert forall|j: int| 0 <= j < n - 1 implies #[trigger] member_open(frames, next, j) by {
                assert(member_open(frames, levels, j));
            }
            lemma_below_same(frames, levels, frames, next, n - 1);
            assert(members.skip(0) =~= members);
            assert(e2.stack =~= (base + below(frames, next, n - 1)).push(
                Cell::Enumerator(next[n - 1].skip(read_so_far(frames[n - 1]))),
            ));
            next
        },
        Phase::Next => {
            let members = levels[n - 1];
            let top = frames[n - 1];
            let d = read_so_far(top);
            let left = members.skip(d);
            assert(frames.last() == top);
            assert(e.stack.last() == Cell::Enumerator(left));
            assert(level_fits(frames, levels, root, n - 1));
            if left.len() > 0 {
                let grown = after.frames@;
                assert(grown.last() == grown[n - 1]);
                assert forall|j: int| 0 <= j < n implies same_members(#[trigger] frames[j], grown[j])
                    by {
                    if j < n - 1 {
                        assert(frames.drop_last()[j] == frames[j]);
                        assert(grown.drop_last()[j] == grown[j]);
                    }
                }
                assert forall|j: int| 0 <= j < n implies #[trigger] level_fits(
                    grown,
                    levels,
                    root,
                    j,
                ) by {
                    assert(level_fits(frames, levels, root, j));
                    if j > 0 {
                        assert(same_members(frames[j - 1], grown[j - 1]));
                    }
                    lemma_level_same(frames, levels, grown, levels, root, j);
                }
                assert forall|j: int| 0 <= j < n implies #[trigger] member_open(grown, levels, j) by {
                    assert(same_members(frames[j], grown[j]));
                    if j < n - 1 {
                        assert(member_open(frames, levels, j));
                        assert(frames.drop_last()[j] == frames[j]);
                        assert(grown.drop_last()[j] == grown[j]);
                    } else {
                        assert(left[0] == members[d]);
                    }
                }
                lemma_below_same(frames, levels, grown, levels, n - 1);
                assert(left[0] == members[d]);
                assert(left.drop_first() =~= members.skip(d + 1));
                assert(same_members(frames[n - 1], grown[n - 1]));
                assert(e2.stack =~= base + below(grown, levels, n));
                levels
            } else {
                let next = levels.drop_last();
                let shrunk = after.frames@;
                let value = after.phase->DropEnumerator_0;
                assert(shrunk == frames.drop_last());
                assert forall|j: int| 0 <= j < n - 1 implies #[trigger] level_fits(
                    shrunk,
                    next,
                    root,
                    j,
                ) by {
                    assert(level_fits(frames, levels, root, j));
                    lemma_level_same(frames, levels, shrunk, next, root, j);
                }
                assert forall|j: int| 0 <= j < n - 1 implies #[trigger] member_open(
                    shrunk,
                    next,
                    j,
                ) by {
                    assert(member_open(frames, levels, j));
                }
                lemma_below_same(frames, levels, shrunk, next, n - 1);
                assert(left =~= Seq::<(Seq<u8>, Cell)>::empty());
                assert(e2.stack =~= (base + below(shrunk, next, n - 1)).push(
                    Cell::Enumerator(Seq::empty()),
                ));
                if n > 1 {
                    assert(same_members(frames[n - 2], shrunk[n - 2]));
                }
                assert(container(shrunk, next, root, n - 1) == container(
                    frames,
                    levels,
                    root,
                    n - 1,
                ));
                lemma_frame_closes(top, members, container(frames, levels, root, n - 1), value);
                next
            }
        },
        Phase::DropMember => {
            assert(after.frames@ == frames);
            assert(e2.stack =~= (base + below(frames, levels, n - 1)).push(
                Cell::Enumerator(levels[n - 1].skip(read_so_far(frames[n - 1]))),
            ));
            levels
        },
        Phase::DropEnumerator(value) => {
            assert(e2.stack =~= base + below(frames, levels, n));
            if n > 0 {
                lemma_member_done(reader, levels, e2, base, idx, value, after, step);
            } else {
                assert(e2.stack =~= base);
            }
            levels
        },
        Phase::Finished => levels,
    }
}

} // verus!
