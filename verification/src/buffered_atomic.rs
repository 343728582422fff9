//! A ring of [`AtomicItem`]s that always has the latest value at hand.
//!
//! Each write goes to the next slot that nobody else is inside, so that a reader of the latest
//! value is seldom in a writer's way. Old values are overwritten, read or not.
use vstd::arithmetic::div_mod::*;
use vstd::arithmetic::power2::*;
use vstd::pervasive::*;
use vstd::prelude::*;

use crate::atomic_item::law_item_fields;
use crate::atomic_item::law_item_written;
use crate::atomic_item::readable;
use crate::atomic_item::AtomicItem;
use crate::atomic_item::ItemState;
use crate::index::cursor_at;
use crate::index::latest_index;
use crate::index::law_cursors;
use crate::index::lemma_cursor_ahead;
use crate::index::lemma_cursor_itself;
use crate::index::lemma_cursor_slot;
use crate::index::lemma_cursor_slot_ahead;
use crate::index::lemma_len_divides_cursor_count;
use crate::index::lemma_next_cursor;
use crate::index::lemma_slots_differ;
use crate::index::slot_index;
use crate::scan::lemma_passed_over;
use crate::scan::passed_over;
use crate::scan::some_free;

verus! {

/// What a [`BufferedAtomic`] stands for: its slots, and the cursor of the next write.
pub struct Ring<T> where T: Clone {
    pub items: Seq<ItemState<T>>,
    pub cursor: usize,
}

impl<T> Ring<T> where T: Clone {
    /// A power of two of slots, each in order.
    pub open spec fn wf(self) -> bool {
        &&& is_pow2(self.items.len() as int)
        &&& self.items.len() <= usize::MAX
        &&& forall|i: int| 0 <= i < self.items.len() ==> (#[trigger] self.items[i]).wf()
    }

    /// For each slot, whether somebody is inside.
    pub open spec fn taken(self) -> Seq<bool> {
        self.items.map_values(|item: ItemState<T>| !item.admits())
    }

    /// Some slot is free for a writer.
    pub open spec fn has_room(self) -> bool {
        some_free(self.taken())
    }

    /// Nobody is inside any slot.
    pub open spec fn quiescent(self) -> bool {
        forall|i: int| 0 <= i < self.items.len() ==> (#[trigger] self.items[i]).admits()
    }

    /// The slot at a position of the unbounded count.
    pub open spec fn slot(self, n: int) -> int {
        n % (self.items.len() as int)
    }

    /// How many slots the next write passes over because somebody is inside.
    pub open spec fn skipped(self) -> nat {
        passed_over(self.taken(), self.cursor as int)
    }

    /// The slot that the next write goes to.
    pub open spec fn target(self) -> int {
        self.slot(self.cursor + self.skipped())
    }

    /// The slot that a read looks at.
    pub open spec fn latest(self) -> ItemState<T> {
        self.items[self.slot(self.cursor - 1)]
    }

    /// The ring after a write of `value`.
    pub open spec fn written(self, value: T) -> Self {
        Ring {
            items: self.items.update(self.target(), self.items[self.target()].written(value)),
            cursor: cursor_at(self.cursor + self.skipped() + 1),
        }
    }

    /// The ring after writes of all of `values`, in order.
    pub open spec fn written_all(self, values: Seq<T>) -> Self
        decreases values.len(),
    {
        if values.len() == 0 {
            self
        } else {
            self.written_all(values.drop_last()).written(values.last())
        }
    }
}

/// A ring of slots whose latest value can be read at any time.
#[derive(Debug)]
pub struct BufferedAtomic<T> where T: Clone {
    pub ringbuffer: Vec<AtomicItem<T>>,
    /// The cursor of the next write. Reads look at the slot before it.
    pub write_index: usize,
    /// Mask used to turn a cursor into a slot.
    pub mask: usize,
}

/// A write to a [`BufferedAtomic`], by the step that comes next.
pub enum BufferWrite<T> {
    /// Load the cursor and add one to it, then go on with [`BufferWrite::after_advance`].
    Advance { value: T },
    /// Try to write to slot `index`, then go on with [`BufferWrite::after_attempt`].
    Attempt { index: usize, value: T },
    /// The value is in place.
    Done,
}

/// A read of a [`BufferedAtomic`], by the step that comes next.
pub enum BufferRead<T> {
    /// Load the cursor, then go on with [`BufferRead::after_load`].
    Load,
    /// Try to read slot `index`, then go on with [`BufferRead::after_attempt`].
    Attempt { index: usize },
    /// The value is read.
    Done { value: T },
}

impl<T> BufferWrite<T> {
    /// What follows when the cursor was `cursor` on a ring of `len` slots.
    pub open spec fn advanced(value: T, cursor: usize, len: int) -> Self {
        BufferWrite::Attempt { index: (cursor as int % len) as usize, value }
    }

    /// What follows when the slot has taken the value, or has not.
    pub open spec fn attempted(result: Result<(), T>) -> Self {
        match result {
            Ok(()) => BufferWrite::Done,
            Err(value) => BufferWrite::Advance { value },
        }
    }

    /// Goes to the slot of the cursor that was loaded.
    pub fn after_advance(value: T, cursor: usize, mask: usize) -> (op: Self)
        requires
            is_pow2(mask + 1),
            mask < usize::MAX,
        ensures
            op == Self::advanced(value, cursor, mask + 1),
            op == (BufferWrite::Attempt { index: (cursor as int % (mask + 1)) as usize, value }),
    {
        BufferWrite::Attempt { index: slot_index(cursor, mask), value }
    }

    /// Goes on to the next slot if somebody is inside this one.
    pub fn after_attempt(result: Result<(), T>) -> (op: Self)
        ensures
            op == Self::attempted(result),
            result is Ok ==> op == BufferWrite::<T>::Done,
            result is Err ==> op == (BufferWrite::Advance { value: result->Err_0 }),
    {
        match result {
            Ok(()) => BufferWrite::Done,
            Err(value) => BufferWrite::Advance { value },
        }
    }
}

impl<T> BufferRead<T> {
    /// What follows when the cursor was `cursor` on a ring of `len` slots.
    pub open spec fn loaded(cursor: usize, len: int) -> Self {
        BufferRead::Attempt { index: ((cursor - 1) % len) as usize }
    }

    /// What follows when there was a value in the slot, or was none.
    pub open spec fn attempted(result: Option<T>) -> Self {
        match result {
            Some(value) => BufferRead::Done { value },
            None => BufferRead::Load,
        }
    }

    /// Goes to the slot before the cursor that was loaded.
    pub fn after_load(cursor: usize, mask: usize) -> (op: Self)
        requires
            is_pow2(mask + 1),
            mask < usize::MAX,
        ensures
            op == Self::loaded(cursor, mask + 1),
            op == (BufferRead::<T>::Attempt { index: ((cursor - 1) % (mask + 1)) as usize }),
    {
        BufferRead::Attempt { index: latest_index(cursor, mask) }
    }

    /// Looks for the latest slot again if there was nothing to read in this one.
    pub fn after_attempt(result: Option<T>) -> (op: Self)
        ensures
            op == Self::attempted(result),
            result is Some ==> op == (BufferRead::Done { value: result->0 }),
            result is None ==> op == BufferRead::<T>::Load,
    {
        match result {
            Some(value) => BufferRead::Done { value },
            None => BufferRead::Load,
        }
    }
}

impl<T> Default for BufferedAtomic<T> where T: Clone + Default {
    /// A buffer without slots, which can be neither written nor read.
    fn default() -> (buffer: Self)
        ensures
            buffer.ringbuffer@.len() == 0,
            buffer.write_index == 0,
            buffer.mask == 0,
    {
        BufferedAtomic { ringbuffer: Vec::new(), write_index: 0, mask: 0 }
    }
}

impl<T> View for BufferedAtomic<T> where T: Clone {
    type V = Ring<T>;

    open spec fn view(&self) -> Ring<T> {
        Ring {
            items: self.ringbuffer@.map_values(|item: AtomicItem<T>| item@),
            cursor: self.write_index,
        }
    }
}

impl<T> BufferedAtomic<T> where T: Clone {
    /// The slots are in order and the mask fits them.
    pub open spec fn wf(self) -> bool {
        &&& self@.wf()
        &&& self.mask + 1 == self.ringbuffer@.len()
    }

    /// Creates a buffer of `size` slots, none of which holds a value.
    ///
    /// `size` has to be a power of two.
    pub fn new(size: usize) -> (buffer: Self)
        requires
            is_pow2(size as int),
        ensures
            buffer.wf(),
            buffer@.quiescent(),
            buffer@.has_room(),
            buffer@.cursor == 0,
            buffer@.items == Seq::new(size as nat, |i: int| ItemState::<T>::fresh()),
            buffer.ringbuffer@.len() == size,
            buffer.write_index == 0,
            buffer.mask == size - 1,
            forall|i: int|
                0 <= i < size ==> {
                    &&& (#[trigger] buffer.ringbuffer@[i]).value is None
                    &&& buffer.ringbuffer@[i].seq == 0
                    &&& buffer.ringbuffer@[i].readers == 0
                    &&& buffer.ringbuffer@[i].drop_count == 0
                },
    {
        proof {
            lemma_len_divides_cursor_count(size as int);
        }
        let mut ringbuffer: Vec<AtomicItem<T>> = Vec::new();
        let mut count: usize = 0;
        while count < size
            invariant
                count <= size,
                ringbuffer@.len() == count,
                forall|i: int|
                    0 <= i < count ==> {
                        &&& (#[trigger] ringbuffer@[i])@ == ItemState::<T>::fresh()
                        &&& ringbuffer@[i].value is None
                        &&& ringbuffer@[i].seq == 0
                        &&& ringbuffer@[i].readers == 0
                        &&& ringbuffer@[i].drop_count == 0
                    },
            decreases size - count,
        {
            ringbuffer.push(AtomicItem::new());
            count = count + 1;
        }
        let buffer = BufferedAtomic { ringbuffer, write_index: 0, mask: size - 1 };
        assert(!buffer@.taken()[0]);
        buffer
    }

    /// The step that loads the cursor of the next write and adds one to it.
    fn advance(&mut self) -> (cursor: usize)
        ensures
            cursor == old(self).write_index,
            final(self).write_index == cursor_at(old(self).write_index + 1),
            final(self).ringbuffer == old(self).ringbuffer,
            final(self).mask == old(self).mask,
    {
        let cursor: usize = self.write_index;
        proof {
            lemma_next_cursor(cursor);
        }
        self.write_index = cursor.wrapping_add(1);
        cursor
    }

    /// Writes the value to the next slot that nobody is inside. There has to be one: otherwise
    /// the write would go round for ever.
    pub fn write(&mut self, value: T)
        requires
            old(self).wf(),
            old(self)@.has_room(),
        ensures
            final(self).wf(),
            final(self)@ == old(self)@.written(value),
            final(self)@.has_room(),
            readable(final(self)@.latest().seq),
            final(self)@.latest().value == Some(value),
            final(self).ringbuffer@.len() == old(self).ringbuffer@.len(),
            final(self).mask == old(self).mask,
            ({
                let items = old(self).ringbuffer@;
                let after = final(self).ringbuffer@;
                let cursor = old(self).write_index as int;
                let len = items.len() as int;
                exists|passed: int| {
                    let at = (cursor + passed) % len;
                    // The first slot from the cursor on that nobody is inside takes the value.
                    &&& 0 <= passed < len
                    &&& (#[trigger] items[(cursor + passed) % len]).seq % 2 == 0
                    &&& items[at].readers == 0
                    &&& forall|i: int|
                        0 <= i < passed ==> {
                            ||| (#[trigger] items[(cursor + i) % len]).seq % 2 == 1
                            ||| items[(cursor + i) % len].readers != 0
                        }
                    &&& after[at].value is Some
                    &&& after[at].value->0@ == value
                    &&& after[at].seq == if items[at].seq == usize::MAX - 1 {
                        2
                    } else {
                        items[at].seq + 2
                    }
                    &&& after[at].readers == 0
                    &&& after[at].drop_count == if items[at].seq == 0 {
                        items[at].drop_count
                    } else {
                        items[at].drop_count.wrapping_add(1)
                    }
                    // The other slots stay as they are, and the cursor is one past the slot.
                    &&& forall|i: int|
                        0 <= i < len && i != at ==> #[trigger] after[i] == items[i]
                    &&& final(self).write_index == (cursor + passed + 1) % (usize::MAX + 1)
                }
            }),
    {
        let ghost before = self@;
        let ghost start = self.ringbuffer@;
        let ghost len = before.items.len();
        let ghost mut passed: nat = 0;
        let mut op: BufferWrite<T> = BufferWrite::Advance { value };
        proof {
            lemma_skipped(before);
            lemma_cursor_itself(before.cursor);
            law_write_keeps_order(before, value);
            law_read_after_write(before, value);
        }
        loop
            invariant
                before == old(self)@,
                start == old(self).ringbuffer@,
                start.len() == len,
                self.mask == old(self).mask,
                before.wf(),
                before.has_room(),
                len == before.items.len(),
                self.wf(),
                self.ringbuffer@.len() == len,
                passed <= before.skipped(),
                before.skipped() < len,
                before.written(value).has_room(),
                readable(before.written(value).latest().seq),
                before.written(value).latest().value == Some(value),
                match op {
                    BufferWrite::Advance { value: v } => {
                        &&& v == value
                        &&& self@.items == before.items
                        &&& self.ringbuffer@ == start
                        &&& self.write_index == cursor_at(before.cursor + passed)
                    },
                    BufferWrite::Attempt { index, value: v } => {
                        &&& v == value
                        &&& self@.items == before.items
                        &&& self.ringbuffer@ == start
                        &&& self.write_index == cursor_at(before.cursor + passed + 1)
                        &&& index == before.slot(before.cursor + passed)
                    },
                    BufferWrite::Done => {
                        let at = before.slot(before.cursor + passed);
                        &&& self@ == before.written(value)
                        &&& passed == before.skipped()
                        &&& 0 <= at < len
                        &&& self.ringbuffer@ == start.update(at, self.ringbuffer@[at])
                    },
                },
            decreases
                before.skipped() - passed,
                (match op {
                    BufferWrite::Advance { .. } => 2int,
                    BufferWrite::Attempt { .. } => 1,
                    BufferWrite::Done => 0,
                }),
        {
            op = match op {
                BufferWrite::Advance { value } => {
                    let cursor = self.advance();
                    proof {
                        lemma_cursor_slot(before.cursor + passed, len as int);
                        lemma_cursor_ahead(before.cursor + passed, 1);
                    }
                    BufferWrite::after_advance(value, cursor, self.mask)
                },
                BufferWrite::Attempt { index, value } => {
                    let result = self.ringbuffer[index].try_write(value);
                    let ghost item = self.ringbuffer@[index as int]@;
                    assert(self@.items =~= before.items.update(index as int, item));
                    assert(result is Err ==> self@.items =~= before.items);
                    assert(result is Err ==> self.ringbuffer@ =~= start);
                    assert(self.ringbuffer@ =~= start.update(
                        index as int,
                        self.ringbuffer@[index as int],
                    ));
                    proof {
                        lemma_skipped(before);
                        if result is Err {
                            passed = passed + 1;
                        }
                    }
                    BufferWrite::after_attempt(result)
                },
                BufferWrite::Done => {
                    proof {
                        lemma_skipped(before);
                        law_cursors(before.cursor + passed + 1, 0, 0);
                        let at = (old(self).write_index + passed) % len as int;
                        assert(start[(old(self).write_index + passed) % len as int].seq % 2 == 0);
                        law_item_fields(start[at]);
                        law_item_fields(self.ringbuffer@[at]);
                        law_item_written(before.items[at], value);
                        assert(self@.items[at] == self.ringbuffer@[at]@);
                        assert forall|i: int| 0 <= i < passed implies {
                            ||| (#[trigger] start[(old(self).write_index + i) % len as int]).seq % 2
                                == 1
                            ||| start[(old(self).write_index + i) % len as int].readers != 0
                        } by {
                            assert(!before.items[before.slot(before.cursor + i)].admits());
                            lemma_mod_bound(before.cursor + i, len as int);
                        }
                    }
                    return;
                },
            };
        }
    }

    /// Reads the latest value. There has to be one, and no writer inside its slot: otherwise the read
    /// would wait for ever.
    pub fn read(&self) -> (value: T)
        requires
            self.wf(),
            readable(self@.latest().seq),
        ensures
            strictly_cloned(self@.latest().value->0, value),
            ({
                let item = self.ringbuffer@[(self.write_index - 1) % (
                self.ringbuffer@.len() as int)];
                item.value is Some && strictly_cloned(item.value->0@, value)
            }),
    {
        proof {
            lemma_len_divides_cursor_count(self.ringbuffer@.len() as int);
            lemma_mod_bound(self.write_index - 1, self.ringbuffer@.len() as int);
        }
        let mut op: BufferRead<T> = BufferRead::Load;
        loop
            invariant
                self.wf(),
                readable(self@.latest().seq),
                match op {
                    BufferRead::Load => true,
                    BufferRead::Attempt { index } => index == self@.slot(self.write_index - 1),
                    BufferRead::Done { value } => {
                        strictly_cloned(self@.latest().value->0, value)
                    },
                },
            decreases
                (match op {
                    BufferRead::Load => 2int,
                    BufferRead::Attempt { .. } => 1,
                    BufferRead::Done { .. } => 0,
                }),
        {
            op = match op {
                BufferRead::Load => BufferRead::after_load(self.write_index, self.mask),
                BufferRead::Attempt { index } => {
                    BufferRead::after_attempt(self.ringbuffer[index].try_read())
                },
                BufferRead::Done { value } => {
                    return value;
                },
            };
        }
    }
}

/// With room for a writer, a write comes to a free slot before it has gone all the way round.
proof fn lemma_skipped<T: Clone>(ring: Ring<T>)
    requires
        ring.wf(),
        ring.has_room(),
    ensures
        ring.skipped() < ring.items.len(),
        forall|i: int|
            0 <= i < ring.skipped() ==> !ring.items[#[trigger] ring.slot(
                ring.cursor + i,
            )].admits(),
        0 <= ring.target() < ring.items.len(),
        ring.items[ring.target()].admits(),
{
    let from = ring.cursor as int;
    lemma_passed_over(ring.taken(), from);
    assert forall|i: int| 0 <= i < ring.skipped() implies !ring.items[#[trigger] ring.slot(
        from + i,
    )].admits() by {
        assert(ring.taken()[ring.slot(from + i)]);
        lemma_mod_bound(from + i, ring.items.len() as int);
    }
}

/// A write keeps the ring in order, with as many slots as before, and leaves room for the next.
/// It passes over no slot if nobody is inside any.
pub proof fn law_write_keeps_order<T: Clone>(ring: Ring<T>, value: T)
    requires
        ring.wf(),
        ring.has_room(),
    ensures
        ring.written(value).wf(),
        ring.written(value).items.len() == ring.items.len(),
        ring.written(value).has_room(),
        ring.quiescent() ==> ring.written(value).quiescent() && ring.skipped() == 0,
{
    lemma_skipped(ring);
    let next = ring.written(value);
    let target = ring.target();
    assert(!next.taken()[target]);
    if ring.quiescent() {
        lemma_len_divides_cursor_count(ring.items.len() as int);
        lemma_mod_bound(ring.cursor as int, ring.items.len() as int);
    }
}

/// A read right after a write finds the value that was written.
pub proof fn law_read_after_write<T: Clone>(ring: Ring<T>, value: T)
    requires
        ring.wf(),
        ring.has_room(),
    ensures
        readable(ring.written(value).latest().seq),
        ring.written(value).latest().value == Some(value),
{
    lemma_skipped(ring);
    lemma_cursor_slot_ahead(ring.cursor + ring.skipped() + 1, -1, ring.items.len() as int);
}

/// The latest values written stay in place, one to a slot, as many as there are slots.
pub proof fn law_latest_writes_stay<T: Clone>(ring: Ring<T>, values: Seq<T>, age: int)
    requires
        ring.wf(),
        ring.quiescent(),
        0 <= age < values.len(),
        age < ring.items.len(),
    ensures
        ({
            let after = ring.written_all(values);
            let item = after.items[after.slot(after.cursor - 1 - age)];
            readable(item.seq) && item.value == Some(values[values.len() - 1 - age])
        }),
    decreases values.len(),
{
    lemma_written_all(ring, values.drop_last());
    let before = ring.written_all(values.drop_last());
    let after = ring.written_all(values);
    let len = ring.items.len() as int;
    lemma_skipped(before);
    lemma_cursor_slot_ahead(before.cursor + before.skipped() + 1, -1 - age, len);
    law_write_keeps_order(before, values.last());
    if age > 0 {
        law_latest_writes_stay(ring, values.drop_last(), age - 1);
        lemma_slots_differ(before.cursor - age, before.cursor as int, len);
    }
}

proof fn lemma_written_all<T: Clone>(ring: Ring<T>, values: Seq<T>)
    requires
        ring.wf(),
        ring.quiescent(),
    ensures
        ring.written_all(values).wf(),
        ring.written_all(values).quiescent(),
        ring.written_all(values).has_room(),
        ring.written_all(values).items.len() == ring.items.len(),
    decreases values.len(),
{
    lemma_len_divides_cursor_count(ring.items.len() as int);
    if values.len() == 0 {
        assert(!ring.taken()[0]);
    } else {
        lemma_written_all(ring, values.drop_last());
        law_write_keeps_order(ring.written_all(values.drop_last()), values.last());
    }
}

/// What a buffer stands for is what its fields hold.
pub proof fn law_buffer_fields<T: Clone>(buffer: BufferedAtomic<T>, i: int)
    ensures
        buffer@.cursor == buffer.write_index,
        buffer@.items.len() == buffer.ringbuffer@.len(),
        0 <= i < buffer.ringbuffer@.len() ==> buffer@.items[i] == buffer.ringbuffer@[i]@,
        buffer.wf() <==> buffer@.wf() && buffer.mask + 1 == buffer.ringbuffer@.len(),
{
}

/// A ring is in order exactly if it has a power of two of slots, each in order. It has room exactly
/// if nobody is inside some slot, and is quiescent exactly if nobody is inside any.
pub proof fn law_ring_in_order<T: Clone>(ring: Ring<T>)
    ensures
        ring.wf() <==> {
            &&& is_pow2(ring.items.len() as int)
            &&& ring.items.len() <= usize::MAX
            &&& forall|i: int| 0 <= i < ring.items.len() ==> (#[trigger] ring.items[i]).wf()
        },
        ring.has_room() <==> exists|i: int|
            {
                &&& 0 <= i < ring.items.len()
                &&& (#[trigger] ring.items[i]).seq % 2 == 0
                &&& ring.items[i].readers == 0
            },
        ring.quiescent() <==> forall|i: int|
            0 <= i < ring.items.len() ==> (#[trigger] ring.items[i]).seq % 2 == 0
                && ring.items[i].readers == 0,
{
    if ring.has_room() {
        let i = choose|i: int| 0 <= i < ring.taken().len() && !#[trigger] ring.taken()[i];
        assert(ring.items[i].seq % 2 == 0);
    }
    if exists|i: int|
        {
            &&& 0 <= i < ring.items.len()
            &&& (#[trigger] ring.items[i]).seq % 2 == 0
            &&& ring.items[i].readers == 0
        } {
        let i = choose|i: int|
            {
                &&& 0 <= i < ring.items.len()
                &&& (#[trigger] ring.items[i]).seq % 2 == 0
                &&& ring.items[i].readers == 0
            };
        assert(!ring.taken()[i]);
    }
    if ring.quiescent() {
        assert forall|i: int| 0 <= i < ring.items.len() implies (#[trigger] ring.items[i]).seq % 2
            == 0 && ring.items[i].readers == 0 by {
            assert(ring.items[i].admits());
        }
    }
}

/// A read looks at the slot before the cursor.
pub proof fn law_latest_slot<T: Clone>(ring: Ring<T>, n: int)
    ensures
        ring.slot(n) == n % (ring.items.len() as int),
        ring.latest() == ring.items[(ring.cursor - 1) % (ring.items.len() as int)],
{
}

/// A write changes one slot and no other: the first one from the cursor on that nobody is inside. The
/// value is in place there, and the cursor is one past it.
pub proof fn law_write_takes_next_free_slot<T: Clone>(ring: Ring<T>, value: T)
    requires
        ring.wf(),
        ring.has_room(),
    ensures
        ring.written(value).items.len() == ring.items.len(),
        ({
            let len = ring.items.len() as int;
            let after = ring.written(value);
            exists|passed: int| {
                let at = (ring.cursor + passed) % len;
                &&& 0 <= passed < len
                &&& (#[trigger] ring.items[(ring.cursor + passed) % len]).seq % 2 == 0
                &&& ring.items[at].readers == 0
                &&& forall|i: int|
                    0 <= i < passed ==> {
                        ||| (#[trigger] ring.items[(ring.cursor + i) % len]).seq % 2 == 1
                        ||| ring.items[(ring.cursor + i) % len].readers != 0
                    }
                &&& after.items[at].value == Some(value)
                &&& after.items[at].seq == if ring.items[at].seq == usize::MAX - 1 {
                    2
                } else {
                    ring.items[at].seq + 2
                }
                &&& after.items[at].readers == 0
                &&& after.items[at].drop_count == if ring.items[at].seq == 0 {
                    ring.items[at].drop_count
                } else {
                    ring.items[at].drop_count.wrapping_add(1)
                }
                &&& forall|i: int|
                    0 <= i < len && i != at ==> #[trigger] after.items[i] == ring.items[i]
                &&& after.cursor == (ring.cursor + passed + 1) % (usize::MAX + 1)
            }
        }),
{
    let len = ring.items.len() as int;
    let passed = ring.skipped() as int;
    lemma_skipped(ring);
    law_cursors(ring.cursor + passed + 1, 0, 0);
    law_item_written(ring.items[ring.target()], value);
    assert(ring.items[(ring.cursor + passed) % len].seq % 2 == 0);
    assert forall|i: int| 0 <= i < passed implies {
        ||| (#[trigger] ring.items[(ring.cursor + i) % len]).seq % 2 == 1
        ||| ring.items[(ring.cursor + i) % len].readers != 0
    } by {
        assert(!ring.items[ring.slot(ring.cursor + i)].admits());
    }
}

/// While nobody is inside any slot, a write goes to the slot of the cursor, leaves every other slot as
/// it was, and moves the cursor on by one.
pub proof fn law_write_at_rest<T: Clone>(ring: Ring<T>, value: T)
    requires
        ring.wf(),
        forall|i: int|
            0 <= i < ring.items.len() ==> (#[trigger] ring.items[i]).seq % 2 == 0
                && ring.items[i].readers == 0,
    ensures
        ({
            let len = ring.items.len() as int;
            let at = ring.cursor as int % len;
            let after = ring.written(value);
            &&& 0 <= at < len
            &&& after.items.len() == len
            &&& after.items[at].value == Some(value)
            &&& after.items[at].seq > 0
            &&& forall|i: int| 0 <= i < len && i != at ==> #[trigger] after.items[i] == ring.items[i]
            &&& after.cursor == (ring.cursor + 1) % (usize::MAX + 1)
            &&& forall|i: int|
                0 <= i < len ==> (#[trigger] after.items[i]).seq % 2 == 0 && after.items[i].readers
                    == 0
        }),
{
    lemma_len_divides_cursor_count(ring.items.len() as int);
    law_ring_in_order(ring);
    assert(ring.items[0].seq % 2 == 0);
    law_write_keeps_order(ring, value);
    law_ring_in_order(ring.written(value));
    law_cursors(ring.cursor + 1, 0, 0);
    lemma_skipped(ring);
    law_item_written(ring.items[ring.target()], value);
}

/// Writes in a row to a ring that nobody is inside go to one slot after the other, all the way round:
/// the cursor moves on by one for each, each of the latest writes is in the slot of its own cursor, as
/// many as there are slots, and a slot that no write has come to is as it was.
pub proof fn law_writes_go_round<T: Clone>(ring: Ring<T>, values: Seq<T>, i: int)
    requires
        ring.wf(),
        forall|k: int|
            0 <= k < ring.items.len() ==> (#[trigger] ring.items[k]).seq % 2 == 0
                && ring.items[k].readers == 0,
        0 <= i,
        values.len() - ring.items.len() <= i,
        i < values.len() || i < ring.items.len(),
    ensures
        ({
            let len = ring.items.len() as int;
            let after = ring.written_all(values);
            let at = (ring.cursor + i) % len;
            &&& after.items.len() == len
            &&& after.cursor == (ring.cursor + values.len()) % (usize::MAX + 1)
            &&& i < values.len() ==> {
                &&& after.items[at].value == Some(values[i])
                &&& after.items[at].seq > 0
                &&& after.items[at].seq % 2 == 0
            }
            &&& i >= values.len() ==> after.items[at] == ring.items[at]
        }),
    decreases values.len(),
{
    let len = ring.items.len() as int;
    let n = values.len() as int;
    lemma_len_divides_cursor_count(len);
    law_cursors(ring.cursor + n, 0, 0);
    law_cursors(ring.cursor + n - 1, 0, 0);
    lemma_mod_bound(ring.cursor + i, len);
    if n == 0 {
        lemma_cursor_itself(ring.cursor);
    } else {
        let values0 = values.drop_last();
        let before = ring.written_all(values0);
        law_ring_in_order(ring);
        lemma_written_all(ring, values0);
        law_ring_in_order(before);
        law_write_at_rest(before, values.last());
        if i == n - 1 {
            law_writes_go_round(ring, values0, if n - 1 < len { n - 1 } else { n - 2 });
        } else {
            law_writes_go_round(ring, values0, i);
            if i < n {
                lemma_slots_differ(ring.cursor + i, ring.cursor + n - 1, len);
            } else {
                lemma_slots_differ(ring.cursor + n - 1, ring.cursor + i, len);
            }
        }
        assert(before.cursor == cursor_at(ring.cursor + n - 1));
        lemma_cursor_slot(ring.cursor + n - 1, len);
        lemma_cursor_ahead(ring.cursor + n - 1, 1);
        law_cursors(before.cursor + 1, 0, 0);
    }
}

/// Writing some values and then another is writing the values one after the other.
pub proof fn law_one_write_more<T: Clone>(ring: Ring<T>, values: Seq<T>, value: T)
    ensures
        ring.written_all(Seq::empty()) == ring,
        ring.written_all(values.push(value)) == ring.written_all(values).written(value),
{
    assert(values.push(value).drop_last() =~= values);
}

} // verus!
