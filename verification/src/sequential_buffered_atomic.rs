//! A bounded queue on a ring of [`AtomicItem`]s.
//!
//! Values come out in the order in which they went in, and none is lost. A writer that is a whole
//! ring ahead of the readers is refused.
//!
//! A writer claims the position of its write before it touches the slot, and moves the write cursor
//! on when the value is in place. A reader takes a copy of the value and keeps it only if it is the
//! one that moves the read cursor on.
use vstd::arithmetic::div_mod::*;
use vstd::arithmetic::power2::*;
use vstd::pervasive::*;
use vstd::prelude::*;

use crate::atomic_item::law_item_fields;
use crate::atomic_item::law_item_numbers;
use crate::atomic_item::law_item_written;
use crate::atomic_item::readable;
use crate::atomic_item::AtomicItem;
use crate::atomic_item::ItemState;
use crate::index::cursor_at;
use crate::index::distance;
use crate::index::law_cursors;
use crate::index::lemma_cursor_ahead;
use crate::index::lemma_cursor_itself;
use crate::index::lemma_cursor_slot;
use crate::index::lemma_cursor_slot_ahead;
use crate::index::lemma_distance;
use crate::index::lemma_distance_of;
use crate::index::lemma_len_divides_cursor_count;
use crate::index::lemma_next_cursor;
use crate::index::lemma_slots_differ;
use crate::index::slot_index;
use crate::queue_laws::after_call;
use crate::queue_laws::Call;

verus! {

/// What a [`BufferedAtomicSeq`] stands for: its slots and its cursors.
pub struct QueueRing<T> where T: Clone {
    pub items: Seq<ItemState<T>>,
    pub write_claim: usize,
    pub write_cursor: usize,
    pub read_cursor: usize,
}

impl<T> QueueRing<T> where T: Clone {
    /// How many values are waiting to be read.
    pub open spec fn count(self) -> int {
        distance(self.read_cursor, self.write_cursor)
    }

    /// The slot at a position of the unbounded count.
    pub open spec fn slot(self, n: int) -> int {
        n % (self.items.len() as int)
    }

    /// The slot that the next write goes to.
    pub open spec fn write_slot(self) -> ItemState<T> {
        self.items[self.slot(self.write_cursor as int)]
    }

    /// The values waiting to be read, first in first.
    pub open spec fn pending(self) -> Seq<T> {
        Seq::new(
            self.count() as nat,
            |i: int| self.items[self.slot(self.read_cursor + i)].value->0,
        )
    }

    /// A power of two of slots in order, no more values waiting than there are slots, each waiting
    /// value in place, and no position claimed that is not written.
    pub open spec fn wf(self) -> bool {
        &&& is_pow2(self.items.len() as int)
        &&& self.items.len() <= usize::MAX
        &&& self.count() <= self.items.len()
        &&& self.write_claim == self.write_cursor
        &&& forall|i: int| 0 <= i < self.items.len() ==> (#[trigger] self.items[i]).wf()
        &&& forall|i: int|
            0 <= i < self.count() ==> readable(
                self.items[#[trigger] self.slot(self.read_cursor + i)].seq,
            )
    }

    /// The next write is accepted: there is a slot to spare, and nobody is inside it.
    pub open spec fn accepts(self) -> bool {
        self.count() < self.items.len() && self.write_slot().admits()
    }

    /// The ring after `value` has been accepted.
    pub open spec fn written(self, value: T) -> Self {
        QueueRing {
            items: self.items.update(
                self.slot(self.write_cursor as int),
                self.write_slot().written(value),
            ),
            write_claim: cursor_at(self.write_cursor + 1),
            write_cursor: cursor_at(self.write_cursor + 1),
            read_cursor: self.read_cursor,
        }
    }

    /// The ring after the first waiting value has been read.
    pub open spec fn taken(self) -> Self {
        QueueRing { read_cursor: cursor_at(self.read_cursor + 1), ..self }
    }
}

/// A ring of slots that is written and read in order.
pub struct BufferedAtomicSeq<T> where T: Clone {
    pub ringbuffer: Vec<AtomicItem<T>>,
    /// The cursor of the next position that no writer has claimed: ahead of the write cursor while a
    /// writer is at work, and the same as the write cursor otherwise.
    pub write_claim: usize,
    /// The cursor of the next write.
    pub write_cursor: usize,
    /// The cursor of the next read.
    pub read_cursor: usize,
    /// Mask used to turn a cursor into a slot.
    pub mask: usize,
}

/// A write to a [`BufferedAtomicSeq`], by the step that comes next.
pub enum SeqWrite<T> {
    /// Load the write cursor.
    LoadWrite { value: T },
    /// Load the read cursor, then go on with [`SeqWrite::after_cursors`].
    LoadRead { value: T, write_pos: usize },
    /// Exchange the claim cursor for `cursor` if it is `write_pos`, then go on with
    /// [`SeqWrite::after_claim`].
    Claim { value: T, write_pos: usize, index: usize, cursor: usize },
    /// Try to write to slot `index`, then go on with [`SeqWrite::after_attempt`].
    Attempt { value: T, write_pos: usize, index: usize },
    /// Store `cursor` as the write cursor; the write is then done.
    Publish { cursor: usize },
    /// Store `write_pos` as the claim cursor again; the write is then refused.
    Release { write_pos: usize },
    /// The write is over.
    Done { result: Result<(), ()> },
}

/// A read of a [`BufferedAtomicSeq`], by the step that comes next.
pub enum SeqRead<T> {
    /// Load the read cursor.
    LoadRead,
    /// Load the write cursor, then go on with [`SeqRead::after_cursors`].
    LoadWrite { read_pos: usize },
    /// Try to read slot `index`, then go on with [`SeqRead::after_attempt`].
    Attempt { read_pos: usize, index: usize },
    /// Exchange the read cursor for `cursor` if it is still `read_pos`, then go on with
    /// [`SeqRead::after_claim`].
    Claim { read_pos: usize, cursor: usize, value: T },
    /// The read is over.
    Done { result: Option<T> },
}

impl<T> SeqWrite<T> {
    /// What follows when the cursors were `write_pos` and `read_pos` on a ring of `len` slots.
    pub open spec fn checked(value: T, write_pos: usize, read_pos: usize, len: int) -> Self {
        if distance(read_pos, write_pos) == len {
            SeqWrite::Done { result: Err(()) }
        } else {
            SeqWrite::Claim {
                value,
                write_pos,
                index: (write_pos as int % len) as usize,
                cursor: cursor_at(write_pos + 1),
            }
        }
    }

    /// What follows when the position was claimed, or another writer is at work.
    pub open spec fn claimed(value: T, write_pos: usize, index: usize, won: bool) -> Self {
        if won {
            SeqWrite::Attempt { value, write_pos, index }
        } else {
            SeqWrite::Done { result: Err(()) }
        }
    }

    /// What follows when the slot has taken the value, or has not.
    pub open spec fn attempted(write_pos: usize, result: Result<(), T>) -> Self {
        match result {
            Ok(()) => SeqWrite::Publish { cursor: cursor_at(write_pos + 1) },
            Err(_) => SeqWrite::Release { write_pos },
        }
    }

    /// Refuses the value if the next write would overwrite one that is waiting to be read.
    pub fn after_cursors(value: T, write_pos: usize, read_pos: usize, mask: usize) -> (op: Self)
        requires
            is_pow2(mask + 1),
            mask < usize::MAX,
        ensures
            op == Self::checked(value, write_pos, read_pos, mask + 1),
            (write_pos - read_pos) % (usize::MAX + 1) == mask + 1 ==> op == (SeqWrite::<T>::Done {
                result: Err(()),
            }),
            (write_pos - read_pos) % (usize::MAX + 1) != mask + 1 ==> op == (SeqWrite::Claim {
                value,
                write_pos,
                index: (write_pos as int % (mask + 1)) as usize,
                cursor: write_pos.wrapping_add(1),
            }),
    {
        proof {
            lemma_distance(read_pos, write_pos);
            lemma_next_cursor(write_pos);
            law_cursors(0, read_pos, write_pos);
        }
        let size: usize = mask + 1;
        if write_pos.wrapping_sub(read_pos) == size {
            return SeqWrite::Done { result: Err(()) };
        }
        SeqWrite::Claim {
            value,
            write_pos,
            index: slot_index(write_pos, mask),
            cursor: write_pos.wrapping_add(1),
        }
    }

    /// Refuses the value if another writer is at work.
    pub fn after_claim(value: T, write_pos: usize, index: usize, won: bool) -> (op: Self)
        ensures
            op == Self::claimed(value, write_pos, index, won),
            won ==> op == (SeqWrite::Attempt { value, write_pos, index }),
            !won ==> op == (SeqWrite::<T>::Done { result: Err(()) }),
    {
        if !won {
            return SeqWrite::Done { result: Err(()) };
        }
        SeqWrite::Attempt { value, write_pos, index }
    }

    /// Gives the position back if somebody is inside the slot.
    pub fn after_attempt(write_pos: usize, result: Result<(), T>) -> (op: Self)
        ensures
            op == Self::attempted(write_pos, result),
            result is Ok ==> op == (SeqWrite::<T>::Publish { cursor: write_pos.wrapping_add(1) }),
            result is Err ==> op == (SeqWrite::<T>::Release { write_pos }),
    {
        proof {
            lemma_next_cursor(write_pos);
        }
        if result.is_err() {
            return SeqWrite::Release { write_pos };
        }
        SeqWrite::Publish { cursor: write_pos.wrapping_add(1) }
    }
}

impl<T> SeqRead<T> {
    /// What follows when the cursors were `read_pos` and `write_pos` on a ring of `len` slots.
    pub open spec fn checked(read_pos: usize, write_pos: usize, len: int) -> Self {
        if read_pos == write_pos {
            SeqRead::Done { result: None }
        } else {
            SeqRead::Attempt { read_pos, index: (read_pos as int % len) as usize }
        }
    }

    /// What follows when there was a value in the slot, or was none.
    pub open spec fn attempted(read_pos: usize, result: Option<T>) -> Self {
        match result {
            Some(value) => SeqRead::Claim { read_pos, cursor: cursor_at(read_pos + 1), value },
            None => SeqRead::Done { result: None },
        }
    }

    /// What follows when the read cursor was moved on, or another reader had done so.
    pub open spec fn claimed(value: T, won: bool) -> Self {
        if won {
            SeqRead::Done { result: Some(value) }
        } else {
            SeqRead::LoadRead
        }
    }

    /// Finds nothing to read if the cursors are the same.
    pub fn after_cursors(read_pos: usize, write_pos: usize, mask: usize) -> (op: Self)
        requires
            is_pow2(mask + 1),
            mask < usize::MAX,
        ensures
            op == Self::checked(read_pos, write_pos, mask + 1),
            read_pos == write_pos ==> op == (SeqRead::<T>::Done { result: None }),
            read_pos != write_pos ==> op == (SeqRead::<T>::Attempt {
                read_pos,
                index: (read_pos as int % (mask + 1)) as usize,
            }),
    {
        if read_pos == write_pos {
            return SeqRead::Done { result: None };
        }
        SeqRead::Attempt { read_pos, index: slot_index(read_pos, mask) }
    }

    /// Moves on if the slot could be read.
    pub fn after_attempt(read_pos: usize, result: Option<T>) -> (op: Self)
        ensures
            op == Self::attempted(read_pos, result),
            result is Some ==> op == (SeqRead::Claim {
                read_pos,
                cursor: read_pos.wrapping_add(1),
                value: result->0,
            }),
            result is None ==> op == (SeqRead::<T>::Done { result: None }),
    {
        proof {
            lemma_next_cursor(read_pos);
        }
        match result {
            Some(value) => SeqRead::Claim { read_pos, cursor: read_pos.wrapping_add(1), value },
            None => SeqRead::Done { result: None },
        }
    }

    /// Begins again if another reader has taken the value.
    pub fn after_claim(value: T, won: bool) -> (op: Self)
        ensures
            op == Self::claimed(value, won),
            won ==> op == (SeqRead::Done { result: Some(value) }),
            !won ==> op == SeqRead::<T>::LoadRead,
    {
        if !won {
            return SeqRead::LoadRead;
        }
        SeqRead::Done { result: Some(value) }
    }
}

impl<T> View for BufferedAtomicSeq<T> where T: Clone {
    type V = QueueRing<T>;

    open spec fn view(&self) -> QueueRing<T> {
        QueueRing {
            items: self.ringbuffer@.map_values(|item: AtomicItem<T>| item@),
            write_claim: self.write_claim,
            write_cursor: self.write_cursor,
            read_cursor: self.read_cursor,
        }
    }
}

impl<T> BufferedAtomicSeq<T> where T: Clone {
    /// The queue is in order and the mask fits its slots.
    pub open spec fn wf(self) -> bool {
        &&& self@.wf()
        &&& self.mask + 1 == self.ringbuffer@.len()
    }

    /// Creates an empty queue of `size` slots.
    ///
    /// `size` has to be a power of two.
    pub fn new(size: usize) -> (buffer: Self)
        requires
            is_pow2(size as int),
        ensures
            buffer.wf(),
            buffer@.write_claim == 0,
            buffer@.write_cursor == 0,
            buffer@.read_cursor == 0,
            buffer@.pending() == Seq::<T>::empty(),
            buffer@.items == Seq::new(size as nat, |i: int| ItemState::<T>::fresh()),
            buffer.ringbuffer@.len() == size,
            buffer.write_claim == 0,
            buffer.write_cursor == 0,
            buffer.read_cursor == 0,
            buffer.mask == size - 1,
            forall|i: int|
                0 <= i < size ==> {
                    &&& (#[trigger] buffer.ringbuffer@[i]).value is None
                    &&& buffer.ringbuffer@[i].seq == 0
                    &&& buffer.ringbuffer@[i].readers == 0
                    &&& buffer.ringbuffer@[i].drop_count == 0
                },
    {
        proof {
            lemma_len_divides_cursor_count(size as int);
            lemma_distance_of(0, 0);
            lemma_cursor_itself(0);
        }
        let mut ringbuffer: Vec<AtomicItem<T>> = Vec::new();
        let mut made: usize = 0;
        while made < size
            invariant
                made <= size,
                ringbuffer@.len() == made,
                forall|i: int|
                    0 <= i < made ==> {
                        &&& (#[trigger] ringbuffer@[i])@ == ItemState::<T>::fresh()
                        &&& ringbuffer@[i].value is None
                        &&& ringbuffer@[i].seq == 0
                        &&& ringbuffer@[i].readers == 0
                        &&& ringbuffer@[i].drop_count == 0
                    },
            decreases size - made,
        {
            ringbuffer.push(AtomicItem::new());
            made = made + 1;
        }
        BufferedAtomicSeq {
            ringbuffer,
            write_claim: 0,
            write_cursor: 0,
            read_cursor: 0,
            mask: size - 1,
        }
    }

    /// The step that exchanges the claim cursor for `cursor` if it is `write_pos`, and says whether it
    /// was.
    pub fn exchange_claim(&mut self, write_pos: usize, cursor: usize) -> (won: bool)
        ensures
            won == (old(self).write_claim == write_pos),
            final(self)@ == (QueueRing {
                write_claim: if won {
                    cursor
                } else {
                    old(self).write_claim
                },
                ..old(self)@
            }),
            final(self).mask == old(self).mask,
            *final(self) == (BufferedAtomicSeq {
                write_claim: if old(self).write_claim == write_pos {
                    cursor
                } else {
                    old(self).write_claim
                },
                ..*old(self)
            }),
    {
        if self.write_claim == write_pos {
            self.write_claim = cursor;
            true
        } else {
            false
        }
    }

    /// The step that exchanges the read cursor for `cursor` if it is `read_pos`, and says whether it
    /// was.
    pub fn exchange_read(&mut self, read_pos: usize, cursor: usize) -> (won: bool)
        ensures
            won == (old(self).read_cursor == read_pos),
            final(self)@ == (QueueRing {
                read_cursor: if won {
                    cursor
                } else {
                    old(self).read_cursor
                },
                ..old(self)@
            }),
            final(self).mask == old(self).mask,
            *final(self) == (BufferedAtomicSeq {
                read_cursor: if old(self).read_cursor == read_pos {
                    cursor
                } else {
                    old(self).read_cursor
                },
                ..*old(self)
            }),
    {
        if self.read_cursor == read_pos {
            self.read_cursor = cursor;
            true
        } else {
            false
        }
    }

    /// Adds the value to the queue. Refuses it if the queue is full, or if somebody is inside the
    /// slot.
    pub fn write(&mut self, value: T) -> (result: Result<(), ()>)
        requires
            old(self).wf(),
        ensures
            final(self).wf(),
            result is Ok <==> old(self)@.accepts(),
            final(self)@ == (if old(self)@.accepts() {
                old(self)@.written(value)
            } else {
                old(self)@
            }),
            final(self)@.pending() == (if old(self)@.accepts() {
                old(self)@.pending().push(value)
            } else {
                old(self)@.pending()
            }),
            ({
                let items = old(self).ringbuffer@;
                let len = items.len() as int;
                let at = old(self).write_cursor as int % len;
                // There is a slot to spare, and nobody is inside it.
                result is Ok <==> {
                    &&& (old(self).write_cursor - old(self).read_cursor) % (usize::MAX + 1) < len
                    &&& items[at].seq % 2 == 0
                    &&& items[at].readers == 0
                }
            }),
            result is Ok ==> {
                let items = old(self).ringbuffer@;
                let after = final(self).ringbuffer@;
                let at = old(self).write_cursor as int % (items.len() as int);
                &&& 0 <= at < items.len()
                &&& after[at].value is Some
                &&& after[at].value->0@ == value
                &&& after[at].seq == if items[at].seq == usize::MAX - 1 {
                    2
                } else {
                    items[at].seq + 2
                }
                &&& after[at].readers == 0
                &&& after[at].drop_count == if items[at].seq == 0 {
                    items[at].drop_count
                } else {
                    items[at].drop_count.wrapping_add(1)
                }
                &&& forall|i: int| 0 <= i < items.len() && i != at ==> #[trigger] after[i] == items[i]
                &&& final(self).write_cursor == old(self).write_cursor.wrapping_add(1)
                &&& final(self).write_claim == final(self).write_cursor
            },
            result is Err ==> {
                &&& final(self).ringbuffer@ == old(self).ringbuffer@
                &&& final(self).write_cursor == old(self).write_cursor
                &&& final(self).write_claim == old(self).write_claim
            },
            final(self)@ == after_call(old(self)@, Call::Write { value }),
            final(self).ringbuffer@.len() == old(self).ringbuffer@.len(),
            final(self).read_cursor == old(self).read_cursor,
            final(self).mask == old(self).mask,
    {
        let ghost start = self.ringbuffer@;
        let ghost at = self.write_cursor as int % (start.len() as int);
        let ghost before = self@;
        let ghost len = before.items.len() as int;
        let mut op: SeqWrite<T> = SeqWrite::LoadWrite { value };
        proof {
            lemma_cursor_slot(0, len);
            lemma_distance(before.read_cursor, before.write_cursor);
            law_cursors(0, before.read_cursor, before.write_cursor);
            lemma_mod_bound(before.write_cursor as int, len);
            law_item_fields(start[at]);
            law_item_numbers(start[at]@);
            if before.accepts() {
                law_write_appends(before, value);
            }
        }
        loop
            invariant
                before == old(self)@,
                start == old(self).ringbuffer@,
                0 <= at < start.len() == len,
                at == before.slot(before.write_cursor as int),
                self.mask == old(self).mask,
                op is Publish || (op is Done && before.accepts())
                    ==> self.ringbuffer@ == start.update(at, self.ringbuffer@[at]),
                op is Publish || (op is Done && before.accepts()) || self.ringbuffer@ == start,
                before.wf(),
                len == before.items.len(),
                len > 0,
                self.ringbuffer@.len() == len,
                self.mask + 1 == len,
                before.accepts() ==> before.written(value).wf() && before.written(value).pending()
                    == before.pending().push(value),
                match op {
                    SeqWrite::LoadWrite { value: v } => v == value && self@ == before,
                    SeqWrite::LoadRead { value: v, write_pos } => {
                        v == value && self@ == before && write_pos == before.write_cursor
                    },
                    SeqWrite::Claim { value: v, write_pos, index, cursor } => {
                        &&& v == value
                        &&& self@ == before
                        &&& write_pos == before.write_cursor
                        &&& index == before.slot(write_pos as int)
                        &&& cursor == cursor_at(write_pos + 1)
                        &&& before.count() < len
                    },
                    SeqWrite::Attempt { value: v, write_pos, index } => {
                        &&& v == value
                        &&& self@ == (QueueRing {
                            write_claim: before.written(value).write_claim,
                            ..before
                        })
                        &&& write_pos == before.write_cursor
                        &&& index == before.slot(write_pos as int)
                        &&& before.count() < len
                    },
                    SeqWrite::Publish { cursor } => {
                        &&& before.accepts()
                        &&& cursor == before.written(value).write_cursor
                        &&& self@ == (QueueRing {
                            write_cursor: before.write_cursor,
                            ..before.written(value)
                        })
                    },
                    SeqWrite::Release { write_pos } => {
                        &&& !before.accepts()
                        &&& write_pos == before.write_cursor
                        &&& self@ == (QueueRing {
                            write_claim: before.written(value).write_claim,
                            ..before
                        })
                    },
                    SeqWrite::Done { result } => {
                        &&& result is Ok <==> before.accepts()
                        &&& self@ == (if before.accepts() {
                            before.written(value)
                        } else {
                            before
                        })
                    },
                },
            decreases
                (match op {
                    SeqWrite::LoadWrite { .. } => 5int,
                    SeqWrite::LoadRead { .. } => 4,
                    SeqWrite::Claim { .. } => 3,
                    SeqWrite::Attempt { .. } => 2,
                    SeqWrite::Publish { .. } => 1,
                    SeqWrite::Release { .. } => 1,
                    SeqWrite::Done { .. } => 0,
                }),
        {
            op = match op {
                SeqWrite::LoadWrite { value } => {
                    SeqWrite::LoadRead { value, write_pos: self.write_cursor }
                },
                SeqWrite::LoadRead { value, write_pos } => {
                    proof {
                        lemma_mod_bound(write_pos as int, len);
                    }
                    SeqWrite::after_cursors(value, write_pos, self.read_cursor, self.mask)
                },
                SeqWrite::Claim { value, write_pos, index, cursor } => {
                    let won = self.exchange_claim(write_pos, cursor);
                    SeqWrite::after_claim(value, write_pos, index, won)
                },
                SeqWrite::Attempt { value, write_pos, index } => {
                    let attempt = self.ringbuffer[index].try_write(value);
                    let ghost item = self.ringbuffer@[index as int]@;
                    assert(self@.items =~= before.items.update(index as int, item));
                    assert(attempt is Err ==> self@.items =~= before.items);
                    assert(attempt is Err ==> self.ringbuffer@ =~= start);
                    assert(self.ringbuffer@ =~= start.update(at, self.ringbuffer@[at]));
                    SeqWrite::after_attempt(write_pos, attempt)
                },
                SeqWrite::Publish { cursor } => {
                    self.write_cursor = cursor;
                    SeqWrite::Done { result: Ok(()) }
                },
                SeqWrite::Release { write_pos } => {
                    self.write_claim = write_pos;
                    SeqWrite::Done { result: Err(()) }
                },
                SeqWrite::Done { result } => {
                    proof {
                        law_item_fields(start[at]);
                        law_item_fields(self.ringbuffer@[at]);
                        lemma_next_cursor(before.write_cursor);
                        assert(self@.items[at] == self.ringbuffer@[at]@);
                        if before.accepts() {
                            law_item_written(before.write_slot(), value);
                        }
                    }
                    return result;
                },
            };
        }
    }

    /// Takes the first value out of the queue. Finds none if the queue is empty.
    pub fn read(&mut self) -> (result: Option<T>)
        requires
            old(self).wf(),
        ensures
            final(self).wf(),
            result is Some <==> old(self)@.count() > 0,
            result is Some ==> strictly_cloned(old(self)@.pending()[0], result->0),
            final(self)@ == (if old(self)@.count() > 0 {
                old(self)@.taken()
            } else {
                old(self)@
            }),
            final(self)@.pending() == (if old(self)@.count() > 0 {
                old(self)@.pending().drop_first()
            } else {
                old(self)@.pending()
            }),
            final(self)@ == after_call(old(self)@, Call::Read),
            result is Some <==> old(self).read_cursor != old(self).write_cursor,
            result is Some ==> {
                let items = old(self).ringbuffer@;
                let item = items[old(self).read_cursor as int % (items.len() as int)];
                item.value is Some && strictly_cloned(item.value->0@, result->0)
            },
            final(self).read_cursor == (if result is Some {
                old(self).read_cursor.wrapping_add(1)
            } else {
                old(self).read_cursor
            }),
            final(self).ringbuffer@ == old(self).ringbuffer@,
            final(self).write_claim == old(self).write_claim,
            final(self).write_cursor == old(self).write_cursor,
            final(self).mask == old(self).mask,
    {
        let ghost start = self.ringbuffer@;
        let ghost at = self.read_cursor as int % (start.len() as int);
        let ghost before = self@;
        let ghost len = before.items.len() as int;
        let mut op: SeqRead<T> = SeqRead::LoadRead;
        proof {
            lemma_cursor_slot(0, len);
            lemma_distance(before.read_cursor, before.write_cursor);
            lemma_distance_of(before.read_cursor, 0);
            lemma_cursor_itself(before.read_cursor);
            lemma_mod_bound(before.read_cursor as int, len);
            law_item_fields(start[at]);
            assert(before.count() > 0 ==> readable(
                before.items[before.slot(before.read_cursor + 0)].seq,
            ));
            assert(before.items[at].wf());
            if before.count() > 0 {
                law_read_takes_first(before);
            }
        }
        loop
            invariant
                before == old(self)@,
                self.ringbuffer@ == old(self).ringbuffer@,
                self.mask == old(self).mask,
                before.wf(),
                len == before.items.len(),
                len > 0,
                self.ringbuffer@.len() == len,
                self.mask + 1 == len,
                before.count() >= 0,
                before.count() == 0 <==> before.read_cursor == before.write_cursor,
                before.count() > 0 ==> before.taken().wf() && before.taken().pending()
                    == before.pending().drop_first(),
                match op {
                    SeqRead::LoadRead => self@ == before,
                    SeqRead::LoadWrite { read_pos } => {
                        self@ == before && read_pos == before.read_cursor
                    },
                    SeqRead::Attempt { read_pos, index } => {
                        &&& self@ == before
                        &&& read_pos == before.read_cursor
                        &&& index == before.slot(read_pos + 0)
                        &&& before.count() > 0
                    },
                    SeqRead::Claim { read_pos, cursor, value } => {
                        &&& self@ == before
                        &&& read_pos == before.read_cursor
                        &&& before.count() > 0
                        &&& cursor == before.taken().read_cursor
                        &&& strictly_cloned(before.pending()[0], value)
                    },
                    SeqRead::Done { result: Some(value) } => {
                        &&& before.count() > 0
                        &&& self@ == before.taken()
                        &&& strictly_cloned(before.pending()[0], value)
                    },
                    SeqRead::Done { result: None } => before.count() == 0 && self@ == before,
                },
            decreases
                (match op {
                    SeqRead::LoadRead => 4int,
                    SeqRead::LoadWrite { .. } => 3,
                    SeqRead::Attempt { .. } => 2,
                    SeqRead::Claim { .. } => 1,
                    SeqRead::Done { .. } => 0,
                }),
        {
            op = match op {
                SeqRead::LoadRead => SeqRead::LoadWrite { read_pos: self.read_cursor },
                SeqRead::LoadWrite { read_pos } => {
                    proof {
                        lemma_mod_bound(read_pos as int, len);
                    }
                    SeqRead::after_cursors(read_pos, self.write_cursor, self.mask)
                },
                SeqRead::Attempt { read_pos, index } => {
                    SeqRead::after_attempt(read_pos, self.ringbuffer[index].try_read())
                },
                SeqRead::Claim { read_pos, cursor, value } => {
                    let won = self.exchange_read(read_pos, cursor);
                    SeqRead::after_claim(value, won)
                },
                SeqRead::Done { result } => {
                    proof {
                        lemma_next_cursor(before.read_cursor);
                    }
                    return result;
                },
            };
        }
    }
}

/// An accepted value comes last in the queue, and the queue stays in order.
pub proof fn law_write_appends<T: Clone>(ring: QueueRing<T>, value: T)
    requires
        ring.wf(),
        ring.accepts(),
    ensures
        ring.written(value).wf(),
        ring.written(value).count() == ring.count() + 1,
        ring.written(value).pending() == ring.pending().push(value),
{
    let next = ring.written(value);
    let len = ring.items.len() as int;
    let count = ring.count();
    let first = ring.read_cursor as int;
    lemma_distance(ring.read_cursor, ring.write_cursor);
    lemma_cursor_ahead(first + count, 1);
    lemma_distance_of(ring.read_cursor, count + 1);
    lemma_cursor_slot(first + count, len);
    lemma_mod_bound(first + count, len);
    assert forall|i: int| 0 <= i < count implies next.items[#[trigger] next.slot(first + i)]
        == ring.items[ring.slot(first + i)] by {
        lemma_slots_differ(first + i, first + count, len);
        lemma_mod_bound(first + i, len);
    }
    assert forall|i: int| 0 <= i < next.count() implies readable(
        next.items[#[trigger] next.slot(next.read_cursor + i)].seq,
    ) by {
        if i < count {
            assert(readable(ring.items[ring.slot(ring.read_cursor + i)].seq));
        }
    }
    assert(next.pending() =~= ring.pending().push(value));
}

/// Reading takes the first value out of the queue, and the queue stays in order.
pub proof fn law_read_takes_first<T: Clone>(ring: QueueRing<T>)
    requires
        ring.wf(),
        ring.count() > 0,
    ensures
        ring.taken().wf(),
        ring.taken().count() == ring.count() - 1,
        ring.taken().pending() == ring.pending().drop_first(),
{
    let next = ring.taken();
    let len = ring.items.len() as int;
    let first = ring.read_cursor as int;
    lemma_distance(ring.read_cursor, ring.write_cursor);
    lemma_cursor_ahead(first + 1, ring.count() - 1);
    lemma_distance_of(next.read_cursor, ring.count() - 1);
    assert forall|i: int| 0 <= i < ring.count() - 1 implies #[trigger] next.slot(
        next.read_cursor + i,
    ) == ring.slot(first + (i + 1)) by {
        lemma_cursor_slot_ahead(first + 1, i, len);
    }
    assert(next.pending() =~= ring.pending().drop_first());
}

/// What a queue stands for is what its fields hold.
pub proof fn law_queue_fields<T: Clone>(buffer: BufferedAtomicSeq<T>, i: int)
    ensures
        buffer@.write_claim == buffer.write_claim,
        buffer@.write_cursor == buffer.write_cursor,
        buffer@.read_cursor == buffer.read_cursor,
        buffer@.items.len() == buffer.ringbuffer@.len(),
        0 <= i < buffer.ringbuffer@.len() ==> buffer@.items[i] == buffer.ringbuffer@[i]@,
        buffer.wf() <==> buffer@.wf() && buffer.mask + 1 == buffer.ringbuffer@.len(),
{
}

/// The values waiting are those between the cursors, from the read cursor on.
pub proof fn law_pending<T: Clone>(ring: QueueRing<T>, i: int)
    ensures
        ring.pending().len() == (ring.write_cursor - ring.read_cursor) % (usize::MAX + 1),
        ring.count() == ring.pending().len(),
        0 <= i < ring.pending().len() ==> ring.pending()[i] == ring.items[(ring.read_cursor + i) % (
        ring.items.len() as int)].value->0,
{
    law_cursors(0, ring.read_cursor, ring.write_cursor);
    lemma_distance(ring.read_cursor, ring.write_cursor);
}

/// A queue is in order exactly if it has a power of two of slots, each in order, no more values
/// waiting than slots, each of those in a slot that can be read, and no position claimed.
pub proof fn law_queue_in_order<T: Clone>(ring: QueueRing<T>)
    ensures
        ring.wf() <==> {
            &&& is_pow2(ring.items.len() as int)
            &&& ring.items.len() <= usize::MAX
            &&& ring.pending().len() <= ring.items.len()
            &&& ring.write_claim == ring.write_cursor
            &&& forall|i: int| 0 <= i < ring.items.len() ==> (#[trigger] ring.items[i]).wf()
            &&& forall|i: int|
                0 <= i < ring.pending().len() ==> {
                    &&& (#[trigger] ring.items[(ring.read_cursor + i) % (
                    ring.items.len() as int)]).seq % 2 == 0
                    &&& ring.items[(ring.read_cursor + i) % (ring.items.len() as int)].seq > 0
                }
        },
{
    law_pending(ring, 0);
    let len = ring.items.len() as int;
    if ring.wf() {
        assert forall|i: int| 0 <= i < ring.pending().len() implies {
            &&& (#[trigger] ring.items[(ring.read_cursor + i) % len]).seq % 2 == 0
            &&& ring.items[(ring.read_cursor + i) % len].seq > 0
        } by {
            assert(readable(ring.items[ring.slot(ring.read_cursor + i)].seq));
        }
    }
    if forall|i: int|
        0 <= i < ring.pending().len() ==> {
            &&& (#[trigger] ring.items[(ring.read_cursor + i) % len]).seq % 2 == 0
            &&& ring.items[(ring.read_cursor + i) % len].seq > 0
        } {
        assert forall|i: int| 0 <= i < ring.count() implies readable(
            ring.items[#[trigger] ring.slot(ring.read_cursor + i)].seq,
        ) by {
            assert(ring.items[(ring.read_cursor + i) % len].seq % 2 == 0);
        }
    }
}

/// While nobody is inside the slot of the next write, a write is accepted exactly if fewer values are
/// waiting than there are slots. While somebody is, none is.
pub proof fn law_refused_only_when_full<T: Clone>(ring: QueueRing<T>)
    requires
        ring.wf(),
    ensures
        ({
            let item = ring.items[ring.write_cursor as int % (ring.items.len() as int)];
            &&& item.seq % 2 == 0 && item.readers == 0 ==> (ring.accepts() <==> ring.pending().len()
                < ring.items.len())
            &&& item.seq % 2 == 1 || item.readers != 0 ==> !ring.accepts()
        }),
{
    law_pending(ring, 0);
}

/// An accepted write changes the slot of the write cursor and no other, where the value is in place
/// then, moves the write cursor on by one, and leaves the read cursor alone.
pub proof fn law_write_changes_one_slot<T: Clone>(ring: QueueRing<T>, value: T)
    requires
        ring.wf(),
        ring.accepts(),
    ensures
        ({
            let len = ring.items.len() as int;
            let at = ring.write_cursor as int % len;
            let after = ring.written(value);
            &&& 0 <= at < len
            &&& after.items.len() == len
            &&& after.items[at].value == Some(value)
            &&& after.items[at].seq > 0
            &&& after.items[at].seq % 2 == 0
            &&& after.items[at].seq == if ring.items[at].seq == usize::MAX - 1 {
                2
            } else {
                ring.items[at].seq + 2
            }
            &&& after.items[at].readers == 0
            &&& after.items[at].drop_count == if ring.items[at].seq == 0 {
                ring.items[at].drop_count
            } else {
                ring.items[at].drop_count.wrapping_add(1)
            }
            &&& forall|i: int| 0 <= i < len && i != at ==> #[trigger] after.items[i] == ring.items[i]
            &&& after.write_cursor == (ring.write_cursor + 1) % (usize::MAX + 1)
            &&& after.write_claim == after.write_cursor
            &&& after.read_cursor == ring.read_cursor
        }),
{
    lemma_len_divides_cursor_count(ring.items.len() as int);
    lemma_mod_bound(ring.write_cursor as int, ring.items.len() as int);
    law_cursors(ring.write_cursor + 1, 0, 0);
    law_item_written(ring.write_slot(), value);
}

/// A read that takes a value moves the read cursor on by one and changes nothing else.
pub proof fn law_read_moves_one_cursor<T: Clone>(ring: QueueRing<T>)
    ensures
        ring.taken().items == ring.items,
        ring.taken().write_claim == ring.write_claim,
        ring.taken().write_cursor == ring.write_cursor,
        ring.taken().read_cursor == (ring.read_cursor + 1) % (usize::MAX + 1),
{
    law_cursors(ring.read_cursor + 1, 0, 0);
}

} // verus!
