//! A ring of byte buffers of one size.
//!
//! Each write goes to the next buffer that no other writer holds, and a read copies the buffer
//! that was written last. Old contents are overwritten, read or not.
use vstd::arithmetic::div_mod::*;
use vstd::arithmetic::power2::*;
use vstd::prelude::*;
use vstd::utf8::*;

use crate::index::cursor_at;
use crate::index::latest_index;
use crate::index::law_cursors;
use crate::index::lemma_cursor_ahead;
use crate::index::lemma_cursor_itself;
use crate::index::lemma_cursor_slot;
use crate::index::lemma_cursor_slot_ahead;
use crate::index::lemma_len_divides_cursor_count;
use crate::index::lemma_next_cursor;
use crate::index::lemma_slots_differ;
use crate::index::slot_index;
use crate::scan::busy;
use crate::scan::lemma_passed_over;
use crate::scan::passed_over;
use crate::scan::some_free;
use crate::text::law_padded_text_comes_back;
use crate::text::text_of;
use crate::text::utf8_lossy;
use crate::text::without_trailing_nuls;

verus! {

/// `base` with as much of `data` put over its beginning as fits.
pub open spec fn overlay(base: Seq<u8>, data: Seq<u8>) -> Seq<u8> {
    Seq::new(
        base.len(),
        |i: int|
            if i < data.len() {
                data[i]
            } else {
                base[i]
            },
    )
}

/// `len` times the same byte.
pub open spec fn filled(len: nat, byte: u8) -> Seq<u8> {
    Seq::new(len, |i: int| byte)
}

/// `base` with `data` written over its beginning, and the rest cleared if `clear` holds a byte.
pub open spec fn inscribed(base: Seq<u8>, data: Seq<u8>, clear: Option<u8>) -> Seq<u8> {
    overlay(
        match clear {
            Some(byte) => filled(base.len(), byte),
            None => base,
        },
        data,
    )
}

/// What a [`Slot`] stands for.
pub struct SlotBytes {
    pub write_state: usize,
    pub bytes: Seq<u8>,
}

/// What a [`RingBuffer`] stands for: its slots, the cursor of the next write, and the byte that a
/// slot is cleared with.
pub struct ByteRing {
    pub slots: Seq<SlotBytes>,
    pub cursor: usize,
    pub clear_value: u8,
    pub buffer_size: nat,
}

impl ByteRing {
    /// A power of two of slots, each with a buffer of the same size.
    pub open spec fn wf(self) -> bool {
        &&& is_pow2(self.slots.len() as int)
        &&& self.slots.len() <= usize::MAX
        &&& self.buffer_size > 0
        &&& forall|i: int|
            0 <= i < self.slots.len() ==> (#[trigger] self.slots[i]).bytes.len()
                == self.buffer_size
    }

    /// For each slot, whether a writer is inside.
    pub open spec fn taken(self) -> Seq<bool> {
        self.slots.map_values(|slot: SlotBytes| busy(slot.write_state))
    }

    /// Some slot is free for a writer.
    pub open spec fn has_room(self) -> bool {
        some_free(self.taken())
    }

    /// The slot at a position of the unbounded count.
    pub open spec fn slot(self, n: int) -> int {
        n % (self.slots.len() as int)
    }

    /// How many slots the next write passes over because a writer holds them.
    pub open spec fn skipped(self) -> nat {
        passed_over(self.taken(), self.cursor as int)
    }

    /// The slot that the next write goes to.
    pub open spec fn target(self) -> int {
        self.slot(self.cursor + self.skipped())
    }

    /// The slot that a read looks at.
    pub open spec fn latest(self) -> SlotBytes {
        self.slots[self.slot(self.cursor - 1)]
    }

    /// The byte that a write clears a slot with, if it does.
    pub open spec fn clearing(self, clear: bool) -> Option<u8> {
        if clear {
            Some(self.clear_value)
        } else {
            None
        }
    }

    /// The ring after a write of `data`.
    pub open spec fn written(self, data: Seq<u8>, clear: bool) -> Self {
        let slot = self.slots[self.target()];
        let next = SlotBytes {
            write_state: cursor_at(slot.write_state + 2),
            bytes: inscribed(slot.bytes, data, self.clearing(clear)),
        };
        ByteRing {
            slots: self.slots.update(self.target(), next),
            cursor: cursor_at(self.cursor + self.skipped() + 1),
            ..self
        }
    }

    /// The ring after some writes in order, each of some data, with or without clearing.
    pub open spec fn written_all(self, writes: Seq<(Seq<u8>, bool)>) -> Self
        decreases writes.len(),
    {
        if writes.len() == 0 {
            self
        } else {
            self.written_all(writes.drop_last()).written(writes.last().0, writes.last().1)
        }
    }
}

/// A slot in the ring.
pub struct Slot {
    /// Tells whether the slot is being written to: it goes up by one when a write begins, and by one
    /// again when it has ended.
    pub write_state: usize,
    /// The bytes in the slot.
    pub buffer: Vec<u8>,
}

impl View for Slot {
    type V = SlotBytes;

    open spec fn view(&self) -> SlotBytes {
        SlotBytes { write_state: self.write_state, bytes: self.buffer@ }
    }
}

/// Puts as much of `data` over the beginning of `buffer` as fits.
pub fn copy_over(buffer: &mut Vec<u8>, data: &[u8])
    ensures
        final(buffer)@ == overlay(old(buffer)@, data@),
        final(buffer)@.len() == old(buffer)@.len(),
        forall|i: int|
            0 <= i < old(buffer)@.len() ==> #[trigger] final(buffer)@[i] == (if i < data@.len() {
                data@[i]
            } else {
                old(buffer)@[i]
            }),
{
    let len: usize = if data.len() < buffer.len() {
        data.len()
    } else {
        buffer.len()
    };
    let ghost base = buffer@;
    let mut i: usize = 0;
    while i < len
        invariant
            i <= len,
            len <= data@.len(),
            len <= base.len(),
            buffer@ == overlay(base, data@.take(i as int)),
        decreases len - i,
    {
        buffer[i] = data[i];
        i = i + 1;
    }
}

/// Puts as much of `data` over the beginning of `buffer` as fits, after clearing the whole buffer
/// if `clear` holds a byte.
pub fn inscribe(buffer: &mut Vec<u8>, data: &[u8], clear: Option<u8>)
    ensures
        final(buffer)@ == inscribed(old(buffer)@, data@, clear),
        final(buffer)@.len() == old(buffer)@.len(),
        forall|i: int|
            0 <= i < old(buffer)@.len() ==> #[trigger] final(buffer)@[i] == (if i < data@.len() {
                data@[i]
            } else if clear is Some {
                clear->0
            } else {
                old(buffer)@[i]
            }),
{
    if let Some(byte) = clear {
        let ghost base = buffer@;
        let mut i: usize = 0;
        while i < buffer.len()
            invariant
                i <= buffer@.len() == base.len(),
                forall|k: int| 0 <= k < i ==> #[trigger] buffer@[k] == byte,
            decreases buffer@.len() - i,
        {
            buffer[i] = byte;
            i = i + 1;
        }
        assert(buffer@ =~= filled(base.len(), byte));
    }
    copy_over(buffer, data);
}

impl Slot {
    /// A slot that is not being written to, with `buffer_size` times the byte `clear_value`.
    pub fn new(buffer_size: usize, clear_value: u8) -> (slot: Self)
        ensures
            slot@ == (SlotBytes {
                write_state: 0,
                bytes: filled(buffer_size as nat, clear_value),
            }),
            slot.write_state == 0,
            slot.buffer@.len() == buffer_size,
            forall|k: int| 0 <= k < buffer_size ==> #[trigger] slot.buffer@[k] == clear_value,
    {
        let buffer: Vec<u8> = vec![clear_value; buffer_size];
        assert(buffer@ == filled(buffer_size as nat, clear_value));
        Slot { write_state: 0, buffer }
    }

    /// The step that begins a write: exchanges the write state for `claim` if it is `seen`, and says
    /// whether it was.
    pub fn exchange_state(&mut self, seen: usize, claim: usize) -> (won: bool)
        ensures
            won == (old(self).write_state == seen),
            final(self).write_state == (if won { claim } else { old(self).write_state }),
            final(self).buffer == old(self).buffer,
    {
        if self.write_state == seen {
            self.write_state = claim;
            true
        } else {
            false
        }
    }

    /// The step that ends a write: adds one to the write state.
    pub fn end(&mut self)
        ensures
            final(self).write_state == cursor_at(old(self).write_state + 1),
            final(self).write_state == old(self).write_state.wrapping_add(1),
            final(self).buffer == old(self).buffer,
    {
        proof {
            lemma_next_cursor(self.write_state);
        }
        self.write_state = self.write_state.wrapping_add(1);
    }
}

/// A ring of slots whose latest bytes can be read at any time.
pub struct RingBuffer {
    /// The slots that make up the ring.
    pub slots: Vec<Slot>,
    /// The cursor of the next write. Reads look at the slot before it.
    pub write_idx: usize,
    /// The byte that a slot is cleared with.
    pub clear_value: u8,
    /// Mask used to turn a cursor into a slot.
    pub mask: usize,
    /// The size of the buffer of each slot.
    pub buffer_size: usize,
}

/// A write to a [`RingBuffer`], by the step that comes next.
pub enum RingWrite {
    /// Load the cursor and add one to it, then go on with [`RingWrite::after_advance`].
    Advance,
    /// Load the write state of slot `index`, then go on with [`RingWrite::after_check`].
    Check { index: usize },
    /// Exchange the write state for `claim` if it is still `seen`, then go on with
    /// [`RingWrite::after_exchange`].
    Claim { index: usize, seen: usize, claim: usize },
    /// Write the bytes, then end the write.
    Fill { index: usize },
    /// Add one to the write state; the write is then done.
    End { index: usize },
    /// The bytes are in place.
    Done,
}

/// A read of a [`RingBuffer`], by the step that comes next.
pub enum RingRead {
    /// Load the cursor, then go on with [`RingRead::after_load`].
    Load,
    /// Load the write state of slot `index`, then go on with [`RingRead::after_check`].
    Check { index: usize },
    /// Copy the bytes, then validate the copy.
    Copy { index: usize, seen: usize },
    /// Load the write state again, then go on with [`RingRead::after_recheck`].
    Validate { index: usize, seen: usize },
    /// The bytes are copied.
    Done,
}

impl RingWrite {
    /// What follows when the write state of slot `index` was `state`.
    pub open spec fn checked(index: usize, state: usize) -> Self {
        if busy(state) {
            RingWrite::Advance
        } else {
            RingWrite::Claim { index, seen: state, claim: (state + 1) as usize }
        }
    }

    /// What follows when the exchange of the write state was won or lost.
    pub open spec fn exchanged(index: usize, won: bool) -> Self {
        if won {
            RingWrite::Fill { index }
        } else {
            RingWrite::Advance
        }
    }

    /// Goes to the slot of the cursor that was loaded.
    pub fn after_advance(cursor: usize, mask: usize) -> (op: Self)
        requires
            is_pow2(mask + 1),
            mask < usize::MAX,
        ensures
            op == (RingWrite::Check { index: (cursor as int % (mask + 1)) as usize }),
    {
        RingWrite::Check { index: slot_index(cursor, mask) }
    }

    /// Goes on to the next slot if this one is being written to.
    pub fn after_check(index: usize, state: usize) -> (op: Self)
        ensures
            op == Self::checked(index, state),
            state % 2 == 1 ==> op == RingWrite::Advance,
            state % 2 == 0 ==> op == (RingWrite::Claim {
                index,
                seen: state,
                claim: (state + 1) as usize,
            }),
    {
        if state % 2 != 0 {
            return RingWrite::Advance;
        }
        RingWrite::Claim { index, seen: state, claim: state + 1 }
    }

    /// Goes on to the next slot if another writer has got to this one first.
    pub fn after_exchange(index: usize, won: bool) -> (op: Self)
        ensures
            op == Self::exchanged(index, won),
            won ==> op == (RingWrite::Fill { index }),
            !won ==> op == RingWrite::Advance,
    {
        if !won {
            return RingWrite::Advance;
        }
        RingWrite::Fill { index }
    }
}

impl RingRead {
    /// What follows when the write state of slot `index` was `state`.
    pub open spec fn checked(index: usize, state: usize) -> Self {
        if busy(state) {
            RingRead::Load
        } else {
            RingRead::Copy { index, seen: state }
        }
    }

    /// What follows when the write state was `seen` before the copy and `state` after it.
    pub open spec fn rechecked(seen: usize, state: usize) -> Self {
        if seen == state {
            RingRead::Done
        } else {
            RingRead::Load
        }
    }

    /// Goes to the slot before the cursor that was loaded.
    pub fn after_load(cursor: usize, mask: usize) -> (op: Self)
        requires
            is_pow2(mask + 1),
            mask < usize::MAX,
        ensures
            op == (RingRead::Check { index: ((cursor - 1) % (mask + 1)) as usize }),
    {
        RingRead::Check { index: latest_index(cursor, mask) }
    }

    /// Looks for the latest slot again if this one is being written to.
    pub fn after_check(index: usize, state: usize) -> (op: Self)
        ensures
            op == Self::checked(index, state),
            state % 2 == 1 ==> op == RingRead::Load,
            state % 2 == 0 ==> op == (RingRead::Copy { index, seen: state }),
    {
        if state % 2 != 0 {
            return RingRead::Load;
        }
        RingRead::Copy { index, seen: state }
    }

    /// Looks for the latest slot again if this one was written to meanwhile.
    pub fn after_recheck(seen: usize, state: usize) -> (op: Self)
        ensures
            op == Self::rechecked(seen, state),
            seen == state ==> op == RingRead::Done,
            seen != state ==> op == RingRead::Load,
    {
        if seen == state {
            return RingRead::Done;
        }
        RingRead::Load
    }
}

impl View for RingBuffer {
    type V = ByteRing;

    open spec fn view(&self) -> ByteRing {
        ByteRing {
            slots: self.slots@.map_values(|slot: Slot| slot@),
            cursor: self.write_idx,
            clear_value: self.clear_value,
            buffer_size: self.buffer_size as nat,
        }
    }
}

impl RingBuffer {
    /// The slots are in order and the mask fits them.
    pub open spec fn wf(self) -> bool {
        &&& self@.wf()
        &&& self.mask + 1 == self.slots@.len()
    }

    /// Creates a ring of `length` slots of `buffer_size` bytes, each of which is `clear_value`.
    ///
    /// `buffer_size` must not be zero, and `length` has to be a power of two.
    pub fn new(buffer_size: usize, length: usize, clear_value: u8) -> (ring: Self)
        requires
            buffer_size != 0,
            is_pow2(length as int),
        ensures
            ring.wf(),
            ring@ == (ByteRing {
                slots: Seq::new(
                    length as nat,
                    |i: int|
                        SlotBytes {
                            write_state: 0,
                            bytes: filled(buffer_size as nat, clear_value),
                        },
                ),
                cursor: 0,
                clear_value,
                buffer_size: buffer_size as nat,
            }),
            ring@.has_room(),
            !busy(ring@.latest().write_state),
            ring.slots@.len() == length,
            ring.write_idx == 0,
            ring.clear_value == clear_value,
            ring.mask == length - 1,
            ring.buffer_size == buffer_size,
            forall|i: int|
                0 <= i < length ==> (#[trigger] ring.slots@[i]).write_state == 0
                    && ring.slots@[i].buffer@.len() == buffer_size,
            forall|i: int, k: int|
                0 <= i < length && 0 <= k < buffer_size ==> #[trigger] ring.slots@[i].buffer@[k]
                    == clear_value,
    {
        proof {
            lemma_len_divides_cursor_count(length as int);
            lemma_mod_bound(-1, length as int);
        }
        let ghost blank = SlotBytes {
            write_state: 0,
            bytes: filled(buffer_size as nat, clear_value),
        };
        let mut slots: Vec<Slot> = Vec::new();
        let mut made: usize = 0;
        while made < length
            invariant
                made <= length,
                slots@.len() == made,
                blank == (SlotBytes {
                    write_state: 0,
                    bytes: filled(buffer_size as nat, clear_value),
                }),
                forall|i: int|
                    0 <= i < made ==> {
                        &&& (#[trigger] slots@[i])@ == blank
                        &&& slots@[i].write_state == 0
                        &&& slots@[i].buffer@ == blank.bytes
                    },
            decreases length - made,
        {
            slots.push(Slot::new(buffer_size, clear_value));
            made = made + 1;
        }
        let ring = RingBuffer { slots, write_idx: 0, clear_value, mask: length - 1, buffer_size };
        proof {
            assert(ring@.slots =~= Seq::new(length as nat, |i: int| blank));
            assert(!ring@.taken()[0]);
        }
        ring
    }

    /// The step that loads the cursor of the next write and adds one to it.
    fn advance(&mut self) -> (cursor: usize)
        ensures
            cursor == old(self).write_idx,
            final(self).write_idx == cursor_at(old(self).write_idx + 1),
            final(self).slots == old(self).slots,
            final(self).clear_value == old(self).clear_value,
            final(self).mask == old(self).mask,
            final(self).buffer_size == old(self).buffer_size,
    {
        let cursor: usize = self.write_idx;
        proof {
            lemma_next_cursor(cursor);
        }
        self.write_idx = cursor.wrapping_add(1);
        cursor
    }

    /// Writes as much of `data` as fits into the next slot that no other writer holds, after
    /// clearing it if `clear`.
    fn write_internal(&mut self, data: &[u8], clear: bool)
        requires
            old(self).wf(),
            old(self)@.has_room(),
        ensures
            final(self).wf(),
            final(self)@ == old(self)@.written(data@, clear),
            final(self)@.has_room(),
            !busy(final(self)@.latest().write_state),
            final(self).slots@.len() == old(self).slots@.len(),
            final(self).clear_value == old(self).clear_value,
            final(self).mask == old(self).mask,
            final(self).buffer_size == old(self).buffer_size,
            ({
                let slots = old(self).slots@;
                let after = final(self).slots@;
                let cursor = old(self).write_idx as int;
                let len = slots.len() as int;
                exists|passed: int| {
                    let at = (cursor + passed) % len;
                    // The first slot from the cursor on that no writer is inside takes the data.
                    &&& 0 <= passed < len
                    &&& (#[trigger] slots[(cursor + passed) % len]).write_state % 2 == 0
                    &&& forall|i: int|
                        0 <= i < passed ==> (#[trigger] slots[(cursor + i) % len]).write_state % 2
                            == 1
                    &&& after[at].write_state == (slots[at].write_state + 2) % (usize::MAX + 1)
                    &&& after[at].buffer@.len() == slots[at].buffer@.len()
                    &&& forall|k: int|
                        0 <= k < slots[at].buffer@.len() ==> #[trigger] after[at].buffer@[k] == (
                        if k < data@.len() {
                            data@[k]
                        } else if clear {
                            old(self).clear_value
                        } else {
                            slots[at].buffer@[k]
                        })
                    // The other slots stay as they are, and the cursor is one past the slot.
                    &&& forall|i: int|
                        0 <= i < len && i != at ==> #[trigger] after[i] == slots[i]
                    &&& final(self).write_idx == (cursor + passed + 1) % (usize::MAX + 1)
                }
            }),
    {
        let ghost start = self.slots@;
        let ghost before = self@;
        let ghost len = before.slots.len() as int;
        let ghost target = before.slots[before.target()];
        let ghost begun = cursor_at(target.write_state + 1);
        let ghost bytes = inscribed(target.bytes, data@, before.clearing(clear));
        let ghost mut passed: nat = 0;
        let mut op: RingWrite = RingWrite::Advance;
        proof {
            lemma_target(before);
            lemma_cursor_itself(before.cursor);
            law_write_keeps_order(before, data@, clear);
            law_read_after_write(before, data@, clear);
        }
        loop
            invariant
                before == old(self)@,
                start == old(self).slots@,
                start.len() == len,
                self.mask == old(self).mask,
                op is Advance || op is Check || op is Claim ==> self.slots@ == start,
                op is Fill || op is End || op is Done ==> {
                    &&& passed == before.skipped()
                    &&& self.slots@ == start.update(before.target(), self.slots@[before.target()])
                },
                op is Claim ==> passed == before.skipped(),
                before.wf(),
                before.has_room(),
                len == before.slots.len(),
                target == before.slots[before.target()],
                begun == cursor_at(target.write_state + 1),
                bytes == inscribed(target.bytes, data@, before.clearing(clear)),
                self.mask + 1 == len,
                self.slots@.len() == len,
                self.clear_value == before.clear_value,
                self.buffer_size == before.buffer_size,
                passed <= before.skipped(),
                before.skipped() < len,
                before.written(data@, clear).wf(),
                before.written(data@, clear).has_room(),
                !busy(before.written(data@, clear).latest().write_state),
                match op {
                    RingWrite::Advance => {
                        &&& self@.slots == before.slots
                        &&& self.write_idx == cursor_at(before.cursor + passed)
                    },
                    RingWrite::Check { index } => {
                        &&& self@.slots == before.slots
                        &&& self.write_idx == cursor_at(before.cursor + passed + 1)
                        &&& index == before.slot(before.cursor + passed)
                    },
                    RingWrite::Claim { index, seen, claim } => {
                        &&& self@.slots == before.slots
                        &&& self.write_idx == before.written(data@, clear).cursor
                        &&& index == before.target()
                        &&& seen == target.write_state
                        &&& claim == begun
                    },
                    RingWrite::Fill { index } => {
                        &&& self@.slots == before.slots.update(
                            before.target(),
                            SlotBytes { write_state: begun, ..target },
                        )
                        &&& self.write_idx == before.written(data@, clear).cursor
                        &&& index == before.target()
                    },
                    RingWrite::End { index } => {
                        &&& self@.slots == before.slots.update(
                            before.target(),
                            SlotBytes { write_state: begun, bytes },
                        )
                        &&& self.write_idx == before.written(data@, clear).cursor
                        &&& index == before.target()
                    },
                    RingWrite::Done => self@ == before.written(data@, clear),
                },
            decreases
                before.skipped() - passed,
                (match op {
                    RingWrite::Advance => 5int,
                    RingWrite::Check { .. } => 4,
                    RingWrite::Claim { .. } => 3,
                    RingWrite::Fill { .. } => 2,
                    RingWrite::End { .. } => 1,
                    RingWrite::Done => 0,
                }),
        {
            proof {
                lemma_target(before);
            }
            op = match op {
                RingWrite::Advance => {
                    let cursor = self.advance();
                    proof {
                        lemma_cursor_slot(before.cursor + passed, len);
                        lemma_cursor_ahead(before.cursor + passed, 1);
                        lemma_mod_bound(before.cursor + passed, len);
                    }
                    RingWrite::after_advance(cursor, self.mask)
                },
                RingWrite::Check { index } => {
                    let state: usize = self.slots[index].write_state;
                    proof {
                        assert(self@.slots[index as int].write_state == state);
                        if busy(state) {
                            passed = passed + 1;
                        } else {
                            lemma_cursor_itself((state + 1) as usize);
                        }
                    }
                    RingWrite::after_check(index, state)
                },
                RingWrite::Claim { index, seen, claim } => {
                    assert(self@.slots[index as int] == self.slots@[index as int]@);
                    let ghost prior = self@.slots;
                    let won = self.slots[index].exchange_state(seen, claim);
                    assert(self@.slots =~= prior.update(index as int, self.slots@[index as int]@));
                    assert(self.slots@ =~= start.update(index as int, self.slots@[index as int]));
                    assert(self@.slots =~= before.slots.update(
                        before.target(),
                        SlotBytes { write_state: begun, ..target },
                    ));
                    RingWrite::after_exchange(index, won)
                },
                RingWrite::Fill { index } => {
                    assert(self@.slots[index as int] == self.slots@[index as int]@);
                    let byte: Option<u8> = if clear {
                        Some(self.clear_value)
                    } else {
                        None
                    };
                    let ghost prior = self@.slots;
                    inscribe(&mut self.slots[index].buffer, data, byte);
                    assert(self@.slots =~= prior.update(index as int, self.slots@[index as int]@));
                    assert(self.slots@ =~= start.update(index as int, self.slots@[index as int]));
                    assert(self@.slots =~= before.slots.update(
                        before.target(),
                        SlotBytes { write_state: begun, bytes },
                    ));
                    RingWrite::End { index }
                },
                RingWrite::End { index } => {
                    assert(self@.slots[index as int] == self.slots@[index as int]@);
                    let ghost prior = self@.slots;
                    self.slots[index].end();
                    assert(self@.slots =~= prior.update(index as int, self.slots@[index as int]@));
                    assert(self.slots@ =~= start.update(index as int, self.slots@[index as int]));
                    proof {
                        lemma_cursor_ahead(target.write_state + 1, 1);
                        assert(self@.slots =~= before.written(data@, clear).slots);
                    }
                    RingWrite::Done
                },
                RingWrite::Done => {
                    proof {
                        let at = (old(self).write_idx + passed) % len;
                        law_cursors(before.cursor + passed + 1, 0, 0);
                        law_cursors(target.write_state + 2, 0, 0);
                        assert(start[(old(self).write_idx + passed) % len].write_state % 2 == 0) by {
                            assert(before.slots[at] == start[at]@);
                        }
                        assert(self@.slots[at] == self.slots@[at]@);
                        assert(before.slots[at] == start[at]@);
                        assert forall|i: int| 0 <= i < passed implies (#[trigger] start[(
                        old(self).write_idx + i) % len]).write_state % 2 == 1 by {
                            assert(busy(before.slots[before.slot(before.cursor + i)].write_state));
                            lemma_mod_bound(before.cursor + i, len);
                        }
                        assert forall|k: int| 0 <= k < start[at].buffer@.len() implies (
                        #[trigger] self.slots@[at].buffer@[k]) == (if k < data@.len() {
                            data@[k]
                        } else if clear {
                            old(self).clear_value
                        } else {
                            start[at].buffer@[k]
                        }) by {
                            assert(self@.slots[at].bytes == bytes);
                        }
                    }
                    return;
                },
            };
        }
    }

    /// Writes as much of `data` as fits into the next slot that no other writer holds. The rest of
    /// the slot stays as it is. Some slot has to be free: otherwise the write would go round for ever.
    pub fn write(&mut self, data: &[u8])
        requires
            old(self).wf(),
            old(self)@.has_room(),
        ensures
            final(self).wf(),
            final(self)@ == old(self)@.written(data@, false),
            final(self)@.has_room(),
            !busy(final(self)@.latest().write_state),
            final(self).slots@.len() == old(self).slots@.len(),
            final(self).clear_value == old(self).clear_value,
            final(self).mask == old(self).mask,
            final(self).buffer_size == old(self).buffer_size,
            ({
                let slots = old(self).slots@;
                let after = final(self).slots@;
                let cursor = old(self).write_idx as int;
                let len = slots.len() as int;
                exists|passed: int| {
                    let at = (cursor + passed) % len;
                    // The first slot from the cursor on that no writer is inside takes the data.
                    &&& 0 <= passed < len
                    &&& (#[trigger] slots[(cursor + passed) % len]).write_state % 2 == 0
                    &&& forall|i: int|
                        0 <= i < passed ==> (#[trigger] slots[(cursor + i) % len]).write_state % 2
                            == 1
                    &&& after[at].write_state == (slots[at].write_state + 2) % (usize::MAX + 1)
                    &&& after[at].buffer@.len() == slots[at].buffer@.len()
                    &&& forall|k: int|
                        0 <= k < slots[at].buffer@.len() ==> #[trigger] after[at].buffer@[k] == (
                        if k < data@.len() {
                            data@[k]
                        } else {
                            slots[at].buffer@[k]
                        })
                    // The other slots stay as they are, and the cursor is one past the slot.
                    &&& forall|i: int|
                        0 <= i < len && i != at ==> #[trigger] after[i] == slots[i]
                    &&& final(self).write_idx == (cursor + passed + 1) % (usize::MAX + 1)
                }
            }),
    {
        self.write_internal(data, false);
    }

    /// Writes as much of `data` as fits into the next slot that no other writer holds. The rest of
    /// the slot is cleared. Some slot has to be free: otherwise the write would go round for ever.
    pub fn write_and_clear(&mut self, data: &[u8])
        requires
            old(self).wf(),
            old(self)@.has_room(),
        ensures
            final(self).wf(),
            final(self)@ == old(self)@.written(data@, true),
            final(self)@.has_room(),
            !busy(final(self)@.latest().write_state),
            final(self).slots@.len() == old(self).slots@.len(),
            final(self).clear_value == old(self).clear_value,
            final(self).mask == old(self).mask,
            final(self).buffer_size == old(self).buffer_size,
            ({
                let slots = old(self).slots@;
                let after = final(self).slots@;
                let cursor = old(self).write_idx as int;
                let len = slots.len() as int;
                exists|passed: int| {
                    let at = (cursor + passed) % len;
                    // The first slot from the cursor on that no writer is inside takes the data.
                    &&& 0 <= passed < len
                    &&& (#[trigger] slots[(cursor + passed) % len]).write_state % 2 == 0
                    &&& forall|i: int|
                        0 <= i < passed ==> (#[trigger] slots[(cursor + i) % len]).write_state % 2
                            == 1
                    &&& after[at].write_state == (slots[at].write_state + 2) % (usize::MAX + 1)
                    &&& after[at].buffer@.len() == slots[at].buffer@.len()
                    &&& forall|k: int|
                        0 <= k < slots[at].buffer@.len() ==> #[trigger] after[at].buffer@[k] == (
                        if k < data@.len() {
                            data@[k]
                        } else {
                            old(self).clear_value
                        })
                    // The other slots stay as they are, and the cursor is one past the slot.
                    &&& forall|i: int|
                        0 <= i < len && i != at ==> #[trigger] after[i] == slots[i]
                    &&& final(self).write_idx == (cursor + passed + 1) % (usize::MAX + 1)
                }
            }),
    {
        self.write_internal(data, true);
    }

    /// Copies the bytes of the slot that was written last over the beginning of `output_buffer`,
    /// as many as fit. No writer may be inside that slot: otherwise the read would wait for ever.
    pub fn read_to_buf(&self, output_buffer: &mut Vec<u8>)
        requires
            self.wf(),
            !busy(self@.latest().write_state),
        ensures
            final(output_buffer)@ == overlay(old(output_buffer)@, self@.latest().bytes),
            final(output_buffer)@.len() == old(output_buffer)@.len(),
            ({
                let slot = self.slots@[(self.write_idx - 1) % (self.slots@.len() as int)];
                &&& slot.buffer@.len() == self.buffer_size
                &&& forall|i: int|
                    0 <= i < old(output_buffer)@.len() ==> #[trigger] final(output_buffer)@[i] == (
                    if i < self.buffer_size {
                        slot.buffer@[i]
                    } else {
                        old(output_buffer)@[i]
                    })
            }),
    {
        let ghost base = output_buffer@;
        let ghost latest = self@.latest();
        let ghost at = self@.slot(self.write_idx - 1);
        let mut op: RingRead = RingRead::Load;
        proof {
            lemma_len_divides_cursor_count(self.slots@.len() as int);
            lemma_mod_bound(self.write_idx - 1, self.slots@.len() as int);
        }
        loop
            invariant
                base == old(output_buffer)@,
                self.wf(),
                latest == self@.latest(),
                at == self@.slot(self.write_idx - 1),
                0 <= at < self.slots@.len(),
                !busy(latest.write_state),
                match op {
                    RingRead::Load => output_buffer@ == base,
                    RingRead::Check { index } => output_buffer@ == base && index == at,
                    RingRead::Copy { index, seen } => {
                        output_buffer@ == base && index == at && seen == latest.write_state
                    },
                    RingRead::Validate { index, seen } => {
                        &&& output_buffer@ == overlay(base, latest.bytes)
                        &&& index == at
                        &&& seen == latest.write_state
                    },
                    RingRead::Done => output_buffer@ == overlay(base, latest.bytes),
                },
            decreases
                (match op {
                    RingRead::Load => 4int,
                    RingRead::Check { .. } => 3,
                    RingRead::Copy { .. } => 2,
                    RingRead::Validate { .. } => 1,
                    RingRead::Done => 0,
                }),
        {
            op = match op {
                RingRead::Load => RingRead::after_load(self.write_idx, self.mask),
                RingRead::Check { index } => {
                    RingRead::after_check(index, self.slots[index].write_state)
                },
                RingRead::Copy { index, seen } => {
                    copy_over(output_buffer, &self.slots[index].buffer);
                    RingRead::Validate { index, seen }
                },
                RingRead::Validate { index, seen } => {
                    RingRead::after_recheck(seen, self.slots[index].write_state)
                },
                RingRead::Done => {
                    assert(latest == self.slots@[at]@);
                    assert(self@.slots[at].bytes.len() == self.buffer_size);
                    return;
                },
            };
        }
    }

    /// Copies the bytes of the slot that was written last.
    pub fn read(&self) -> (data: Vec<u8>)
        requires
            self.wf(),
            !busy(self@.latest().write_state),
        ensures
            data@ == self@.latest().bytes,
            data@ == self.slots@[(self.write_idx - 1) % (self.slots@.len() as int)].buffer@,
            data@.len() == self.buffer_size,
    {
        proof {
            lemma_len_divides_cursor_count(self.slots@.len() as int);
            lemma_mod_bound(self.write_idx - 1, self.slots@.len() as int);
        }
        let mut output_buffer: Vec<u8> = vec![self.clear_value; self.buffer_size];
        self.read_to_buf(&mut output_buffer);
        assert(output_buffer@ =~= self@.latest().bytes);
        output_buffer
    }

    /// Reads the slot that was written last as text, without the NULs at its end.
    pub fn read_str(&self) -> (text: String)
        requires
            self.wf(),
            !busy(self@.latest().write_state),
        ensures
            text@ == without_trailing_nuls(utf8_lossy(self@.latest().bytes)),
            valid_utf8(self@.latest().bytes) ==> text@ == without_trailing_nuls(
                decode_utf8(self@.latest().bytes),
            ),
            ({
                let bytes = self.slots@[(self.write_idx - 1) % (self.slots@.len() as int)].buffer@;
                let decoded = utf8_lossy(bytes);
                &&& valid_utf8(bytes) ==> decoded == decode_utf8(bytes)
                &&& text@.len() <= decoded.len()
                &&& text@ == decoded.take(text@.len() as int)
                &&& text@.len() > 0 ==> text@.last() != '\0'
                &&& forall|i: int|
                    text@.len() <= i < decoded.len() ==> #[trigger] decoded[i] == '\0'
            }),
    {
        let data = self.read();
        text_of(&data)
    }
}

/// With room for a writer, a write comes to a free slot before it has gone all the way round.
proof fn lemma_target(ring: ByteRing)
    requires
        ring.wf(),
        ring.has_room(),
    ensures
        ring.skipped() < ring.slots.len(),
        forall|i: int|
            0 <= i < ring.skipped() ==> busy(
                ring.slots[#[trigger] ring.slot(ring.cursor + i)].write_state,
            ),
        0 <= ring.target() < ring.slots.len(),
        !busy(ring.slots[ring.target()].write_state),
{
    let from = ring.cursor as int;
    lemma_passed_over(ring.taken(), from);
    assert forall|i: int| 0 <= i < ring.skipped() implies busy(
        ring.slots[#[trigger] ring.slot(from + i)].write_state,
    ) by {
        assert(ring.taken()[ring.slot(from + i)]);
        lemma_mod_bound(from + i, ring.slots.len() as int);
    }
}

/// A write keeps the ring in order, with as many slots as before, and leaves room for the next.
pub proof fn law_write_keeps_order(ring: ByteRing, data: Seq<u8>, clear: bool)
    requires
        ring.wf(),
        ring.has_room(),
    ensures
        ring.written(data, clear).wf(),
        ring.written(data, clear).slots.len() == ring.slots.len(),
        ring.written(data, clear).has_room(),
{
    lemma_target(ring);
    lemma_two_on(ring.slots[ring.target()].write_state);
    let next = ring.written(data, clear);
    assert(!next.taken()[ring.target()]);
}

/// Beginning and ending a write leaves a free slot free.
proof fn lemma_two_on(state: usize)
    ensures
        busy(cursor_at(state + 2)) <==> busy(state),
{
    lemma_cursor_ahead(state + 1, 1);
    lemma_next_cursor(state);
    lemma_next_cursor(cursor_at(state + 1));
}

/// A read right after a write finds the slot free, with the data at its beginning, cut off where
/// the slot ends. The rest of the slot is as it was, or cleared.
pub proof fn law_read_after_write(ring: ByteRing, data: Seq<u8>, clear: bool)
    requires
        ring.wf(),
        ring.has_room(),
    ensures
        ({
            let base = ring.slots[ring.target()].bytes;
            let latest = ring.written(data, clear).latest();
            &&& !busy(latest.write_state)
            &&& latest.bytes.len() == ring.buffer_size
            &&& forall|i: int|
                0 <= i < ring.buffer_size ==> #[trigger] latest.bytes[i] == if i < data.len() {
                    data[i]
                } else if clear {
                    ring.clear_value
                } else {
                    base[i]
                }
        }),
{
    let count = ring.cursor + ring.skipped() + 1;
    lemma_target(ring);
    lemma_two_on(ring.slots[ring.target()].write_state);
    lemma_cursor_slot_ahead(count, -1, ring.slots.len() as int);
}

/// Text that fits a slot and does not end with a NUL is read back as it was written, if the slot
/// holds zeros behind it: because it was cleared with zero before, or held zeros there already.
pub proof fn law_text_after_write(ring: ByteRing, text: Seq<char>, clear: bool)
    requires
        ring.wf(),
        ring.has_room(),
        text.len() == 0 || text.last() != '\0',
        encode_utf8(text).len() <= ring.buffer_size,
        clear ==> ring.clear_value == 0,
        !clear ==> forall|i: int|
            encode_utf8(text).len() <= i < ring.buffer_size
                ==> #[trigger] ring.slots[ring.target()].bytes[i] == 0,
    ensures
        ({
            let bytes = ring.written(encode_utf8(text), clear).latest().bytes;
            valid_utf8(bytes) && without_trailing_nuls(decode_utf8(bytes)) == text
        }),
{
    let data = encode_utf8(text);
    let padding = (ring.buffer_size - data.len()) as nat;
    law_read_after_write(ring, data, clear);
    law_padded_text_comes_back(text, padding);
    assert(ring.written(data, clear).latest().bytes =~= data + Seq::new(padding, |i: int| 0u8));
}

/// What a ring stands for is what its fields hold.
pub proof fn law_bytes_fields(ring: RingBuffer, i: int)
    ensures
        ring@.cursor == ring.write_idx,
        ring@.clear_value == ring.clear_value,
        ring@.buffer_size == ring.buffer_size,
        ring@.slots.len() == ring.slots@.len(),
        0 <= i < ring.slots@.len() ==> {
            &&& ring@.slots[i].write_state == ring.slots@[i].write_state
            &&& ring@.slots[i].bytes == ring.slots@[i].buffer@
        },
        ring.wf() <==> ring@.wf() && ring.mask + 1 == ring.slots@.len(),
{
}

/// A ring is in order exactly if it has a power of two of slots, each with a buffer of the same size
/// above zero. It has room exactly if no writer is inside some slot.
pub proof fn law_bytes_in_order(ring: ByteRing)
    ensures
        ring.wf() <==> {
            &&& is_pow2(ring.slots.len() as int)
            &&& ring.slots.len() <= usize::MAX
            &&& ring.buffer_size > 0
            &&& forall|i: int|
                0 <= i < ring.slots.len() ==> (#[trigger] ring.slots[i]).bytes.len()
                    == ring.buffer_size
        },
        ring.has_room() <==> exists|i: int|
            0 <= i < ring.slots.len() && (#[trigger] ring.slots[i]).write_state % 2 == 0,
{
    if ring.has_room() {
        let i = choose|i: int| 0 <= i < ring.taken().len() && !#[trigger] ring.taken()[i];
        assert(ring.slots[i].write_state % 2 == 0);
    }
    if exists|i: int| 0 <= i < ring.slots.len() && (#[trigger] ring.slots[i]).write_state % 2 == 0 {
        let i = choose|i: int|
            0 <= i < ring.slots.len() && (#[trigger] ring.slots[i]).write_state % 2 == 0;
        assert(!ring.taken()[i]);
    }
}

/// A read looks at the slot before the cursor.
pub proof fn law_latest_bytes(ring: ByteRing, n: int)
    ensures
        ring.slot(n) == n % (ring.slots.len() as int),
        ring.latest() == ring.slots[(ring.cursor - 1) % (ring.slots.len() as int)],
{
}

/// Putting data over bytes keeps their number. Each byte is that of the data as far as the data goes,
/// and the one that was there behind it, or the clearing byte.
pub proof fn law_bytes_put_over(base: Seq<u8>, data: Seq<u8>, clear: Option<u8>, i: int)
    ensures
        overlay(base, data).len() == base.len(),
        inscribed(base, data, clear).len() == base.len(),
        0 <= i < base.len() && i < data.len() ==> overlay(base, data)[i] == data[i],
        0 <= i < base.len() && i >= data.len() ==> overlay(base, data)[i] == base[i],
        0 <= i < base.len() && i < data.len() ==> inscribed(base, data, clear)[i] == data[i],
        0 <= i < base.len() && i >= data.len() ==> inscribed(base, data, clear)[i] == (
        if clear is Some {
            clear->0
        } else {
            base[i]
        }),
{
}

/// A write changes one slot and no other: the first one from the cursor on that no writer is inside.
/// The data is at the beginning of that slot, cut off where the slot ends, and the rest of it is as it
/// was, or cleared. Its write state is two on, and the cursor is one past it.
pub proof fn law_write_takes_next_free_slot(ring: ByteRing, data: Seq<u8>, clear: bool)
    requires
        ring.wf(),
        ring.has_room(),
    ensures
        ring.written(data, clear).slots.len() == ring.slots.len(),
        ring.written(data, clear).clear_value == ring.clear_value,
        ring.written(data, clear).buffer_size == ring.buffer_size,
        ({
            let len = ring.slots.len() as int;
            let after = ring.written(data, clear);
            exists|passed: int| {
                let at = (ring.cursor + passed) % len;
                &&& 0 <= passed < len
                &&& (#[trigger] ring.slots[(ring.cursor + passed) % len]).write_state % 2 == 0
                &&& forall|i: int|
                    0 <= i < passed ==> (#[trigger] ring.slots[(ring.cursor + i) % len]).write_state
                        % 2 == 1
                &&& after.slots[at].write_state == (ring.slots[at].write_state + 2) % (usize::MAX
                    + 1)
                &&& after.slots[at].bytes.len() == ring.buffer_size
                &&& forall|k: int|
                    0 <= k < ring.buffer_size ==> #[trigger] after.slots[at].bytes[k] == (if k
                        < data.len() {
                        data[k]
                    } else if clear {
                        ring.clear_value
                    } else {
                        ring.slots[at].bytes[k]
                    })
                &&& forall|i: int|
                    0 <= i < len && i != at ==> #[trigger] after.slots[i] == ring.slots[i]
                &&& after.cursor == (ring.cursor + passed + 1) % (usize::MAX + 1)
            }
        }),
{
    let len = ring.slots.len() as int;
    let passed = ring.skipped() as int;
    lemma_target(ring);
    law_cursors(ring.cursor + passed + 1, 0, 0);
    law_cursors(ring.slots[ring.target()].write_state + 2, 0, 0);
    assert(ring.slots[(ring.cursor + passed) % len].write_state % 2 == 0);
    assert forall|i: int| 0 <= i < passed implies (#[trigger] ring.slots[(ring.cursor + i)
        % len]).write_state % 2 == 1 by {
        assert(busy(ring.slots[ring.slot(ring.cursor + i)].write_state));
    }
}

/// Of any two slots, a write leaves at least one as it was, bytes and write state. A slot that a writer
/// is inside stays as it was in any case.
pub proof fn law_write_leaves_other_slots(
    ring: ByteRing,
    data: Seq<u8>,
    clear: bool,
    i: int,
    j: int,
)
    requires
        ring.wf(),
        ring.has_room(),
        0 <= i < ring.slots.len(),
        0 <= j < ring.slots.len(),
        i != j,
    ensures
        ({
            let after = ring.written(data, clear);
            &&& after.slots[i] == ring.slots[i] || after.slots[j] == ring.slots[j]
            &&& ring.slots[i].write_state % 2 == 1 ==> after.slots[i] == ring.slots[i]
        }),
{
    lemma_target(ring);
}

/// While no writer is inside any slot, a write goes to the slot of the cursor, leaves every other slot
/// as it was, and moves the cursor on by one.
pub proof fn law_write_at_rest(ring: ByteRing, data: Seq<u8>, clear: bool)
    requires
        ring.wf(),
        forall|i: int| 0 <= i < ring.slots.len() ==> (#[trigger] ring.slots[i]).write_state % 2 == 0,
    ensures
        ({
            let len = ring.slots.len() as int;
            let at = ring.cursor as int % len;
            let after = ring.written(data, clear);
            &&& 0 <= at < len
            &&& after.wf()
            &&& after.slots.len() == len
            &&& after.clear_value == ring.clear_value
            &&& after.buffer_size == ring.buffer_size
            &&& after.slots[at].bytes.len() == ring.buffer_size
            &&& forall|k: int|
                0 <= k < ring.buffer_size ==> #[trigger] after.slots[at].bytes[k] == (if k
                    < data.len() {
                    data[k]
                } else if clear {
                    ring.clear_value
                } else {
                    ring.slots[at].bytes[k]
                })
            &&& forall|i: int| 0 <= i < len && i != at ==> #[trigger] after.slots[i] == ring.slots[i]
            &&& after.cursor == (ring.cursor + 1) % (usize::MAX + 1)
            &&& forall|i: int|
                0 <= i < len ==> (#[trigger] after.slots[i]).write_state % 2 == 0
        }),
{
    let len = ring.slots.len() as int;
    lemma_len_divides_cursor_count(len);
    lemma_mod_bound(ring.cursor as int, len);
    law_bytes_in_order(ring);
    assert(ring.slots[0].write_state % 2 == 0);
    lemma_target(ring);
    law_write_keeps_order(ring, data, clear);
    law_cursors(ring.cursor + 1, 0, 0);
    lemma_two_on(ring.slots[ring.target()].write_state);
    assert(ring.skipped() == 0) by {
        if ring.skipped() > 0 {
            assert(busy(ring.slots[ring.slot(ring.cursor + 0)].write_state));
        }
    }
}

/// Writes in a row to a ring that no writer is inside go to one slot after the other, all the way
/// round: the cursor moves on by one for each, each of the latest writes is in the slot of its own
/// cursor, as many as there are slots, over what was there before it, and a slot that no write has come
/// to is as it was.
pub proof fn law_writes_go_round(ring: ByteRing, writes: Seq<(Seq<u8>, bool)>, i: int)
    requires
        ring.wf(),
        forall|k: int| 0 <= k < ring.slots.len() ==> (#[trigger] ring.slots[k]).write_state % 2 == 0,
        0 <= i,
        writes.len() - ring.slots.len() <= i,
        i < writes.len() || i < ring.slots.len(),
    ensures
        ({
            let len = ring.slots.len() as int;
            let after = ring.written_all(writes);
            let at = (ring.cursor + i) % len;
            &&& after.wf()
            &&& after.slots.len() == len
            &&& after.clear_value == ring.clear_value
            &&& after.buffer_size == ring.buffer_size
            &&& after.cursor == (ring.cursor + writes.len()) % (usize::MAX + 1)
            &&& forall|k: int| 0 <= k < len ==> (#[trigger] after.slots[k]).write_state % 2 == 0
            &&& i < writes.len() ==> forall|k: int|
                0 <= k < ring.buffer_size ==> #[trigger] after.slots[at].bytes[k] == (if k
                    < writes[i].0.len() {
                    writes[i].0[k]
                } else if writes[i].1 {
                    ring.clear_value
                } else {
                    ring.written_all(writes.take(i)).slots[at].bytes[k]
                })
            &&& i >= writes.len() ==> after.slots[at] == ring.slots[at]
        }),
    decreases writes.len(),
{
    let len = ring.slots.len() as int;
    let n = writes.len() as int;
    lemma_len_divides_cursor_count(len);
    law_cursors(ring.cursor + n, 0, 0);
    law_cursors(ring.cursor + n - 1, 0, 0);
    lemma_mod_bound(ring.cursor + i, len);
    if n == 0 {
        lemma_cursor_itself(ring.cursor);
    } else {
        let earlier = writes.drop_last();
        let before = ring.written_all(earlier);
        if i == n - 1 {
            law_writes_go_round(ring, earlier, if n - 1 < len { n - 1 } else { n - 2 });
            assert(writes.take(i) =~= earlier);
        } else {
            law_writes_go_round(ring, earlier, i);
            if i < n {
                assert(earlier.take(i) =~= writes.take(i));
                lemma_slots_differ(ring.cursor + i, ring.cursor + n - 1, len);
            } else {
                lemma_slots_differ(ring.cursor + n - 1, ring.cursor + i, len);
            }
        }
        law_write_at_rest(before, writes.last().0, writes.last().1);
        assert(before.cursor == cursor_at(ring.cursor + n - 1));
        lemma_cursor_slot(ring.cursor + n - 1, len);
        lemma_cursor_ahead(ring.cursor + n - 1, 1);
        law_cursors(before.cursor + 1, 0, 0);
    }
}

/// Making some writes and then another is making the writes one after the other.
pub proof fn law_one_write_more(
    ring: ByteRing,
    writes: Seq<(Seq<u8>, bool)>,
    data: Seq<u8>,
    clear: bool,
)
    ensures
        ring.written_all(Seq::empty()) == ring,
        ring.written_all(writes.push((data, clear))) == ring.written_all(writes).written(data, clear),
{
    assert(writes.push((data, clear)).drop_last() =~= writes);
}

} // verus!
