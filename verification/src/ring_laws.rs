//! What holds of a [`RingBuffer`](crate::RingBuffer) however the steps of its writers and readers
//! interleave.
//!
//! Seen from any one slot, the writers and readers of the ring come, take the steps of a write to
//! that slot or of a read of it, and go. So what holds of one slot by itself holds of each slot of
//! the ring.
use vstd::arithmetic::div_mod::*;
use vstd::arithmetic::power2::*;
use vstd::prelude::*;

use crate::index::cursor_at;
use crate::index::lemma_cursor_slot_ahead;
use crate::index::lemma_len_divides_cursor_count;
use crate::ringbuffer::inscribed;
use crate::ringbuffer::ByteRing;
use crate::ringbuffer::RingRead;
use crate::ringbuffer::RingWrite;
use crate::ringbuffer::SlotBytes;
use crate::scan::busy;
use crate::slot_laws::inside;
use crate::slot_laws::law_slot_kept_copy;
use crate::slot_laws::law_slot_one_writer_inside;
use crate::slot_laws::law_slot_overtaken_copy;
use crate::slot_laws::law_slot_start;
use crate::slot_laws::law_slot_step;
use crate::slot_laws::law_slot_whole_writes;
use crate::slot_laws::state_period;
use crate::slot_laws::Inscription;
use crate::slot_laws::SlotReader;
use crate::slot_laws::SlotSystem;
use crate::slot_laws::SlotWriter;

verus! {

/// A ring with its writers and readers.
pub struct RingSystem {
    pub ring: ByteRing,
    /// For each slot, the writes to it that have ended, in order.
    pub done: Seq<Seq<Inscription>>,
    /// For each slot, its bytes at first and after each write to it that has ended.
    pub histories: Seq<Seq<Seq<u8>>>,
    pub writers: Seq<SlotWriter>,
    pub readers: Seq<SlotReader>,
}

/// The slot that a writer is at, if it is at one.
pub open spec fn write_at(op: RingWrite) -> Option<usize> {
    match op {
        RingWrite::Advance | RingWrite::Done => None,
        RingWrite::Check { index } => Some(index),
        RingWrite::Claim { index, .. } => Some(index),
        RingWrite::Fill { index } => Some(index),
        RingWrite::End { index } => Some(index),
    }
}

/// The slot that a reader is at, if it is at one.
pub open spec fn read_at(op: RingRead) -> Option<usize> {
    match op {
        RingRead::Load | RingRead::Done => None,
        RingRead::Check { index } => Some(index),
        RingRead::Copy { index, .. } => Some(index),
        RingRead::Validate { index, .. } => Some(index),
    }
}

/// The writer as slot `i` sees it.
pub open spec fn writer_seen(writer: SlotWriter, i: int) -> SlotWriter {
    match write_at(writer.op) {
        Some(index) if index != i => SlotWriter { op: RingWrite::Advance, ..writer },
        _ => writer,
    }
}

/// The reader as slot `i` sees it.
pub open spec fn reader_seen(reader: SlotReader, i: int) -> SlotReader {
    match read_at(reader.op) {
        Some(index) if index != i => SlotReader { op: RingRead::Load, ..reader },
        _ => reader,
    }
}

impl RingSystem {
    /// Slot `i` by itself, with the writers and readers as it sees them.
    pub open spec fn seen_from(self, i: int) -> SlotSystem {
        SlotSystem {
            index: i as usize,
            slot: self.ring.slots[i],
            done: self.done[i],
            history: self.histories[i],
            writers: self.writers.map_values(|writer: SlotWriter| writer_seen(writer, i)),
            readers: self.readers.map_values(|reader: SlotReader| reader_seen(reader, i)),
        }
    }

    /// A write clears its slot with the byte of the ring, or not at all.
    pub open spec fn fits(self, given: Inscription) -> bool {
        given.clear matches Some(byte) ==> byte == self.ring.clear_value
    }

    /// A fresh ring that nobody has come to yet. Each writer has been given its first data.
    pub open spec fn start(self) -> bool {
        &&& self.ring.wf()
        &&& self.done.len() == self.ring.slots.len()
        &&& self.histories.len() == self.ring.slots.len()
        &&& forall|i: int|
            0 <= i < self.ring.slots.len() ==> {
                &&& (#[trigger] self.ring.slots[i]).write_state == 0
                &&& self.done[i].len() == 0
                &&& self.histories[i] == seq![self.ring.slots[i].bytes]
            }
        &&& forall|w: int|
            0 <= w < self.writers.len() ==> {
                &&& (#[trigger] self.writers[w]).op is Advance
                &&& self.fits(self.writers[w].given)
            }
        &&& forall|r: int| 0 <= r < self.readers.len() ==> (#[trigger] self.readers[r]).op is Load
    }

    /// The system once writer `w` has moved on.
    pub open spec fn writer_moves(self, w: int, op: RingWrite) -> Self {
        let writer = SlotWriter { op, ..self.writers[w] };
        RingSystem { writers: self.writers.update(w, writer), ..self }
    }

    /// The ring with slot `index` as `slot`.
    pub open spec fn with_slot(self, index: usize, slot: SlotBytes) -> ByteRing {
        ByteRing { slots: self.ring.slots.update(index as int, slot), ..self.ring }
    }

    /// Writer `w` takes its next step. When it is done it begins another write with whatever data
    /// it is given.
    pub open spec fn writer_step(self, next: Self, w: int) -> bool {
        let ring = self.ring;
        let given = self.writers[w].given;
        &&& 0 <= w < self.writers.len()
        &&& match self.writers[w].op {
            RingWrite::Advance => {
                let index = ring.slot(ring.cursor as int) as usize;
                next == (RingSystem {
                    ring: ByteRing { cursor: cursor_at(ring.cursor + 1), ..ring },
                    ..self.writer_moves(w, RingWrite::Check { index })
                })
            },
            RingWrite::Check { index } => {
                let state = ring.slots[index as int].write_state;
                next == self.writer_moves(w, RingWrite::checked(index, state))
            },
            RingWrite::Claim { index, seen, claim } => {
                let slot = ring.slots[index as int];
                let won = slot.write_state == seen;
                let write_state = if won {
                    claim
                } else {
                    slot.write_state
                };
                next == (RingSystem {
                    ring: self.with_slot(index, SlotBytes { write_state, ..slot }),
                    ..self.writer_moves(w, RingWrite::exchanged(index, won))
                })
            },
            RingWrite::Fill { index } => {
                let slot = ring.slots[index as int];
                let bytes = inscribed(slot.bytes, given.data, given.clear);
                next == (RingSystem {
                    ring: self.with_slot(index, SlotBytes { bytes, ..slot }),
                    ..self.writer_moves(w, RingWrite::End { index })
                })
            },
            RingWrite::End { index } => {
                let i = index as int;
                let slot = ring.slots[i];
                let write_state = cursor_at(slot.write_state + 1);
                next == (RingSystem {
                    ring: self.with_slot(index, SlotBytes { write_state, ..slot }),
                    done: self.done.update(i, self.done[i].push(given)),
                    histories: self.histories.update(i, self.histories[i].push(slot.bytes)),
                    ..self.writer_moves(w, RingWrite::Done)
                })
            },
            RingWrite::Done => {
                let writer = SlotWriter { op: RingWrite::Advance, given: next.writers[w].given };
                &&& self.fits(writer.given)
                &&& next == (RingSystem { writers: self.writers.update(w, writer), ..self })
            },
        }
    }

    /// Reader `r` takes its next step. When it is done it begins another read.
    ///
    /// A copy takes a while, and writers may come in meanwhile. Nothing is known of the copy unless
    /// the write state is still the one that was loaded when the copy is complete.
    pub open spec fn reader_step(self, next: Self, r: int) -> bool {
        let ring = self.ring;
        let SlotReader { op, copy, epoch } = self.readers[r];
        let reader = next.readers[r];
        &&& 0 <= r < self.readers.len()
        &&& next == (RingSystem { readers: self.readers.update(r, reader), ..self })
        &&& match op {
            RingRead::Load => {
                let index = ring.slot(ring.cursor - 1) as usize;
                reader == (SlotReader { op: RingRead::Check { index }, copy, epoch })
            },
            RingRead::Check { index } => {
                let i = index as int;
                reader == (SlotReader {
                    op: RingRead::checked(index, ring.slots[i].write_state),
                    copy,
                    epoch: self.done[i].len(),
                })
            },
            RingRead::Copy { index, seen } => {
                let slot = ring.slots[index as int];
                &&& reader.op == (RingRead::Validate { index, seen })
                &&& reader.epoch == epoch
                &&& slot.write_state == seen ==> reader.copy == slot.bytes
            },
            RingRead::Validate { index, seen } => {
                let op = RingRead::rechecked(seen, ring.slots[index as int].write_state);
                reader == (SlotReader { op, copy, epoch })
            },
            RingRead::Done => reader == (SlotReader { op: RingRead::Load, copy, epoch }),
        }
    }

    /// Some writer or reader takes its next step.
    pub open spec fn step(self, next: Self) -> bool {
        ||| exists|w: int| self.writer_step(next, w)
        ||| exists|r: int| self.reader_step(next, r)
    }

    /// The writer is at a slot of the ring.
    pub open spec fn writer_ok(self, writer: SlotWriter) -> bool {
        &&& self.fits(writer.given)
        &&& write_at(writer.op) matches Some(index) ==> index < self.ring.slots.len()
    }

    /// The reader is at a slot of the ring.
    pub open spec fn reader_ok(self, reader: SlotReader) -> bool {
        read_at(reader.op) matches Some(index) ==> index < self.ring.slots.len()
    }

    /// The slot that a read looks at.
    pub open spec fn latest(self) -> int {
        self.ring.slot(self.ring.cursor - 1)
    }

    /// No writer is inside slot `i`, and the last write to it was `given`.
    pub open spec fn holds(self, i: int, given: Inscription) -> bool {
        &&& !busy(self.ring.slots[i].write_state)
        &&& self.done[i].len() > 0
        &&& self.done[i].last() == given
    }

    /// A sole writer is at the slot before the cursor, and its data is there when its write is over.
    pub open spec fn sole_writer_ok(self, writer: SlotWriter) -> bool {
        &&& write_at(writer.op) matches Some(index) ==> index == self.latest()
        &&& writer.op is Done ==> self.holds(self.latest(), writer.given)
    }

    /// What holds of every state that the system can reach.
    pub open spec fn inv(self) -> bool {
        let len = self.ring.slots.len();
        &&& self.ring.wf()
        &&& self.done.len() == len
        &&& self.histories.len() == len
        &&& forall|w: int|
            0 <= w < self.writers.len() ==> self.writer_ok(#[trigger] self.writers[w])
        &&& forall|r: int|
            0 <= r < self.readers.len() ==> self.reader_ok(#[trigger] self.readers[r])
        // Each slot is in order by itself.
        &&& forall|i: int| 0 <= i < len ==> (#[trigger] self.seen_from(i)).inv()
        &&& self.writers.len() == 1 ==> self.sole_writer_ok(self.writers[0])
    }

    /// Some writer is inside the slot `index`.
    pub open spec fn held(self, index: usize) -> bool {
        exists|w: int|
            {
                &&& 0 <= w < self.writers.len()
                &&& inside((#[trigger] self.writers[w]).op)
                &&& write_at(self.writers[w].op) == Some(index)
            }
    }
}

/// A fresh ring is in order.
pub proof fn law_ring_start(s: RingSystem)
    requires
        s.start(),
    ensures
        s.inv(),
{
    assert forall|i: int| 0 <= i < s.ring.slots.len() implies (#[trigger] s.seen_from(i)).inv() by {
        assert(s.ring.slots[i].write_state == 0);
        law_slot_start(s.seen_from(i));
    }
}

/// Whatever step is taken next, the ring stays in order.
pub proof fn law_ring_step(s: RingSystem, next: RingSystem)
    requires
        s.inv(),
        s.step(next),
    ensures
        next.inv(),
{
    if exists|w: int| s.writer_step(next, w) {
        let w = choose|w: int| s.writer_step(next, w);
        lemma_writer_step(s, next, w);
    } else {
        let r = choose|r: int| s.reader_step(next, r);
        lemma_reader_step(s, next, r);
    }
}

/// A step of a writer of the ring is, to each slot, a step of a writer of that slot.
proof fn lemma_writer_seen(s: RingSystem, next: RingSystem, w: int, i: int)
    requires
        s.inv(),
        s.writer_step(next, w),
        0 <= i < s.ring.slots.len(),
    ensures
        s.seen_from(i).writer_step(next.seen_from(i), w),
{
    let here = s.seen_from(i);
    let there = next.seen_from(i);
    let len = s.ring.slots.len() as int;
    lemma_len_divides_cursor_count(len);
    lemma_mod_bound(s.ring.cursor as int, len);
    assert(s.writer_ok(s.writers[w]));
    assert(there.readers =~= here.readers);
    assert(there.writers =~= here.writers.update(w, writer_seen(next.writers[w], i)));
    assert(here.writers[w] == writer_seen(s.writers[w], i));
}

proof fn lemma_writer_step(s: RingSystem, next: RingSystem, w: int)
    requires
        s.inv(),
        s.writer_step(next, w),
    ensures
        next.inv(),
{
    let len = s.ring.slots.len() as int;
    lemma_len_divides_cursor_count(len);
    lemma_mod_bound(s.ring.cursor as int, len);
    assert(s.writer_ok(s.writers[w]));
    assert forall|i: int| 0 <= i < len implies (#[trigger] next.seen_from(i)).inv() by {
        assert(s.seen_from(i).inv());
        lemma_writer_seen(s, next, w, i);
        law_slot_step(s.seen_from(i), next.seen_from(i));
    }
    assert forall|v: int| 0 <= v < next.writers.len() implies next.writer_ok(
        #[trigger] next.writers[v],
    ) by {
        assert(s.writer_ok(s.writers[v]));
    }
    assert forall|i: int| 0 <= i < len implies (#[trigger] next.ring.slots[i]).bytes.len()
        == next.ring.buffer_size by {
        assert(s.ring.slots[i].bytes.len() == s.ring.buffer_size);
    }
    if s.writers.len() == 1 {
        lemma_cursor_slot_ahead(s.ring.cursor + 1, -1, len);
        if let RingWrite::End { index } = s.writers[0].op {
            let there = next.seen_from(index as int);
            assert(there.inv());
            assert(there.writers[0].op is Done);
            assert(!there.held());
            law_slot_one_writer_inside(there, 0, 0);
        }
    }
}

/// A step of a reader of the ring is, to each slot, a step of a reader of that slot.
proof fn lemma_reader_seen(s: RingSystem, next: RingSystem, r: int, i: int)
    requires
        s.inv(),
        s.reader_step(next, r),
        0 <= i < s.ring.slots.len(),
    ensures
        s.seen_from(i).reader_step(next.seen_from(i), r),
{
    let here = s.seen_from(i);
    let there = next.seen_from(i);
    let len = s.ring.slots.len() as int;
    lemma_len_divides_cursor_count(len);
    lemma_mod_bound(s.ring.cursor - 1, len);
    assert(s.reader_ok(s.readers[r]));
    assert(there.writers =~= here.writers);
    assert(there.readers =~= here.readers.update(r, reader_seen(next.readers[r], i)));
    assert(here.readers[r] == reader_seen(s.readers[r], i));
}

proof fn lemma_reader_step(s: RingSystem, next: RingSystem, r: int)
    requires
        s.inv(),
        s.reader_step(next, r),
    ensures
        next.inv(),
{
    let len = s.ring.slots.len() as int;
    lemma_len_divides_cursor_count(len);
    lemma_mod_bound(s.ring.cursor - 1, len);
    assert forall|i: int| 0 <= i < len implies (#[trigger] next.seen_from(i)).inv() by {
        assert(s.seen_from(i).inv());
        lemma_reader_seen(s, next, r, i);
        law_slot_step(s.seen_from(i), next.seen_from(i));
    }
    assert forall|q: int| 0 <= q < next.readers.len() implies next.reader_ok(
        #[trigger] next.readers[q],
    ) by {
        assert(s.reader_ok(s.readers[q]));
    }
    assert forall|v: int| 0 <= v < next.writers.len() implies next.writer_ok(
        #[trigger] next.writers[v],
    ) by {
        assert(s.writer_ok(s.writers[v]));
    }
}

/// To a slot, a writer is inside exactly if one of the writers of the ring is.
proof fn lemma_held_seen(s: RingSystem, index: usize)
    requires
        index < s.ring.slots.len(),
    ensures
        s.seen_from(index as int).held() <==> s.held(index),
{
    let here = s.seen_from(index as int);
    if s.held(index) {
        let w = choose|w: int|
            {
                &&& 0 <= w < s.writers.len()
                &&& inside((#[trigger] s.writers[w]).op)
                &&& write_at(s.writers[w].op) == Some(index)
            };
        assert(inside(here.writers[w].op));
    }
    if here.held() {
        let w = choose|w: int| 0 <= w < here.writers.len() && inside(
            (#[trigger] here.writers[w]).op,
        );
        assert(here.writers[w] == writer_seen(s.writers[w], index as int));
    }
}

/// No two writers are inside the same slot, and the write state of a slot is odd exactly while one
/// is.
pub proof fn law_ring_one_writer_per_slot(s: RingSystem, v: int, w: int, index: usize)
    requires
        s.inv(),
        0 <= v < s.writers.len(),
        0 <= w < s.writers.len(),
        index < s.ring.slots.len(),
    ensures
        inside(s.writers[v].op) && inside(s.writers[w].op) && write_at(s.writers[v].op) == write_at(
            s.writers[w].op,
        ) ==> v == w,
        busy(s.ring.slots[index as int].write_state) <==> s.held(index),
{
    let here = s.seen_from(index as int);
    assert(here.inv());
    law_slot_one_writer_inside(here, v, w);
    lemma_held_seen(s, index);
    if inside(s.writers[v].op) {
        assert(s.writer_ok(s.writers[v]));
        let at = write_at(s.writers[v].op)->0 as int;
        let there = s.seen_from(at);
        assert(there.inv());
        law_slot_one_writer_inside(there, v, w);
        assert(there.writers[v] == writer_seen(s.writers[v], at));
        assert(there.writers[w] == writer_seen(s.writers[w], at));
    }
}

/// Each slot holds the result of whole writes, one after the other: its bytes at rest are what the
/// last write to it that ended has made of those that the write before it left.
pub proof fn law_ring_whole_writes(s: RingSystem, index: usize)
    requires
        s.inv(),
        index < s.ring.slots.len(),
        !s.held(index),
    ensures
        ({
            let i = index as int;
            &&& s.histories[i].len() == s.done[i].len() + 1
            &&& s.ring.slots[i].bytes == s.histories[i].last()
            &&& forall|k: int|
                0 <= k < s.done[i].len() ==> #[trigger] s.histories[i][k + 1] == inscribed(
                    s.histories[i][k],
                    s.done[i][k].data,
                    s.done[i][k].clear,
                )
        }),
{
    let here = s.seen_from(index as int);
    assert(here.inv());
    lemma_held_seen(s, index);
    law_slot_whole_writes(here);
}

/// The bytes that a reader keeps are those that the slot holds at rest: no write to the slot has
/// ended since the reader came, and no writer is inside. This leaves out a read during which the
/// write states of the slot went all the way round.
pub proof fn law_ring_kept_copy(s: RingSystem, next: RingSystem, r: int, index: usize, seen: usize)
    requires
        s.inv(),
        s.reader_step(next, r),
        s.readers[r].op == (RingRead::Validate { index, seen }),
        next.readers[r].op is Done,
        s.done[index as int].len() - s.readers[r].epoch < state_period(),
    ensures
        s.readers[r].epoch == s.done[index as int].len(),
        !s.held(index),
        next.readers[r].copy == s.ring.slots[index as int].bytes,
        next.readers[r].copy == s.histories[index as int].last(),
{
    let i = index as int;
    assert(s.reader_ok(s.readers[r]));
    let here = s.seen_from(i);
    let there = next.seen_from(i);
    assert(here.inv());
    lemma_reader_seen(s, next, r, i);
    assert(here.readers[r] == reader_seen(s.readers[r], i));
    assert(there.readers[r] == reader_seen(next.readers[r], i));
    law_slot_kept_copy(here, there, r);
    lemma_held_seen(s, index);
}

/// A copy is given up if a write to the slot has ended since the reader came, or if a writer is
/// inside. This leaves out a read during which the write states of the slot went all the way round.
pub proof fn law_ring_overtaken_copy(
    s: RingSystem,
    next: RingSystem,
    r: int,
    index: usize,
    seen: usize,
)
    requires
        s.inv(),
        s.reader_step(next, r),
        s.readers[r].op == (RingRead::Validate { index, seen }),
        s.readers[r].epoch < s.done[index as int].len() || s.held(index),
        s.done[index as int].len() - s.readers[r].epoch < state_period(),
    ensures
        next.readers[r].op is Load,
{
    let i = index as int;
    assert(s.reader_ok(s.readers[r]));
    let here = s.seen_from(i);
    let there = next.seen_from(i);
    assert(here.inv());
    lemma_reader_seen(s, next, r, i);
    lemma_held_seen(s, index);
    assert(here.readers[r] == reader_seen(s.readers[r], i));
    assert(there.readers[r] == reader_seen(next.readers[r], i));
    law_slot_overtaken_copy(here, there, r);
}

/// Whenever a write of a sole writer is over, no writer is inside the slot before the cursor, and the
/// slot has the data of that write at its beginning, cut off where the slot ends. The rest of the
/// slot is as the write before left it, or cleared.
pub proof fn law_sole_write_is_latest(s: RingSystem)
    requires
        s.inv(),
        s.writers.len() == 1,
        s.writers[0].op is Done,
    ensures
        ({
            let given = s.writers[0].given;
            let history = s.histories[s.latest()];
            let slot = s.ring.slots[s.latest()];
            &&& !busy(slot.write_state)
            &&& history.len() >= 2
            &&& slot.bytes == history.last()
            &&& slot.bytes.len() == s.ring.buffer_size
            &&& forall|k: int|
                0 <= k < s.ring.buffer_size ==> #[trigger] slot.bytes[k] == if k
                    < given.data.len() {
                    given.data[k]
                } else if given.clear is Some {
                    s.ring.clear_value
                } else {
                    history[history.len() - 2][k]
                }
        }),
{
    let len = s.ring.slots.len() as int;
    let i = s.latest();
    let given = s.writers[0].given;
    lemma_len_divides_cursor_count(len);
    lemma_mod_bound(s.ring.cursor - 1, len);
    assert(s.sole_writer_ok(s.writers[0]));
    assert(s.writer_ok(s.writers[0]));
    let here = s.seen_from(i);
    assert(here.inv());
    law_slot_one_writer_inside(here, 0, 0);
    law_slot_whole_writes(here);
    let last = here.done.len() - 1;
    assert(here.history[last + 1] == inscribed(here.history[last], given.data, given.clear));
    assert(s.ring.slots[i].bytes.len() == s.ring.buffer_size);
}

/// While a write of a sole writer is over, a read that begins goes to the slot before the cursor,
/// finds it free, copies its bytes, and keeps the copy.
pub proof fn law_read_after_sole_write(s: RingSystem, next: RingSystem, r: int)
    requires
        s.inv(),
        s.writers.len() == 1,
        s.writers[0].op is Done,
        s.reader_step(next, r),
    ensures
        ({
            let slot = s.ring.slots[s.latest()];
            match s.readers[r].op {
                RingRead::Load => {
                    next.readers[r].op matches RingRead::Check { index } && index == s.latest()
                },
                RingRead::Check { index } => {
                    index == s.latest() ==> next.readers[r].op == (RingRead::Copy {
                        index,
                        seen: slot.write_state,
                    })
                },
                RingRead::Copy { index, seen } => {
                    index == s.latest() && seen == slot.write_state ==> {
                        &&& next.readers[r].op == (RingRead::Validate { index, seen })
                        &&& next.readers[r].copy == slot.bytes
                    }
                },
                RingRead::Validate { index, seen } => {
                    index == s.latest() && seen == slot.write_state ==> {
                        &&& next.readers[r].op is Done
                        &&& next.readers[r].copy == s.readers[r].copy
                    }
                },
                RingRead::Done => true,
            }
        }),
{
    let len = s.ring.slots.len() as int;
    lemma_len_divides_cursor_count(len);
    lemma_mod_bound(s.ring.cursor - 1, len);
    assert(s.sole_writer_ok(s.writers[0]));
}

} // verus!
