//! What holds of one slot of a [`RingBuffer`](crate::RingBuffer) however the steps of its writers
//! and readers interleave.
use vstd::arithmetic::div_mod::*;
use vstd::prelude::*;

use crate::index::cursor_at;
use crate::index::cursor_count;
use crate::index::lemma_cursor_ahead;
use crate::index::lemma_cursor_itself;
use crate::ringbuffer::inscribed;
use crate::ringbuffer::RingRead;
use crate::ringbuffer::RingWrite;
use crate::ringbuffer::SlotBytes;
use crate::scan::busy;

verus! {

/// How many writes it takes until a write state comes again.
pub open spec fn state_period() -> int {
    cursor_count() / 2
}

/// The write state at which a slot rests after `n` writes.
pub open spec fn state_after(n: int) -> usize {
    cursor_at(2 * n)
}

/// A write: the data, and the byte that the slot is cleared with before, if it is.
pub struct Inscription {
    pub data: Seq<u8>,
    pub clear: Option<u8>,
}

/// A writer of a slot.
pub struct SlotWriter {
    /// The step that comes next.
    pub op: RingWrite,
    /// What the writer was given to write.
    pub given: Inscription,
}

/// A reader of a slot.
pub struct SlotReader {
    /// The step that comes next.
    pub op: RingRead,
    /// The bytes that the reader has copied.
    pub copy: Seq<u8>,
    /// How many writes had ended when the reader loaded the write state.
    pub epoch: nat,
}

/// The writer has begun its write and not ended it.
pub open spec fn inside(op: RingWrite) -> bool {
    op is Fill || op is End
}

/// The writer is elsewhere.
pub open spec fn away(op: RingWrite) -> bool {
    op is Advance || op is Done
}

/// A slot with its writers and readers.
pub struct SlotSystem {
    pub index: usize,
    pub slot: SlotBytes,
    /// The writes that have ended, in order.
    pub done: Seq<Inscription>,
    /// The bytes of the slot at first and after each write that has ended.
    pub history: Seq<Seq<u8>>,
    pub writers: Seq<SlotWriter>,
    pub readers: Seq<SlotReader>,
}

impl SlotSystem {
    /// How many writes have ended.
    pub open spec fn writes(self) -> int {
        self.done.len() as int
    }

    /// Some writer is inside.
    pub open spec fn held(self) -> bool {
        exists|i: int| 0 <= i < self.writers.len() && inside((#[trigger] self.writers[i]).op)
    }

    /// A fresh slot that nobody has come to yet.
    pub open spec fn start(self) -> bool {
        &&& self.slot.write_state == 0
        &&& self.done.len() == 0
        &&& self.history == seq![self.slot.bytes]
        &&& forall|i: int| 0 <= i < self.writers.len() ==> away((#[trigger] self.writers[i]).op)
        &&& forall|j: int| 0 <= j < self.readers.len() ==> (#[trigger] self.readers[j]).op is Load
    }

    /// The system once writer `i` has moved on.
    pub open spec fn writer_moves(self, i: int, op: RingWrite) -> Self {
        let writer = SlotWriter { op, ..self.writers[i] };
        SlotSystem { writers: self.writers.update(i, writer), ..self }
    }

    /// Writer `i` takes its next step. A writer that is elsewhere stays elsewhere or comes to the
    /// slot; one that is done may have been given something else to write.
    pub open spec fn writer_step(self, next: Self, i: int) -> bool {
        let index = self.index;
        let slot = self.slot;
        let given = self.writers[i].given;
        &&& 0 <= i < self.writers.len()
        &&& match self.writers[i].op {
            RingWrite::Advance | RingWrite::Done => {
                let writer = next.writers[i];
                &&& away(writer.op) || writer.op == (RingWrite::Check { index })
                &&& self.writers[i].op is Advance ==> writer.given == given
                &&& next == (SlotSystem { writers: self.writers.update(i, writer), ..self })
            },
            RingWrite::Check { .. } => {
                next == self.writer_moves(i, RingWrite::checked(index, slot.write_state))
            },
            RingWrite::Claim { seen, claim, .. } => {
                let won = slot.write_state == seen;
                let write_state = if won {
                    claim
                } else {
                    slot.write_state
                };
                next == (SlotSystem {
                    slot: SlotBytes { write_state, ..slot },
                    ..self.writer_moves(i, RingWrite::exchanged(index, won))
                })
            },
            RingWrite::Fill { .. } => {
                let bytes = inscribed(slot.bytes, given.data, given.clear);
                next == (SlotSystem {
                    slot: SlotBytes { bytes, ..slot },
                    ..self.writer_moves(i, RingWrite::End { index })
                })
            },
            RingWrite::End { .. } => {
                let write_state = cursor_at(slot.write_state + 1);
                next == (SlotSystem {
                    slot: SlotBytes { write_state, ..slot },
                    done: self.done.push(given),
                    history: self.history.push(slot.bytes),
                    ..self.writer_moves(i, RingWrite::Done)
                })
            },
        }
    }

    /// Reader `j` takes its next step. A reader that is elsewhere stays elsewhere or comes to the
    /// slot.
    ///
    /// A copy takes a while, and writers may come in meanwhile. Nothing is known of the copy unless
    /// the write state is still the one that was loaded when the copy is complete.
    pub open spec fn reader_step(self, next: Self, j: int) -> bool {
        let SlotReader { op, copy, epoch } = self.readers[j];
        let reader = next.readers[j];
        let index = self.index;
        &&& 0 <= j < self.readers.len()
        &&& next == (SlotSystem { readers: self.readers.update(j, reader), ..self })
        &&& match op {
            RingRead::Load | RingRead::Done => {
                reader.op is Load || reader.op is Done || reader.op == (RingRead::Check { index })
            },
            RingRead::Check { .. } => {
                &&& reader.op == RingRead::checked(index, self.slot.write_state)
                &&& reader.epoch == self.writes()
            },
            RingRead::Copy { seen, .. } => {
                &&& reader.op == (RingRead::Validate { index, seen })
                &&& reader.epoch == epoch
                &&& self.slot.write_state == seen ==> reader.copy == self.slot.bytes
            },
            RingRead::Validate { seen, .. } => {
                reader == (SlotReader {
                    op: RingRead::rechecked(seen, self.slot.write_state),
                    copy,
                    epoch,
                })
            },
        }
    }

    /// Some writer or reader takes its next step.
    pub open spec fn step(self, next: Self) -> bool {
        ||| exists|i: int| self.writer_step(next, i)
        ||| exists|j: int| self.reader_step(next, j)
    }

    /// The writer is where it can be, given the slot.
    pub open spec fn writer_ok(self, writer: SlotWriter) -> bool {
        let SlotWriter { op, given } = writer;
        match op {
            RingWrite::Claim { seen, claim, .. } => !busy(seen) && claim == seen + 1,
            RingWrite::Fill { .. } => self.slot.bytes == self.history.last(),
            RingWrite::End { .. } => {
                self.slot.bytes == inscribed(self.history.last(), given.data, given.clear)
            },
            _ => true,
        }
    }

    /// The reader is where it can be, given the slot.
    pub open spec fn reader_ok(self, reader: SlotReader) -> bool {
        let SlotReader { op, copy, epoch } = reader;
        match op {
            RingRead::Copy { seen, .. } => {
                epoch <= self.writes() && seen == state_after(epoch as int)
            },
            RingRead::Validate { seen, .. } => {
                &&& epoch <= self.writes()
                &&& seen == state_after(epoch as int)
                &&& self.slot.write_state == seen && self.writes() - epoch < state_period()
                    ==> copy == self.history[epoch as int]
            },
            _ => true,
        }
    }

    /// What holds of every state that the system can reach.
    pub open spec fn inv(self) -> bool {
        &&& self.history.len() == self.writes() + 1
        // The write state is odd exactly while some writer is inside, and then one writer alone is.
        &&& self.slot.write_state == if self.held() {
            cursor_at(2 * self.writes() + 1)
        } else {
            state_after(self.writes())
        }
        &&& forall|i: int, k: int|
            0 <= i < self.writers.len() && 0 <= k < self.writers.len() && inside(
                (#[trigger] self.writers[i]).op,
            ) && inside((#[trigger] self.writers[k]).op) ==> i == k
        // At rest, the bytes are those that the last write left.
        &&& !self.held() ==> self.slot.bytes == self.history.last()
        // Each write has been made over the bytes that the one before it left.
        &&& forall|k: int|
            0 <= k < self.writes() ==> #[trigger] self.history[k + 1] == inscribed(
                self.history[k],
                self.done[k].data,
                self.done[k].clear,
            )
        &&& forall|i: int|
            0 <= i < self.writers.len() ==> self.writer_ok(#[trigger] self.writers[i])
        &&& forall|j: int|
            0 <= j < self.readers.len() ==> self.reader_ok(#[trigger] self.readers[j])
    }
}

/// A write state is odd at the odd positions of the count.
proof fn lemma_parity(n: int)
    ensures
        busy(cursor_at(n)) <==> n % 2 == 1,
        cursor_count() == 2 * state_period(),
{
    assert(usize::MAX % 2 == 1);
    let half = state_period();
    lemma_mod_bound(n, cursor_count());
    lemma_mod_mod(n, 2, half);
}

/// Fewer writes than the period never bring a write state back.
proof fn lemma_state_after_distinct(m: int, n: int)
    requires
        m < n,
        n - m < state_period(),
    ensures
        state_after(m) != state_after(n),
{
    let count = cursor_count();
    lemma_parity(0);
    lemma_mod_bound(2 * m, count);
    lemma_mod_bound(2 * n, count);
    if state_after(m) == state_after(n) {
        lemma_mod_equivalence(2 * n, 2 * m, count);
        lemma_small_mod((2 * n - 2 * m) as nat, count as nat);
    }
}

/// A fresh slot is in order.
pub proof fn law_slot_start(s: SlotSystem)
    requires
        s.start(),
    ensures
        s.inv(),
{
    lemma_small_mod(0, cursor_count() as nat);
}

/// Whatever step is taken next, the slot stays in order.
pub proof fn law_slot_step(s: SlotSystem, next: SlotSystem)
    requires
        s.inv(),
        s.step(next),
    ensures
        next.inv(),
{
    if exists|i: int| s.writer_step(next, i) {
        let i = choose|i: int| s.writer_step(next, i);
        lemma_writer_step(s, next, i);
    } else {
        let j = choose|j: int| s.reader_step(next, j);
        lemma_reader_step(s, next, j);
    }
}

proof fn lemma_writer_step(s: SlotSystem, next: SlotSystem, i: int)
    requires
        s.inv(),
        s.writer_step(next, i),
    ensures
        next.inv(),
{
    let n = s.writes();
    lemma_parity(2 * n);
    lemma_parity(2 * n + 1);
    lemma_cursor_ahead(2 * n, 1);
    lemma_cursor_ahead(2 * n + 1, 1);
    lemma_cursor_itself(next.slot.write_state);
    assert(s.writer_ok(s.writers[i]));
    assert(forall|k: int|
        0 <= k < s.writers.len() && k != i ==> #[trigger] next.writers[k] == s.writers[k]);
    if s.held() {
        let k = choose|k: int| 0 <= k < s.writers.len() && inside((#[trigger] s.writers[k]).op);
        assert(k != i ==> inside(next.writers[k].op));
    }
    assert(inside(next.writers[i].op) ==> next.held());
    assert forall|k: int| 0 <= k < next.writers.len() implies next.writer_ok(
        #[trigger] next.writers[k],
    ) by {
        assert(s.writer_ok(s.writers[k]));
    }
    assert forall|k: int| 0 <= k < next.writes() implies #[trigger] next.history[k + 1]
        == inscribed(next.history[k], next.done[k].data, next.done[k].clear) by {
        if k < n {
            assert(s.history[k + 1] == inscribed(s.history[k], s.done[k].data, s.done[k].clear));
        }
    }
    assert forall|j: int| 0 <= j < next.readers.len() implies next.reader_ok(
        #[trigger] next.readers[j],
    ) by {
        assert(s.reader_ok(s.readers[j]));
        let epoch = s.readers[j].epoch as int;
        lemma_parity(2 * epoch);
        if epoch <= n && n + 1 - epoch < state_period() {
            lemma_state_after_distinct(epoch, n + 1);
        }
    }
}

proof fn lemma_reader_step(s: SlotSystem, next: SlotSystem, j: int)
    requires
        s.inv(),
        s.reader_step(next, j),
    ensures
        next.inv(),
{
    let n = s.writes();
    lemma_parity(2 * n);
    lemma_parity(2 * n + 1);
    assert(next.writers == s.writers);
    assert forall|k: int| 0 <= k < next.readers.len() implies next.reader_ok(
        #[trigger] next.readers[k],
    ) by {
        assert(s.reader_ok(s.readers[k]));
        let epoch = s.readers[j].epoch as int;
        lemma_parity(2 * epoch);
        if epoch < n && n - epoch < state_period() {
            lemma_state_after_distinct(epoch, n);
        }
    }
}

/// At most one writer is inside, and the write state is odd exactly while one is.
pub proof fn law_slot_one_writer_inside(s: SlotSystem, i: int, k: int)
    requires
        s.inv(),
        0 <= i < s.writers.len(),
        0 <= k < s.writers.len(),
    ensures
        inside(s.writers[i].op) && inside(s.writers[k].op) ==> i == k,
        busy(s.slot.write_state) <==> s.held(),
{
    lemma_parity(2 * s.writes());
    lemma_parity(2 * s.writes() + 1);
}

/// The slot holds the result of whole writes, one after the other: its bytes at rest are what the
/// last write that ended has made of those that the write before it left.
pub proof fn law_slot_whole_writes(s: SlotSystem)
    requires
        s.inv(),
        !s.held(),
    ensures
        s.history.len() == s.done.len() + 1,
        s.slot.bytes == s.history.last(),
        forall|k: int|
            0 <= k < s.done.len() ==> #[trigger] s.history[k + 1] == inscribed(
                s.history[k],
                s.done[k].data,
                s.done[k].clear,
            ),
{
}

/// The bytes that a reader keeps are those that the slot holds at rest: no write has ended since
/// the read of it began, and no writer is inside. This leaves out a read during which the write
/// states went all the way round.
pub proof fn law_slot_kept_copy(s: SlotSystem, next: SlotSystem, j: int)
    requires
        s.inv(),
        s.reader_step(next, j),
        s.readers[j].op is Validate,
        next.readers[j].op is Done,
        s.writes() - s.readers[j].epoch < state_period(),
    ensures
        s.readers[j].epoch == s.writes(),
        !s.held(),
        next.readers[j].copy == s.history[s.readers[j].epoch as int],
        next.readers[j].copy == s.slot.bytes,
{
    let n = s.writes();
    let epoch = s.readers[j].epoch as int;
    assert(s.reader_ok(s.readers[j]));
    lemma_parity(2 * n + 1);
    lemma_parity(2 * epoch);
    if epoch < n {
        lemma_state_after_distinct(epoch, n);
    }
}

/// A copy is given up if a write has ended since the read of the slot began, or if a writer is
/// inside. This leaves out a read during which the write states went all the way round.
pub proof fn law_slot_overtaken_copy(s: SlotSystem, next: SlotSystem, j: int)
    requires
        s.inv(),
        s.reader_step(next, j),
        s.readers[j].op is Validate,
        s.readers[j].epoch < s.writes() || s.held(),
        s.writes() - s.readers[j].epoch < state_period(),
    ensures
        next.readers[j].op is Load,
{
    let n = s.writes();
    let epoch = s.readers[j].epoch as int;
    assert(s.reader_ok(s.readers[j]));
    lemma_parity(2 * n + 1);
    lemma_parity(2 * epoch);
    if epoch < n {
        lemma_state_after_distinct(epoch, n);
    }
}

} // verus!
