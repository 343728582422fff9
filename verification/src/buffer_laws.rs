//! What holds of a [`BufferedAtomic`](crate::BufferedAtomic) however the steps of its writers and
//! readers interleave.
//!
//! Seen from any one slot, the writers and readers of the ring come, take the steps of a write to
//! that slot or of a read of it, and go. So what holds of one slot by itself holds of each slot of
//! the ring.
use vstd::arithmetic::div_mod::*;
use vstd::arithmetic::power2::*;
use vstd::pervasive::*;
use vstd::prelude::*;

use crate::atomic_item::read_effect;
use crate::atomic_item::read_step;
use crate::atomic_item::readable;
use crate::atomic_item::write_step;
use crate::atomic_item::ItemRead;
use crate::atomic_item::ItemWrite;
use crate::buffered_atomic::BufferRead;
use crate::buffered_atomic::BufferWrite;
use crate::buffered_atomic::Ring;
use crate::index::cursor_at;
use crate::index::lemma_cursor_slot_ahead;
use crate::index::lemma_len_divides_cursor_count;
use crate::item_laws::inside;
use crate::item_laws::law_copy_kept_or_not;
use crate::item_laws::law_item_start;
use crate::item_laws::law_item_step;
use crate::item_laws::law_kept_copy;
use crate::item_laws::law_one_writer_inside;
use crate::item_laws::law_value_at_rest;
use crate::item_laws::replacing;
use crate::item_laws::ItemSystem;
use crate::item_laws::Reader;
use crate::item_laws::Writer;

verus! {

/// Where a writer is: between the steps of its write, or in the middle of the write to a slot.
pub enum WriterAt<T> {
    Outer { op: BufferWrite<T> },
    Slot { index: usize, slot_op: ItemWrite<T> },
}

/// Where a reader is: between the steps of its read, or in the middle of the read of a slot.
pub enum ReaderAt<T> {
    Outer { op: BufferRead<T> },
    Slot { index: usize, slot_op: ItemRead<T> },
}

/// A writer of a ring.
pub struct RingWriter<T> {
    pub at: WriterAt<T>,
    /// The value that the writer was given.
    pub given: T,
}

/// A reader of a ring.
pub struct RingReader<T> {
    pub at: ReaderAt<T>,
    /// How many writes to the slot had been published when the reader loaded its sequence number.
    pub epoch: nat,
}

/// A ring with its writers and readers.
pub struct BufferSystem<T> where T: Clone {
    pub ring: Ring<T>,
    /// For each slot, the values given to the writers that have published in it, in order.
    pub histories: Seq<Seq<T>>,
    pub writers: Seq<RingWriter<T>>,
    pub readers: Seq<RingReader<T>>,
}

/// The writer as slot `i` sees it.
pub open spec fn writer_seen<T>(writer: RingWriter<T>, i: int) -> Writer<T> {
    let op = match writer.at {
        WriterAt::Slot { index, slot_op } if index == i => slot_op,
        _ => ItemWrite::Done,
    };
    Writer { op, given: writer.given }
}

/// The reader as slot `i` sees it.
pub open spec fn reader_seen<T>(reader: RingReader<T>, i: int) -> Reader<T> {
    let op = match reader.at {
        ReaderAt::Slot { index, slot_op } if index == i => slot_op,
        _ => ItemRead::Done { result: None },
    };
    Reader { op, epoch: reader.epoch }
}

impl<T> BufferSystem<T> where T: Clone {
    /// Slot `i` by itself, with the writers and readers as it sees them.
    pub open spec fn seen_from(self, i: int) -> ItemSystem<T> {
        ItemSystem {
            item: self.ring.items[i],
            history: self.histories[i],
            writers: self.writers.map_values(|writer: RingWriter<T>| writer_seen(writer, i)),
            readers: self.readers.map_values(|reader: RingReader<T>| reader_seen(reader, i)),
        }
    }

    /// A fresh ring that nobody has come to yet. Each writer has been given its first value.
    pub open spec fn start(self) -> bool {
        &&& is_pow2(self.ring.items.len() as int)
        &&& self.ring.items.len() <= usize::MAX
        &&& self.histories.len() == self.ring.items.len()
        &&& self.readers.len() <= usize::MAX
        &&& forall|i: int|
            0 <= i < self.ring.items.len() ==> {
                &&& (#[trigger] self.ring.items[i]).value is None
                &&& self.ring.items[i].seq == 0
                &&& self.ring.items[i].readers == 0
                &&& self.histories[i].len() == 0
            }
        &&& forall|w: int|
            0 <= w < self.writers.len() ==> (#[trigger] self.writers[w]).at == (WriterAt::Outer {
                op: BufferWrite::Advance { value: self.writers[w].given },
            })
        &&& forall|r: int|
            0 <= r < self.readers.len() ==> (#[trigger] self.readers[r]).at == (ReaderAt::Outer {
                op: BufferRead::<T>::Load,
            })
    }

    /// Writer `w` takes its next step. When it is done it begins another write with whatever
    /// value it is given.
    pub open spec fn writer_step(self, next: Self, w: int) -> bool {
        let RingWriter { at, given } = self.writers[w];
        let len = self.ring.items.len() as int;
        &&& 0 <= w < self.writers.len()
        &&& match at {
            WriterAt::Outer { op: BufferWrite::Advance { value } } => {
                let at = WriterAt::Outer {
                    op: BufferWrite::advanced(value, self.ring.cursor, len),
                };
                next == (BufferSystem {
                    ring: Ring { cursor: cursor_at(self.ring.cursor + 1), ..self.ring },
                    writers: self.writers.update(w, RingWriter { at, given }),
                    ..self
                })
            },
            WriterAt::Outer { op: BufferWrite::Attempt { index, value } } => {
                let at = WriterAt::Slot { index, slot_op: ItemWrite::Load { value } };
                next == (BufferSystem {
                    writers: self.writers.update(w, RingWriter { at, given }),
                    ..self
                })
            },
            WriterAt::Outer { op: BufferWrite::Done } => {
                let given = next.writers[w].given;
                let at = WriterAt::Outer { op: BufferWrite::Advance { value: given } };
                next == (BufferSystem {
                    writers: self.writers.update(w, RingWriter { at, given }),
                    ..self
                })
            },
            WriterAt::Slot { index, slot_op: ItemWrite::Done } => {
                let at = WriterAt::Outer { op: BufferWrite::attempted(Ok(())) };
                next == (BufferSystem {
                    writers: self.writers.update(w, RingWriter { at, given }),
                    ..self
                })
            },
            WriterAt::Slot { index, slot_op: ItemWrite::Refused { value } } => {
                let at = WriterAt::Outer { op: BufferWrite::attempted(Err(value)) };
                next == (BufferSystem {
                    writers: self.writers.update(w, RingWriter { at, given }),
                    ..self
                })
            },
            WriterAt::Slot { index, slot_op } => {
                let i = index as int;
                let (op2, item2) = write_step(slot_op, self.ring.items[i]);
                let at = WriterAt::Slot { index, slot_op: op2 };
                next == (BufferSystem {
                    ring: Ring { items: self.ring.items.update(i, item2), ..self.ring },
                    histories: if slot_op is Publish {
                        self.histories.update(i, self.histories[i].push(given))
                    } else {
                        self.histories
                    },
                    writers: self.writers.update(w, RingWriter { at, given }),
                    ..self
                })
            },
        }
    }

    /// Reader `r` takes its next step. When it is done it begins another read.
    pub open spec fn reader_step(self, next: Self, r: int) -> bool {
        let RingReader { at, epoch } = self.readers[r];
        let len = self.ring.items.len() as int;
        let RingReader { at: at2, epoch: epoch2 } = next.readers[r];
        &&& 0 <= r < self.readers.len()
        &&& next == (BufferSystem {
            ring: match at {
                ReaderAt::Slot { index, slot_op } => {
                    let i = index as int;
                    let item = read_effect(slot_op, self.ring.items[i]);
                    Ring { items: self.ring.items.update(i, item), ..self.ring }
                },
                ReaderAt::Outer { .. } => self.ring,
            },
            readers: self.readers.update(r, next.readers[r]),
            ..self
        })
        &&& match at {
            ReaderAt::Outer { op: BufferRead::Load } => {
                &&& at2 == (ReaderAt::Outer { op: BufferRead::<T>::loaded(self.ring.cursor, len) })
                &&& epoch2 == epoch
            },
            ReaderAt::Outer { op: BufferRead::Attempt { index } } => {
                &&& at2 == (ReaderAt::Slot { index, slot_op: ItemRead::<T>::Enter })
                &&& epoch2 == epoch
            },
            ReaderAt::Outer { op: BufferRead::Done { .. } } => {
                &&& at2 == (ReaderAt::Outer { op: BufferRead::<T>::Load })
                &&& epoch2 == epoch
            },
            ReaderAt::Slot { index, slot_op: ItemRead::Done { result } } => {
                &&& at2 == (ReaderAt::Outer { op: BufferRead::attempted(result) })
                &&& epoch2 == epoch
            },
            ReaderAt::Slot { index, slot_op } => {
                &&& at2 == (ReaderAt::Slot { index, slot_op: at2->slot_op })
                &&& read_step(slot_op, self.ring.items[index as int], at2->slot_op)
                &&& epoch2 == if slot_op is Load {
                    self.histories[index as int].len()
                } else {
                    epoch
                }
            },
        }
    }

    /// Some writer or reader takes its next step.
    pub open spec fn step(self, next: Self) -> bool {
        ||| exists|w: int| self.writer_step(next, w)
        ||| exists|r: int| self.reader_step(next, r)
    }

    /// The writer is at a slot of the ring, with the value it was given.
    pub open spec fn writer_ok(self, writer: RingWriter<T>) -> bool {
        let len = self.ring.items.len();
        match writer.at {
            WriterAt::Outer { op: BufferWrite::Advance { value } } => value == writer.given,
            WriterAt::Outer { op: BufferWrite::Attempt { index, value } } => {
                index < len && value == writer.given
            },
            WriterAt::Outer { op: BufferWrite::Done } => true,
            WriterAt::Slot { index, .. } => index < len,
        }
    }

    /// The reader is at a slot of the ring.
    pub open spec fn reader_ok(self, reader: RingReader<T>) -> bool {
        let len = self.ring.items.len();
        match reader.at {
            ReaderAt::Outer { op: BufferRead::Attempt { index } } => index < len,
            ReaderAt::Slot { index, .. } => index < len,
            _ => true,
        }
    }

    /// The slot that a read looks at.
    pub open spec fn latest(self) -> int {
        self.ring.slot(self.ring.cursor - 1)
    }

    /// Slot `i` can be read and holds `value`.
    pub open spec fn holds(self, i: int, value: T) -> bool {
        readable(self.ring.items[i].seq) && self.ring.items[i].value == Some(value)
    }

    /// A sole writer is at the slot before the cursor, and its value is there when its write is over.
    pub open spec fn sole_writer_ok(self, writer: RingWriter<T>) -> bool {
        match writer.at {
            WriterAt::Outer { op: BufferWrite::Advance { .. } } => true,
            WriterAt::Outer { op: BufferWrite::Attempt { index, .. } } => index == self.latest(),
            WriterAt::Outer { op: BufferWrite::Done } => self.holds(self.latest(), writer.given),
            WriterAt::Slot { index, slot_op } => {
                &&& index == self.latest()
                &&& slot_op is Done ==> self.holds(self.latest(), writer.given)
            },
        }
    }

    /// What holds of every state that the system can reach.
    pub open spec fn inv(self) -> bool {
        let len = self.ring.items.len();
        &&& is_pow2(len as int)
        &&& len <= usize::MAX
        &&& self.histories.len() == len
        &&& forall|w: int|
            0 <= w < self.writers.len() ==> self.writer_ok(#[trigger] self.writers[w])
        &&& forall|r: int|
            0 <= r < self.readers.len() ==> self.reader_ok(#[trigger] self.readers[r])
        // Each slot is in order by itself.
        &&& forall|i: int| 0 <= i < len ==> (#[trigger] self.seen_from(i)).inv()
        &&& self.writers.len() == 1 ==> self.sole_writer_ok(self.writers[0])
    }
}

/// A fresh ring is in order.
pub proof fn law_buffer_start<T: Clone>(s: BufferSystem<T>)
    requires
        s.start(),
    ensures
        s.inv(),
{
    assert forall|i: int| 0 <= i < s.ring.items.len() implies (#[trigger] s.seen_from(i)).inv() by {
        assert(s.ring.items[i].value is None);
        law_item_start(s.seen_from(i));
    }
    assert(s.writers.len() == 1 ==> s.sole_writer_ok(s.writers[0]));
}

/// Whatever step is taken next, the ring stays in order.
pub proof fn law_buffer_step<T: Clone>(s: BufferSystem<T>, next: BufferSystem<T>)
    requires
        s.inv(),
        s.step(next),
    ensures
        next.inv(),
{
    if exists|w: int| s.writer_step(next, w) {
        let w = choose|w: int| s.writer_step(next, w);
        lemma_writer_step(s, next, w);
    } else {
        let r = choose|r: int| s.reader_step(next, r);
        lemma_reader_step(s, next, r);
    }
}

/// A step of a writer of the ring is, to each slot, a step of a writer of that slot.
proof fn lemma_writer_seen<T: Clone>(s: BufferSystem<T>, next: BufferSystem<T>, w: int, i: int)
    requires
        s.inv(),
        s.writer_step(next, w),
        0 <= i < s.ring.items.len(),
    ensures
        s.seen_from(i).writer_step(next.seen_from(i), w),
{
    let here = s.seen_from(i);
    let there = next.seen_from(i);
    assert(s.writer_ok(s.writers[w]));
    assert(here.inv());
    assert(here.writer_ok(here.writers[w]));
    assert(there.readers =~= here.readers);
    assert(there.writers =~= here.writers.update(w, writer_seen(next.writers[w], i)));
}

proof fn lemma_writer_step<T: Clone>(s: BufferSystem<T>, next: BufferSystem<T>, w: int)
    requires
        s.inv(),
        s.writer_step(next, w),
    ensures
        next.inv(),
{
    let len = s.ring.items.len() as int;
    lemma_len_divides_cursor_count(len);
    lemma_mod_bound(s.ring.cursor as int, len);
    assert forall|i: int| 0 <= i < len implies (#[trigger] next.seen_from(i)).inv() by {
        assert(s.seen_from(i).inv());
        lemma_writer_seen(s, next, w, i);
        law_item_step(s.seen_from(i), next.seen_from(i));
    }
    assert forall|v: int| 0 <= v < next.writers.len() implies next.writer_ok(
        #[trigger] next.writers[v],
    ) by {
        assert(s.writer_ok(s.writers[v]));
        if v == w {
            if let WriterAt::Slot { index, slot_op } = s.writers[w].at {
                let here = s.seen_from(index as int);
                assert(here.inv());
                assert(here.writer_ok(here.writers[w]));
            }
        }
    }
    if s.writers.len() == 1 {
        lemma_cursor_slot_ahead(s.ring.cursor + 1, -1, len);
        if let WriterAt::Slot { index, slot_op } = s.writers[0].at {
            let i = index as int;
            assert(s.seen_from(i).inv());
            if slot_op is Publish {
                let there = next.seen_from(i);
                assert(there.inv());
                assert(there.writers[0].op is Done);
                assert(!there.someone_inside());
                law_value_at_rest(there);
                law_one_writer_inside(there, 0, 0);
                assert(next.holds(i, s.writers[0].given));
            }
        }
    }
}

/// A step of a reader of the ring is, to each slot, a step of a reader of that slot.
proof fn lemma_reader_seen<T: Clone>(s: BufferSystem<T>, next: BufferSystem<T>, r: int, i: int)
    requires
        s.inv(),
        s.reader_step(next, r),
        0 <= i < s.ring.items.len(),
    ensures
        s.seen_from(i).reader_step(next.seen_from(i), r),
{
    let here = s.seen_from(i);
    let there = next.seen_from(i);
    assert(s.reader_ok(s.readers[r]));
    assert(there.writers =~= here.writers);
    assert(there.readers =~= here.readers.update(r, reader_seen(next.readers[r], i)));
}

proof fn lemma_reader_step<T: Clone>(s: BufferSystem<T>, next: BufferSystem<T>, r: int)
    requires
        s.inv(),
        s.reader_step(next, r),
    ensures
        next.inv(),
{
    let len = s.ring.items.len() as int;
    lemma_len_divides_cursor_count(len);
    lemma_mod_bound(s.ring.cursor - 1, len);
    assert forall|i: int| 0 <= i < len implies (#[trigger] next.seen_from(i)).inv() by {
        assert(s.seen_from(i).inv());
        lemma_reader_seen(s, next, r, i);
        law_item_step(s.seen_from(i), next.seen_from(i));
    }
    assert forall|q: int| 0 <= q < next.readers.len() implies next.reader_ok(
        #[trigger] next.readers[q],
    ) by {
        assert(s.reader_ok(s.readers[q]));
    }
}

/// No two writers are inside the same slot.
pub proof fn law_one_writer_per_slot<T: Clone>(s: BufferSystem<T>, v: int, w: int)
    requires
        s.inv(),
        0 <= v < s.writers.len(),
        0 <= w < s.writers.len(),
        v != w,
    ensures
        !(s.writers[v].at matches WriterAt::Slot { index: i, slot_op: a } && s.writers[w].at matches
            WriterAt::Slot { index: k, slot_op: b } && i == k && inside(a) && inside(b)),
{
    if let WriterAt::Slot { index, slot_op } = s.writers[v].at {
        assert(s.writer_ok(s.writers[v]));
        let here = s.seen_from(index as int);
        assert(here.inv());
        assert(here.writers[v].op == slot_op);
        assert(here.writers[w] == writer_seen(s.writers[w], index as int));
    }
}

/// Some writer is inside the slot `index`.
pub open spec fn someone_inside_slot<T: Clone>(s: BufferSystem<T>, index: usize) -> bool {
    exists|w: int|
        0 <= w < s.writers.len() && ((#[trigger] s.writers[w]).at matches WriterAt::Slot {
            index: i,
            slot_op,
        } && i == index && inside(slot_op))
}

/// To a slot, a writer is inside exactly if one of the writers of the ring is.
proof fn lemma_inside_seen<T: Clone>(s: BufferSystem<T>, index: usize)
    ensures
        s.seen_from(index as int).someone_inside() <==> someone_inside_slot(s, index),
{
    let here = s.seen_from(index as int);
    if someone_inside_slot(s, index) {
        let w = choose|w: int|
            0 <= w < s.writers.len() && ((#[trigger] s.writers[w]).at matches WriterAt::Slot {
                index: i,
                slot_op,
            } && i == index && inside(slot_op));
        assert(inside(here.writers[w].op));
    }
    if here.someone_inside() {
        let w = choose|w: int| 0 <= w < here.writers.len() && inside(
            (#[trigger] here.writers[w]).op,
        );
        assert(here.writers[w] == writer_seen(s.writers[w], index as int));
    }
}

/// While a reader copies the value in a slot, no writer is about to drop it or to put another in its
/// place. So a value that is being replaced is never looked at.
pub proof fn law_buffer_no_look_while_replacing<T: Clone>(s: BufferSystem<T>, w: int, r: int)
    requires
        s.inv(),
        0 <= w < s.writers.len(),
        0 <= r < s.readers.len(),
    ensures
        !(s.writers[w].at matches WriterAt::Slot { index: i, slot_op: a } && s.readers[r].at matches
            ReaderAt::Slot { index: k, slot_op: b } && i == k && replacing(a) && b is Copy),
{
    if let ReaderAt::Slot { index, slot_op } = s.readers[r].at {
        assert(s.reader_ok(s.readers[r]));
        let here = s.seen_from(index as int);
        assert(here.inv());
        assert(here.readers[r].op == slot_op);
        assert(here.writers[w] == writer_seen(s.writers[w], index as int));
        if slot_op is Copy {
            assert(here.reader_ok(here.readers[r]));
            assert(replacing(here.writers[w].op) ==> here.someone_replacing());
        }
    }
}

/// What a reader takes from a slot is a copy of the value in place, which was there when the reader
/// came: no write to the slot has been published since, and no writer is inside.
pub proof fn law_buffer_kept_copy<T: Clone>(
    s: BufferSystem<T>,
    next: BufferSystem<T>,
    r: int,
    index: usize,
    result: T,
)
    requires
        s.inv(),
        s.reader_step(next, r),
        s.readers[r].at matches ReaderAt::Slot { index: i, slot_op } && i == index && slot_op
            is Validate,
        next.readers[r].at == (ReaderAt::Slot {
            index,
            slot_op: ItemRead::Leave { result: Some(result) },
        }),
    ensures
        0 < s.readers[r].epoch == s.histories[index as int].len(),
        !someone_inside_slot(s, index),
        s.ring.items[index as int].value == Some(s.histories[index as int].last()),
        strictly_cloned(s.histories[index as int].last(), result),
{
    assert(s.reader_ok(s.readers[r]));
    let i = index as int;
    assert(s.seen_from(i).inv());
    lemma_reader_seen(s, next, r, i);
    assert(next.seen_from(i).readers[r] == reader_seen(next.readers[r], i));
    assert(s.seen_from(i).readers[r] == reader_seen(s.readers[r], i));
    law_kept_copy(s.seen_from(i), next.seen_from(i), r, result);
    lemma_inside_seen(s, index);
}

/// A reader takes its copy from a slot unless a writer is inside, and takes nothing if one is.
pub proof fn law_buffer_copy_kept_or_not<T: Clone>(
    s: BufferSystem<T>,
    next: BufferSystem<T>,
    r: int,
    index: usize,
    seen: usize,
    copy: T,
)
    requires
        s.inv(),
        s.reader_step(next, r),
        s.readers[r].at == (ReaderAt::Slot { index, slot_op: ItemRead::Validate { seen, copy } }),
    ensures
        next.readers[r].at == (ReaderAt::Slot {
            index,
            slot_op: ItemRead::Leave {
                result: if someone_inside_slot(s, index) {
                    None
                } else {
                    Some(copy)
                },
            },
        }),
{
    assert(s.reader_ok(s.readers[r]));
    let i = index as int;
    assert(s.seen_from(i).inv());
    lemma_reader_seen(s, next, r, i);
    lemma_inside_seen(s, index);
    assert(next.seen_from(i).readers[r] == reader_seen(next.readers[r], i));
    assert(s.seen_from(i).readers[r] == reader_seen(s.readers[r], i));
    law_copy_kept_or_not(s.seen_from(i), next.seen_from(i), r);
}

/// Whenever a write of a sole writer is over, the slot before the cursor can be read and holds the
/// value of that write.
pub proof fn law_sole_write_is_latest<T: Clone>(s: BufferSystem<T>)
    requires
        s.inv(),
        s.writers.len() == 1,
        s.writers[0].at == (WriterAt::Outer { op: BufferWrite::<T>::Done }),
    ensures
        s.holds(s.latest(), s.writers[0].given),
{
    assert(s.sole_writer_ok(s.writers[0]));
}

/// While a write of a sole writer is over, every read that begins finds the value of that write: the
/// reader goes to the slot before the cursor, finds it readable, copies the value of the write, and
/// keeps the copy.
pub proof fn law_read_after_sole_write<T: Clone>(s: BufferSystem<T>, next: BufferSystem<T>, r: int)
    requires
        s.inv(),
        s.writers.len() == 1,
        s.writers[0].at == (WriterAt::Outer { op: BufferWrite::<T>::Done }),
        s.reader_step(next, r),
    ensures
        match s.readers[r].at {
            ReaderAt::Outer { op: BufferRead::Load } => {
                next.readers[r].at matches ReaderAt::Outer { op: BufferRead::Attempt { index } }
                    && index == s.latest()
            },
            ReaderAt::Slot { index, slot_op: ItemRead::Load } => {
                index == s.latest() ==> next.readers[r].at->slot_op is Copy
            },
            ReaderAt::Slot { index, slot_op: ItemRead::Validate { seen, copy } } => {
                index == s.latest() ==> {
                    &&& next.readers[r].at == (ReaderAt::Slot {
                        index,
                        slot_op: ItemRead::Leave { result: Some(copy) },
                    })
                    &&& strictly_cloned(s.writers[0].given, copy)
                }
            },
            _ => true,
        },
{
    let len = s.ring.items.len() as int;
    lemma_len_divides_cursor_count(len);
    lemma_mod_bound(s.ring.cursor - 1, len);
    assert(s.reader_ok(s.readers[r]));
    law_sole_write_is_latest(s);
    if let ReaderAt::Slot { index, slot_op: ItemRead::Validate { seen, copy } } = s.readers[r].at {
        law_buffer_copy_kept_or_not(s, next, r, index, seen, copy);
        if index == s.latest() {
            assert(!someone_inside_slot(s, index));
            law_buffer_kept_copy(s, next, r, index, copy);
        }
    }
}

} // verus!
